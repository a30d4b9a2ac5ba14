//! Storage layout: a key-value store fork and the typed accessor that maps
//! the well-known access-control key to one `Matrix` value.

use vstd::prelude::*;

use crate::codec::{decode_matrix, encode_matrix, matrix_bytes, spec_decode_matrix, MAX_ENTRIES};
use crate::matrix::Matrix;

verus! {

/// Identifier of this service; the storage key is scoped by it so the matrix
/// slot cannot collide with unrelated state in the same store.
pub const SERVICE_ID: u16 = 1;

/// A mutable, isolated view over the versioned store: a batch of puts is
/// accumulated here before the enclosing commit.
pub struct Fork {
    entries: Vec<(Vec<u8>, Vec<u8>)>,
}

/// The map held by an association list; later bindings shadow earlier ones.
pub open spec fn assoc_map(s: Seq<(Vec<u8>, Vec<u8>)>) -> Map<Seq<u8>, Seq<u8>>
    decreases s.len(),
{
    if s.len() == 0 {
        Map::empty()
    } else {
        assoc_map(s.drop_last()).insert(s.last().0@, s.last().1@)
    }
}

impl View for Fork {
    type V = Map<Seq<u8>, Seq<u8>>;

    closed spec fn view(&self) -> Map<Seq<u8>, Seq<u8>> {
        assoc_map(self.entries@)
    }
}

/// A key bound nowhere in the list is absent from its map.
proof fn lemma_assoc_absent(s: Seq<(Vec<u8>, Vec<u8>)>, k: Seq<u8>)
    requires
        forall|i: int| 0 <= i < s.len() ==> s[i].0@ != k,
    ensures
        !assoc_map(s).dom().contains(k),
    decreases s.len(),
{
    if s.len() > 0 {
        assert(forall|i: int| 0 <= i < s.len() - 1 ==> s.drop_last()[i] == s[i]);
        lemma_assoc_absent(s.drop_last(), k);
    }
}

/// With pairwise distinct keys, the binding at any index is the map's.
proof fn lemma_assoc_present(s: Seq<(Vec<u8>, Vec<u8>)>, i: int)
    requires
        forall|i1: int, i2: int| 0 <= i1 < i2 < s.len() ==> s[i1].0@ != s[i2].0@,
        0 <= i < s.len(),
    ensures
        assoc_map(s).dom().contains(s[i].0@),
        assoc_map(s)[s[i].0@] == s[i].1@,
    decreases s.len(),
{
    if i < s.len() - 1 {
        assert(forall|i1: int, i2: int|
            0 <= i1 < i2 < s.len() - 1 ==> s.drop_last()[i1].0@ != s.drop_last()[i2].0@);
        lemma_assoc_present(s.drop_last(), i);
        assert(s.last().0@ != s[i].0@);
    }
}

/// With pairwise distinct keys, replacing the pair at an index whose key it
/// keeps is an insert on the map.
proof fn lemma_assoc_update(s: Seq<(Vec<u8>, Vec<u8>)>, i: int, kv: (Vec<u8>, Vec<u8>))
    requires
        forall|i1: int, i2: int| 0 <= i1 < i2 < s.len() ==> s[i1].0@ != s[i2].0@,
        0 <= i < s.len(),
        s[i].0@ == kv.0@,
    ensures
        assoc_map(s.update(i, kv)) == assoc_map(s).insert(kv.0@, kv.1@),
    decreases s.len(),
{
    let s2 = s.update(i, kv);
    if i == s.len() - 1 {
        assert(s2.drop_last() =~= s.drop_last());
        assert(s2.last() == kv);
        assert(assoc_map(s2) =~= assoc_map(s).insert(kv.0@, kv.1@));
    } else {
        assert(forall|i1: int, i2: int|
            0 <= i1 < i2 < s.len() - 1 ==> s.drop_last()[i1].0@ != s.drop_last()[i2].0@);
        lemma_assoc_update(s.drop_last(), i, kv);
        assert(s2.drop_last() =~= s.drop_last().update(i, kv));
        assert(s2.last() == s.last());
        assert(s.last().0@ != kv.0@);
        assert(assoc_map(s2) =~= assoc_map(s).insert(kv.0@, kv.1@));
    }
}

/// Byte-for-byte equality of two buffers.
fn bytes_eq(a: &Vec<u8>, b: &Vec<u8>) -> (r: bool)
    ensures
        r <==> a@ == b@,
{
    let n: usize = a.len();
    if n != b.len() {
        return false;
    }
    let mut i: usize = 0;
    while i < n
        invariant
            i <= n,
            n == a@.len(),
            n == b@.len(),
            forall|j: int| 0 <= j < i ==> a@[j] == b@[j],
        decreases n - i,
    {
        if a[i] != b[i] {
            return false;
        }
        i += 1;
    }
    assert(a@ =~= b@);
    true
}

impl Fork {
    /// The keys of distinct slots are distinct.
    pub closed spec fn wf(&self) -> bool {
        forall|i1: int, i2: int|
            0 <= i1 < i2 < self.entries@.len() ==> self.entries@[i1].0@ != self.entries@[i2].0@
    }

    /// An empty fork: nothing written yet.
    pub fn new() -> (r: Fork)
        ensures
            r.wf(),
            r@ == Map::<Seq<u8>, Seq<u8>>::empty(),
    {
        Fork { entries: Vec::new() }
    }

    /// The value at `key`, if one was put.
    pub fn get(&self, key: &Vec<u8>) -> (r: Option<Vec<u8>>)
        requires
            self.wf(),
        ensures
            (match r {
                Some(v) => self@.dom().contains(key@) && v@ == self@[key@],
                None => !self@.dom().contains(key@),
            }),
    {
        let n: usize = self.entries.len();
        let mut i: usize = 0;
        while i < n
            invariant
                self.wf(),
                i <= n,
                n == self.entries@.len(),
                forall|j: int| 0 <= j < i ==> self.entries@[j].0@ != key@,
            decreases n - i,
        {
            if bytes_eq(&self.entries[i].0, &key) {
                let v = self.entries[i].1.clone();
                proof {
                    lemma_assoc_present(self.entries@, i as int);
                    assert(v@ =~= self.entries@[i as int].1@);
                }
                return Some(v);
            }
            i += 1;
        }
        proof {
            lemma_assoc_absent(self.entries@, key@);
        }
        None
    }

    /// Binds `key` to `value`, replacing any earlier binding.
    pub fn put(&mut self, key: Vec<u8>, value: Vec<u8>)
        requires
            old(self).wf(),
        ensures
            final(self).wf(),
            final(self)@ == old(self)@.insert(key@, value@),
    {
        let n: usize = self.entries.len();
        let mut i: usize = 0;
        while i < n
            invariant
                self.wf(),
                i <= n,
                n == self.entries@.len(),
                self.entries@ == old(self).entries@,
                forall|j: int| 0 <= j < i ==> self.entries@[j].0@ != key@,
            decreases n - i,
        {
            if bytes_eq(&self.entries[i].0, &key) {
                proof {
                    lemma_assoc_update(self.entries@, i as int, (key, value));
                }
                self.entries.set(i, (key, value));
                return ;
            }
            i += 1;
        }
        proof {
            lemma_assoc_absent(self.entries@, key@);
            assert(self.entries@.push((key, value)).drop_last() =~= self.entries@);
        }
        self.entries.push((key, value));
    }
}

/// Byte key of the single matrix slot: the service identifier, big endian,
/// then the table index within the service.
pub open spec fn access_control_key() -> Seq<u8> {
    seq![0u8, SERVICE_ID as u8, 0u8]
}

/// Builds the well-known storage key of the matrix slot.
pub fn access_control_key_bytes() -> (r: Vec<u8>)
    ensures
        r@ == access_control_key(),
{
    let mut k: Vec<u8> = Vec::new();
    k.push(0);
    k.push(SERVICE_ID as u8);
    k.push(0);
    assert(k@ =~= access_control_key());
    k
}

/// The typed accessor mapping the well-known storage key to the one `Matrix`
/// value kept in a fork.
pub struct MatrixSchema;

impl MatrixSchema {
    /// The current matrix, or nothing when the slot was never initialized or
    /// does not hold a well-formed encoding.
    pub fn access_control(fork: &Fork) -> (r: Option<Matrix>)
        requires
            fork.wf(),
        ensures
            (match r {
                Some(m) => fork@.dom().contains(access_control_key()) && spec_decode_matrix(
                    fork@[access_control_key()],
                ) == Some(m@),
                None => !fork@.dom().contains(access_control_key()) || spec_decode_matrix(
                    fork@[access_control_key()],
                ) is None,
            }),
    {
        let key = access_control_key_bytes();
        match fork.get(&key) {
            None => None,
            Some(bytes) => match decode_matrix(&bytes) {
                Ok(m) => Some(m),
                Err(_) => None,
            },
        }
    }

    /// Replaces the slot's value with the encoding of `m`.
    pub fn store_access_control(fork: &mut Fork, m: &Matrix)
        requires
            old(fork).wf(),
            m@.len() <= MAX_ENTRIES,
        ensures
            final(fork).wf(),
            final(fork)@ == old(fork)@.insert(access_control_key(), matrix_bytes(m@)),
    {
        let key = access_control_key_bytes();
        let bytes = encode_matrix(m);
        fork.put(key, bytes);
    }
}

} // verus!
