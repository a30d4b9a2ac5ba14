//! The access-control matrix: an ordered collection of (subject, permission)
//! grant records with idempotent `grant` and swap-remove `deny`.

use vstd::prelude::*;

verus! {

/// One grant record: `subject` holds `permission`.
/// Equality is by the (subject, permission) pair.
#[derive(Clone, Copy, Debug, PartialEq, Eq, Structural)]
pub struct MatrixEntry {
    pub subject: u32,
    pub permission: u32,
}

impl MatrixEntry {
    pub fn new(subject: u32, permission: u32) -> (r: MatrixEntry)
        ensures
            r.subject == subject,
            r.permission == permission,
    {
        MatrixEntry { subject, permission }
    }

    pub fn subject(&self) -> (r: u32)
        ensures
            r == self.subject,
    {
        self.subject
    }

    pub fn permission(&self) -> (r: u32)
        ensures
            r == self.permission,
    {
        self.permission
    }
}

/// Does the sequence hold an entry equal to (subject, permission)?
pub open spec fn contains_pair(s: Seq<MatrixEntry>, subject: u32, permission: u32) -> bool {
    exists|i: int|
        0 <= i < s.len() && s[i].subject == subject && s[i].permission == permission
}

/// Index of the first entry equal to (subject, permission); meaningful only
/// when the sequence holds one.
pub open spec fn first_match(s: Seq<MatrixEntry>, subject: u32, permission: u32) -> int
    decreases s.len(),
{
    if s.len() == 0 {
        0
    } else if s[0].subject == subject && s[0].permission == permission {
        0
    } else {
        1 + first_match(s.drop_first(), subject, permission)
    }
}

/// What granting yields: unchanged if the pair is already present, else the
/// new entry appended at the end.
pub open spec fn spec_grant(s: Seq<MatrixEntry>, subject: u32, permission: u32) -> Seq<
    MatrixEntry,
> {
    if contains_pair(s, subject, permission) {
        s
    } else {
        s.push(MatrixEntry { subject, permission })
    }
}

/// What denying yields: unchanged if the pair is absent, else the first
/// matching entry removed by swapping the last entry into its slot and
/// truncating.
pub open spec fn spec_deny(s: Seq<MatrixEntry>, subject: u32, permission: u32) -> Seq<
    MatrixEntry,
> {
    if contains_pair(s, subject, permission) {
        s.update(first_match(s, subject, permission), s.last()).drop_last()
    } else {
        s
    }
}

/// No two entries carry the same (subject, permission) pair.
pub open spec fn no_duplicates(s: Seq<MatrixEntry>) -> bool {
    forall|i: int, j: int|
        0 <= i < j < s.len() ==> !(s[i].subject == s[j].subject && s[i].permission
            == s[j].permission)
}

/// The first match lies in range, matches, and nothing before it matches.
pub proof fn lemma_first_match(s: Seq<MatrixEntry>, subject: u32, permission: u32)
    requires
        contains_pair(s, subject, permission),
    ensures
        0 <= first_match(s, subject, permission) < s.len(),
        s[first_match(s, subject, permission)].subject == subject,
        s[first_match(s, subject, permission)].permission == permission,
        forall|j: int|
            0 <= j < first_match(s, subject, permission) ==> !(s[j].subject == subject
                && s[j].permission == permission),
    decreases s.len(),
{
    if s[0].subject == subject && s[0].permission == permission {
    } else {
        assert(contains_pair(s.drop_first(), subject, permission)) by {
            let i = choose|i: int|
                0 <= i < s.len() && s[i].subject == subject && s[i].permission == permission;
            assert(s.drop_first()[i - 1] == s[i]);
        }
        lemma_first_match(s.drop_first(), subject, permission);
        let f = first_match(s, subject, permission);
        assert(forall|j: int| 1 <= j < f ==> s[j] == s.drop_first()[j - 1]);
    }
}

/// A matching index at or before every other match is the first match.
pub proof fn lemma_first_match_unique(
    s: Seq<MatrixEntry>,
    subject: u32,
    permission: u32,
    i: int,
)
    requires
        0 <= i < s.len(),
        s[i].subject == subject,
        s[i].permission == permission,
        forall|j: int| 0 <= j < i ==> !(s[j].subject == subject && s[j].permission == permission),
    ensures
        first_match(s, subject, permission) == i,
{
    assert(contains_pair(s, subject, permission));
    lemma_first_match(s, subject, permission);
    let f = first_match(s, subject, permission);
    if f < i {
        assert(!(s[f].subject == subject && s[f].permission == permission));
    } else if i < f {
        assert(!(s[i].subject == subject && s[i].permission == permission));
    }
}

/// An access-control matrix: a sequence of grant records.
#[derive(Debug)]
pub struct Matrix {
    pub values: Vec<MatrixEntry>,
}

impl View for Matrix {
    type V = Seq<MatrixEntry>;

    open spec fn view(&self) -> Seq<MatrixEntry> {
        self.values@
    }
}

impl Matrix {
    pub fn new(values: Vec<MatrixEntry>) -> (r: Matrix)
        ensures
            r@ == values@,
    {
        Matrix { values }
    }

    pub fn values(&self) -> (r: &Vec<MatrixEntry>)
        ensures
            r@ == self@,
    {
        &self.values
    }

    /// Adds (subject, permission) unless an equal entry already exists; the
    /// operation is total and idempotent.
    pub fn grant(&mut self, subject: u32, permission: u32)
        ensures
            final(self)@ == spec_grant(old(self)@, subject, permission),
            no_duplicates(old(self)@) ==> no_duplicates(final(self)@),
    {
        let len: usize = self.values.len();
        let found = find_pair(&self.values, subject, permission);
        if found < len {
            // such a grant already exists
            return ;
        }
        self.values.push(MatrixEntry { subject, permission });
        proof {
            let t = old(self)@;
            let n = t.len() as int;
            if no_duplicates(t) {
                assert(forall|k: int| 0 <= k < n ==> self@[k] == t[k]);
                assert(no_duplicates(self@));
            }
        }
    }

    /// Removes the first entry equal to (subject, permission), if any, by
    /// swapping the last entry into its slot and truncating; a no-op when the
    /// pair is absent.
    pub fn deny(&mut self, subject: u32, permission: u32)
        ensures
            final(self)@ == spec_deny(old(self)@, subject, permission),
            no_duplicates(old(self)@) ==> no_duplicates(final(self)@),
    {
        let len: usize = self.values.len();
        let remove_index = find_pair(&self.values, subject, permission);
        if remove_index == len {
            return ;
        }
        proof {
            lemma_first_match_unique(self@, subject, permission, remove_index as int);
        }
        self.values.swap_remove(remove_index);
        proof {
            let t = old(self)@;
            let n = t.len() as int;
            let f = remove_index as int;
            let r = self@;
            assert(r == spec_deny(t, subject, permission));
            if no_duplicates(t) {
                assert(forall|k: int|
                    0 <= k < n - 1 ==> r[k] == (if k == f {
                        t[n - 1]
                    } else {
                        t[k]
                    }));
                assert forall|k1: int, k2: int| 0 <= k1 < k2 < n - 1 implies !(r[k1].subject
                    == r[k2].subject && r[k1].permission == r[k2].permission) by {
                    let m1: int = if k1 == f {
                        n - 1
                    } else {
                        k1
                    };
                    let m2: int = if k2 == f {
                        n - 1
                    } else {
                        k2
                    };
                    assert(r[k1] == t[m1] && r[k2] == t[m2]);
                    if m1 < m2 {
                        assert(!(t[m1].subject == t[m2].subject && t[m1].permission
                            == t[m2].permission));
                    } else {
                        assert(!(t[m2].subject == t[m1].subject && t[m2].permission
                            == t[m1].permission));
                    }
                }
                assert(no_duplicates(r));
            }
        }
    }
}

/// Law: granting is idempotent — granting a pair twice yields the same
/// matrix as granting it once.
pub proof fn lemma_grant_idempotent(s: Seq<MatrixEntry>, subject: u32, permission: u32)
    ensures
        spec_grant(spec_grant(s, subject, permission), subject, permission) == spec_grant(
            s,
            subject,
            permission,
        ),
{
    let g = spec_grant(s, subject, permission);
    if !contains_pair(s, subject, permission) {
        assert(g[s.len() as int] == (MatrixEntry { subject, permission }));
        assert(contains_pair(g, subject, permission));
    }
}

/// Law: denying a pair just granted to a matrix that did not hold it
/// restores the matrix — in particular its entry set — exactly.
pub proof fn lemma_grant_then_deny(s: Seq<MatrixEntry>, subject: u32, permission: u32)
    requires
        !contains_pair(s, subject, permission),
    ensures
        spec_deny(spec_grant(s, subject, permission), subject, permission) == s,
        spec_deny(spec_grant(s, subject, permission), subject, permission).to_set() == s.to_set(),
{
    let e = MatrixEntry { subject, permission };
    let g = s.push(e);
    assert(g[s.len() as int] == e);
    assert(forall|j: int| 0 <= j < s.len() ==> g[j] == s[j]);
    lemma_first_match_unique(g, subject, permission, s.len() as int);
    assert(contains_pair(g, subject, permission));
    assert(g.update(s.len() as int, g.last()).drop_last() =~= s);
}

/// Law: denying a pair that a matrix does not hold leaves it — in
/// particular its entry set — unchanged.
pub proof fn lemma_deny_absent(s: Seq<MatrixEntry>, subject: u32, permission: u32)
    requires
        !contains_pair(s, subject, permission),
    ensures
        spec_deny(s, subject, permission) == s,
        spec_deny(s, subject, permission).to_set() == s.to_set(),
{
}

/// Index of the first entry equal to (subject, permission), or the length of
/// the vector when no entry matches.
fn find_pair(values: &Vec<MatrixEntry>, subject: u32, permission: u32) -> (r: usize)
    ensures
        r <= values@.len(),
        r == values@.len() ==> !contains_pair(values@, subject, permission),
        r < values@.len() ==> values@[r as int].subject == subject && values@[r as int].permission
            == permission && forall|j: int|
            0 <= j < r ==> !(values@[j].subject == subject && values@[j].permission == permission),
{
    let len: usize = values.len();
    let mut i: usize = 0;
    while i < len
        invariant
            i <= len,
            len == values@.len(),
            forall|j: int|
                0 <= j < i ==> !(values@[j].subject == subject && values@[j].permission
                    == permission),
        decreases len - i,
    {
        let s = values[i].subject;
        let p = values[i].permission;
        if s == subject && p == permission {
            return i;
        }
        i += 1;
    }
    len
}

} // verus!
