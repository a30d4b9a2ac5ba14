//! Transaction types: typed, codec-encoded commands, each carrying one
//! `MatrixEntry` payload, whose application to a store fork is a pure
//! function of the stored state and the payload.

use vstd::prelude::*;

use crate::codec::{matrix_bytes, spec_decode_matrix, MAX_ENTRIES};
use crate::matrix::{
    contains_pair, lemma_first_match, spec_deny, spec_grant, Matrix, MatrixEntry,
};
use crate::schema::{access_control_key, Fork, MatrixSchema};

verus! {

/// The entries currently stored at the well-known key, defensively read as
/// empty when the slot is absent or does not hold a well-formed encoding.
pub open spec fn stored_entries(f: Map<Seq<u8>, Seq<u8>>) -> Seq<MatrixEntry> {
    if f.dom().contains(access_control_key()) {
        match spec_decode_matrix(f[access_control_key()]) {
            Some(s) => s,
            None => Seq::empty(),
        }
    } else {
        Seq::empty()
    }
}

/// What applying a grant transaction does to the stored state.  The slot is
/// left alone only when one more entry would overflow the encoding's 32-bit
/// byte count, which no physically storable state reaches.
pub open spec fn spec_apply_grant(f: Map<Seq<u8>, Seq<u8>>, subject: u32, permission: u32) -> Map<
    Seq<u8>,
    Seq<u8>,
> {
    let granted = spec_grant(stored_entries(f), subject, permission);
    if granted.len() <= MAX_ENTRIES {
        f.insert(access_control_key(), matrix_bytes(granted))
    } else {
        f
    }
}

/// What applying a deny transaction does to the stored state.
pub open spec fn spec_apply_deny(f: Map<Seq<u8>, Seq<u8>>, subject: u32, permission: u32) -> Map<
    Seq<u8>,
    Seq<u8>,
> {
    f.insert(access_control_key(), matrix_bytes(spec_deny(stored_entries(f), subject, permission)))
}

/// A decoded matrix never exceeds the entry-count cap.
pub proof fn lemma_stored_entries_bounded(f: Map<Seq<u8>, Seq<u8>>)
    ensures
        stored_entries(f).len() <= MAX_ENTRIES,
{
    if f.dom().contains(access_control_key()) {
        let b = f[access_control_key()];
        if spec_decode_matrix(b) is Some {
            crate::codec::lemma_matrix_reencode(b);
        }
    }
}

/// The command adding one (subject, permission) grant record.
#[derive(Clone, Copy, Debug, PartialEq, Eq, Structural)]
pub struct TxGrant {
    pub entry: MatrixEntry,
}

/// The command removing one (subject, permission) grant record.
#[derive(Clone, Copy, Debug, PartialEq, Eq, Structural)]
pub struct TxDeny {
    pub entry: MatrixEntry,
}

impl TxGrant {
    pub fn new(entry: MatrixEntry) -> (r: TxGrant)
        ensures
            r.entry == entry,
    {
        TxGrant { entry }
    }

    pub fn entry(&self) -> (r: MatrixEntry)
        ensures
            r == self.entry,
    {
        self.entry
    }

    /// Structural well-formedness is all this core checks; authenticity of
    /// the submitter is delegated to the enclosing ledger.
    pub fn verify(&self) -> (r: bool)
        ensures
            r,
    {
        true
    }

    /// Loads the current matrix (empty when absent), grants the embedded
    /// pair, and stores the result back.
    pub fn execute(&self, view: &mut Fork)
        requires
            old(view).wf(),
        ensures
            final(view).wf(),
            final(view)@ == spec_apply_grant(old(view)@, self.entry.subject, self.entry.permission),
    {
        let mut matrix: Matrix = match MatrixSchema::access_control(view) {
            Some(m) => m,
            None => Matrix::new(Vec::new()),
        };
        assert(matrix@ == stored_entries(view@));
        proof {
            lemma_stored_entries_bounded(view@);
        }
        matrix.grant(self.entry.subject, self.entry.permission);
        if matrix.values.len() <= MAX_ENTRIES {
            MatrixSchema::store_access_control(view, &matrix);
        }
    }
}

impl TxDeny {
    pub fn new(entry: MatrixEntry) -> (r: TxDeny)
        ensures
            r.entry == entry,
    {
        TxDeny { entry }
    }

    pub fn entry(&self) -> (r: MatrixEntry)
        ensures
            r == self.entry,
    {
        self.entry
    }

    /// Structural well-formedness is all this core checks; authenticity of
    /// the submitter is delegated to the enclosing ledger.
    pub fn verify(&self) -> (r: bool)
        ensures
            r,
    {
        true
    }

    /// Loads the current matrix (empty when absent), denies the embedded
    /// pair, and stores the result back.
    pub fn execute(&self, view: &mut Fork)
        requires
            old(view).wf(),
        ensures
            final(view).wf(),
            final(view)@ == spec_apply_deny(old(view)@, self.entry.subject, self.entry.permission),
    {
        let mut matrix: Matrix = match MatrixSchema::access_control(view) {
            Some(m) => m,
            None => Matrix::new(Vec::new()),
        };
        assert(matrix@ == stored_entries(view@));
        proof {
            lemma_stored_entries_bounded(view@);
        }
        let ghost before = matrix@;
        matrix.deny(self.entry.subject, self.entry.permission);
        proof {
            if contains_pair(before, self.entry.subject, self.entry.permission) {
                lemma_first_match(before, self.entry.subject, self.entry.permission);
            }
            assert(matrix@.len() <= before.len());
        }
        MatrixSchema::store_access_control(view, &matrix);
    }
}

} // verus!
