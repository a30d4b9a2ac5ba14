//! The service boundary: opcodes, transaction decoding, and the dispatcher
//! that applies a decoded transaction to a store fork.

use vstd::prelude::*;

use crate::codec::{decode_entry, entry_from_bytes, ENTRY_SIZE};
use crate::schema::{access_control_key, Fork, SERVICE_ID};
use crate::transactions::{spec_apply_deny, spec_apply_grant, TxDeny, TxGrant};
use crate::Error;

verus! {

/// Opcode of the grant transaction.
pub const TX_GRANT: u16 = 1;

/// Opcode of the deny transaction.
pub const TX_DENY: u16 = 2;

/// A decoded transaction: the closed set of commands this service applies.
#[derive(Clone, Copy, Debug, PartialEq, Eq, Structural)]
pub enum Transaction {
    Grant(TxGrant),
    Deny(TxDeny),
}

impl Transaction {
    /// What applying this transaction does to the stored state.
    pub open spec fn spec_apply(self, f: Map<Seq<u8>, Seq<u8>>) -> Map<Seq<u8>, Seq<u8>> {
        match self {
            Transaction::Grant(t) => spec_apply_grant(f, t.entry.subject, t.entry.permission),
            Transaction::Deny(t) => spec_apply_deny(f, t.entry.subject, t.entry.permission),
        }
    }

    /// Structural well-formedness is all this core checks; authenticity of
    /// the submitter is delegated to the enclosing ledger.
    pub fn verify(&self) -> (r: bool)
        ensures
            r,
    {
        true
    }

    /// Applies this transaction to the fork: a pure function of the stored
    /// state and the payload — nothing else may influence the result.
    pub fn execute(&self, view: &mut Fork)
        requires
            old(view).wf(),
        ensures
            final(view).wf(),
            final(view)@ == self.spec_apply(old(view)@),
    {
        match self {
            Transaction::Grant(t) => t.execute(view),
            Transaction::Deny(t) => t.execute(view),
        }
    }
}

/// What decoding an opcode and a payload yields: a typed transaction, or
/// `UnknownTransactionType` for an opcode naming neither command, or
/// `MalformedEncoding` for a payload that is not one 8-byte entry record.
pub open spec fn spec_tx_from_raw(message_type: u16, payload: Seq<u8>) -> Result<
    Transaction,
    Error,
> {
    if message_type == TX_GRANT {
        if payload.len() == ENTRY_SIZE {
            Ok(Transaction::Grant(TxGrant { entry: entry_from_bytes(payload) }))
        } else {
            Err(Error::MalformedEncoding)
        }
    } else if message_type == TX_DENY {
        if payload.len() == ENTRY_SIZE {
            Ok(Transaction::Deny(TxDeny { entry: entry_from_bytes(payload) }))
        } else {
            Err(Error::MalformedEncoding)
        }
    } else {
        Err(Error::UnknownTransactionType)
    }
}

/// The final stored state after replaying a sequence of transactions in
/// order against an initial state.
pub open spec fn spec_apply_all(txs: Seq<Transaction>, f: Map<Seq<u8>, Seq<u8>>) -> Map<
    Seq<u8>,
    Seq<u8>,
>
    decreases txs.len(),
{
    if txs.len() == 0 {
        f
    } else {
        spec_apply_all(txs.drop_first(), txs[0].spec_apply(f))
    }
}

/// Replaying one more transaction applies it to the replayed state.
pub proof fn lemma_apply_all_snoc(txs: Seq<Transaction>, tx: Transaction, f: Map<Seq<u8>, Seq<u8>>)
    ensures
        spec_apply_all(txs.push(tx), f) == tx.spec_apply(spec_apply_all(txs, f)),
    decreases txs.len(),
{
    if txs.len() == 0 {
        assert(txs.push(tx)[0] == tx);
        assert(txs.push(tx).drop_first() =~= Seq::<Transaction>::empty());
        assert(spec_apply_all(txs.push(tx).drop_first(), tx.spec_apply(f)) == tx.spec_apply(f));
    } else {
        assert(txs.push(tx)[0] == txs[0]);
        assert(txs.push(tx).drop_first() =~= txs.drop_first().push(tx));
        lemma_apply_all_snoc(txs.drop_first(), tx, txs[0].spec_apply(f));
        assert(spec_apply_all(txs.push(tx), f) == spec_apply_all(
            txs.push(tx).drop_first(),
            txs[0].spec_apply(f),
        ));
    }
}

/// Law: replay is deterministic.  Two stores that start in the same state
/// and apply the same ordered sequence of transactions end in the same
/// state; in particular the encoded matrix value at the well-known key is
/// byte-identical.
pub proof fn lemma_replay_deterministic(
    txs: Seq<Transaction>,
    f1: Map<Seq<u8>, Seq<u8>>,
    f2: Map<Seq<u8>, Seq<u8>>,
)
    requires
        f1 == f2,
    ensures
        spec_apply_all(txs, f1) == spec_apply_all(txs, f2),
        spec_apply_all(txs, f1)[access_control_key()] == spec_apply_all(
            txs,
            f2,
        )[access_control_key()],
{
}

/// The service: resolves opcodes to transaction types and owns the fork for
/// the duration of one application.
pub struct ACService;

impl ACService {
    pub fn service_name() -> (r: &'static str)
        ensures
            r@ == "cryptocurrency"@,
    {
        "cryptocurrency"
    }

    pub fn service_id() -> (r: u16)
        ensures
            r == SERVICE_ID,
    {
        SERVICE_ID
    }

    /// Decodes a raw transaction: opcode resolution, then payload decoding.
    pub fn tx_from_raw(message_type: u16, payload: &Vec<u8>) -> (r: Result<Transaction, Error>)
        ensures
            r == spec_tx_from_raw(message_type, payload@),
    {
        if message_type == TX_GRANT {
            match decode_entry(payload) {
                Ok(entry) => Ok(Transaction::Grant(TxGrant::new(entry))),
                Err(e) => Err(e),
            }
        } else if message_type == TX_DENY {
            match decode_entry(payload) {
                Ok(entry) => Ok(Transaction::Deny(TxDeny::new(entry))),
                Err(e) => Err(e),
            }
        } else {
            Err(Error::UnknownTransactionType)
        }
    }

    /// Decodes and applies in one step.  Every decode-time error is reported
    /// before any store mutation: on an error the fork is left untouched.
    pub fn apply_raw(message_type: u16, payload: &Vec<u8>, view: &mut Fork) -> (r: Result<
        (),
        Error,
    >)
        requires
            old(view).wf(),
        ensures
            final(view).wf(),
            (match spec_tx_from_raw(message_type, payload@) {
                Ok(tx) => r == Ok::<(), Error>(()) && final(view)@ == tx.spec_apply(old(view)@),
                Err(e) => r == Err::<(), Error>(e) && final(view)@ == old(view)@,
            }),
    {
        match Self::tx_from_raw(message_type, payload) {
            Ok(tx) => {
                tx.execute(view);
                Ok(())
            },
            Err(e) => Err(e),
        }
    }

    /// Replays a sequence of transactions in order.
    pub fn apply_transactions(txs: &Vec<Transaction>, view: &mut Fork)
        requires
            old(view).wf(),
        ensures
            final(view).wf(),
            final(view)@ == spec_apply_all(txs@, old(view)@),
    {
        let n: usize = txs.len();
        let mut i: usize = 0;
        while i < n
            invariant
                i <= n,
                n == txs@.len(),
                view.wf(),
                view@ == spec_apply_all(txs@.take(i as int), old(view)@),
            decreases n - i,
        {
            let tx = txs[i];
            tx.execute(view);
            proof {
                lemma_apply_all_snoc(txs@.take(i as int), txs@[i as int], old(view)@);
                assert(txs@.take(i + 1) =~= txs@.take(i as int).push(txs@[i as int]));
            }
            i += 1;
        }
        proof {
            assert(txs@.take(n as int) =~= txs@);
        }
    }
}

} // verus!
