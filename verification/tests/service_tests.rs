use access_control::codec::encode_entry;
use access_control::matrix::MatrixEntry;
use access_control::schema::{access_control_key_bytes, Fork, MatrixSchema};
use access_control::service::{ACService, Transaction, TX_DENY, TX_GRANT};
use access_control::transactions::{TxDeny, TxGrant};
use access_control::Error;

fn stored_pairs(fork: &Fork) -> Vec<(u32, u32)> {
    MatrixSchema::access_control(fork)
        .expect("matrix should be stored")
        .values
        .iter()
        .map(|e| (e.subject, e.permission))
        .collect()
}

fn payload(subject: u32, permission: u32) -> Vec<u8> {
    encode_entry(&MatrixEntry::new(subject, permission))
}

#[test]
fn fork_get_put() {
    let mut fork = Fork::new();
    assert_eq!(fork.get(&vec![1, 2, 3]), None);
    fork.put(vec![1, 2, 3], vec![4, 5]);
    assert_eq!(fork.get(&vec![1, 2, 3]), Some(vec![4, 5]));
    fork.put(vec![1, 2, 3], vec![6]);
    assert_eq!(fork.get(&vec![1, 2, 3]), Some(vec![6]));
    assert_eq!(fork.get(&vec![1, 2]), None);
}

#[test]
fn schema_load_absent_slot() {
    let fork = Fork::new();
    assert!(MatrixSchema::access_control(&fork).is_none());
}

#[test]
fn schema_store_then_load() {
    let mut fork = Fork::new();
    let mut m = access_control::matrix::Matrix::new(Vec::new());
    m.grant(7, 3);
    MatrixSchema::store_access_control(&mut fork, &m);
    assert_eq!(stored_pairs(&fork), vec![(7, 3)]);
}

#[test]
fn tx_from_raw_resolves_opcodes() {
    let p = payload(7, 3);
    match ACService::tx_from_raw(TX_GRANT, &p) {
        Ok(Transaction::Grant(t)) => assert_eq!(t.entry, MatrixEntry::new(7, 3)),
        other => panic!("expected a grant transaction, got {:?}", other),
    }
    match ACService::tx_from_raw(TX_DENY, &p) {
        Ok(Transaction::Deny(t)) => assert_eq!(t.entry, MatrixEntry::new(7, 3)),
        other => panic!("expected a deny transaction, got {:?}", other),
    }
}

#[test]
fn tx_from_raw_rejects_unknown_opcode() {
    let p = payload(7, 3);
    assert_eq!(ACService::tx_from_raw(3, &p), Err(Error::UnknownTransactionType));
    assert_eq!(ACService::tx_from_raw(0, &p), Err(Error::UnknownTransactionType));
}

#[test]
fn tx_from_raw_rejects_short_payload() {
    assert_eq!(
        ACService::tx_from_raw(TX_GRANT, &vec![7, 0, 0]),
        Err(Error::MalformedEncoding)
    );
    assert_eq!(
        ACService::tx_from_raw(TX_DENY, &vec![0; 16]),
        Err(Error::MalformedEncoding)
    );
}

#[test]
fn transactions_verify_structurally() {
    assert!(TxGrant::new(MatrixEntry::new(7, 3)).verify());
    assert!(TxDeny::new(MatrixEntry::new(7, 3)).verify());
    assert!(Transaction::Grant(TxGrant::new(MatrixEntry::new(7, 3))).verify());
}

#[test]
fn malformed_payload_leaves_fork_untouched() {
    let mut fork = Fork::new();
    let key = access_control_key_bytes();
    let r = ACService::apply_raw(TX_GRANT, &vec![7, 0, 0], &mut fork);
    assert_eq!(r, Err(Error::MalformedEncoding));
    assert_eq!(fork.get(&key), None);
}

#[test]
fn unknown_opcode_leaves_fork_untouched() {
    let mut fork = Fork::new();
    ACService::apply_raw(TX_GRANT, &payload(7, 3), &mut fork).unwrap();
    let before = fork.get(&access_control_key_bytes());
    let r = ACService::apply_raw(9, &payload(1, 1), &mut fork);
    assert_eq!(r, Err(Error::UnknownTransactionType));
    assert_eq!(fork.get(&access_control_key_bytes()), before);
}

#[test]
fn grant_deny_scenario() {
    let mut fork = Fork::new();

    ACService::apply_raw(TX_GRANT, &payload(7, 3), &mut fork).unwrap();
    assert_eq!(stored_pairs(&fork), vec![(7, 3)]);

    ACService::apply_raw(TX_GRANT, &payload(7, 3), &mut fork).unwrap();
    assert_eq!(stored_pairs(&fork), vec![(7, 3)]);

    ACService::apply_raw(TX_GRANT, &payload(9, 1), &mut fork).unwrap();
    assert_eq!(stored_pairs(&fork), vec![(7, 3), (9, 1)]);

    ACService::apply_raw(TX_DENY, &payload(7, 3), &mut fork).unwrap();
    assert_eq!(stored_pairs(&fork), vec![(9, 1)]);
}

#[test]
fn replay_is_deterministic() {
    let txs = vec![
        Transaction::Grant(TxGrant::new(MatrixEntry::new(7, 3))),
        Transaction::Grant(TxGrant::new(MatrixEntry::new(9, 1))),
        Transaction::Grant(TxGrant::new(MatrixEntry::new(7, 3))),
        Transaction::Deny(TxDeny::new(MatrixEntry::new(7, 3))),
        Transaction::Deny(TxDeny::new(MatrixEntry::new(4, 4))),
    ];
    let mut fork_a = Fork::new();
    let mut fork_b = Fork::new();
    ACService::apply_transactions(&txs, &mut fork_a);
    ACService::apply_transactions(&txs, &mut fork_b);
    let key = access_control_key_bytes();
    let bytes_a = fork_a.get(&key).expect("first replay should store a matrix");
    let bytes_b = fork_b.get(&key).expect("second replay should store a matrix");
    assert_eq!(bytes_a, bytes_b);
    assert_eq!(stored_pairs(&fork_a), vec![(9, 1)]);
}

#[test]
fn deny_initializes_empty_slot() {
    let mut fork = Fork::new();
    ACService::apply_raw(TX_DENY, &payload(7, 3), &mut fork).unwrap();
    assert_eq!(stored_pairs(&fork), Vec::new());
}

#[test]
fn service_identity() {
    assert_eq!(ACService::service_id(), 1);
    assert_eq!(ACService::service_name(), "cryptocurrency");
}
