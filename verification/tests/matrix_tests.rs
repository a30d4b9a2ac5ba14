use access_control::matrix::{Matrix, MatrixEntry};

fn pairs(m: &Matrix) -> Vec<(u32, u32)> {
    m.values.iter().map(|e| (e.subject, e.permission)).collect()
}

#[test]
fn grant_appends_new_pair() {
    let mut m = Matrix::new(Vec::new());
    m.grant(7, 3);
    assert_eq!(pairs(&m), vec![(7, 3)]);
    m.grant(9, 1);
    assert_eq!(pairs(&m), vec![(7, 3), (9, 1)]);
}

#[test]
fn grant_is_idempotent() {
    let mut once = Matrix::new(Vec::new());
    once.grant(7, 3);
    let mut twice = Matrix::new(Vec::new());
    twice.grant(7, 3);
    twice.grant(7, 3);
    assert_eq!(pairs(&once), pairs(&twice));
}

#[test]
fn grant_distinguishes_permission() {
    let mut m = Matrix::new(Vec::new());
    m.grant(7, 3);
    m.grant(7, 4);
    assert_eq!(pairs(&m), vec![(7, 3), (7, 4)]);
}

#[test]
fn deny_swaps_last_into_removed_slot() {
    let mut m = Matrix::new(vec![
        MatrixEntry::new(1, 1),
        MatrixEntry::new(2, 2),
        MatrixEntry::new(3, 3),
    ]);
    m.deny(1, 1);
    assert_eq!(pairs(&m), vec![(3, 3), (2, 2)]);
}

#[test]
fn deny_of_last_entry_truncates() {
    let mut m = Matrix::new(vec![MatrixEntry::new(1, 1), MatrixEntry::new(2, 2)]);
    m.deny(2, 2);
    assert_eq!(pairs(&m), vec![(1, 1)]);
}

#[test]
fn deny_absent_pair_is_a_noop() {
    let mut m = Matrix::new(vec![MatrixEntry::new(1, 1)]);
    m.deny(5, 5);
    assert_eq!(pairs(&m), vec![(1, 1)]);
    m.deny(1, 2);
    assert_eq!(pairs(&m), vec![(1, 1)]);
}

#[test]
fn deny_undoes_a_fresh_grant() {
    let mut m = Matrix::new(vec![MatrixEntry::new(4, 4), MatrixEntry::new(5, 5)]);
    let before = pairs(&m);
    m.grant(7, 3);
    m.deny(7, 3);
    assert_eq!(pairs(&m), before);
}

#[test]
fn deny_removes_first_match_only() {
    let mut m = Matrix::new(vec![
        MatrixEntry::new(1, 1),
        MatrixEntry::new(2, 2),
        MatrixEntry::new(1, 1),
    ]);
    m.deny(1, 1);
    assert_eq!(pairs(&m), vec![(1, 1), (2, 2)]);
}
