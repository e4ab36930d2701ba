use daemon_thread::boards::{BoardSet, Change};
use daemon_thread::command::BoardId;
use daemon_thread::matrix::Matrix;

fn ids(v: &[u64]) -> Vec<BoardId> {
    v.iter().map(|i| BoardId(*i)).collect()
}

fn set_of(v: &[u64]) -> BoardSet<u64> {
    let mut s = BoardSet::new();
    for i in v {
        assert!(s.insert(BoardId(*i), *i * 10));
    }
    s
}

#[test]
fn reconcile_removes_then_adds() {
    let mut s = set_of(&[1, 2, 3]);
    let changes = s.reconcile(&ids(&[2, 3, 4]));
    assert_eq!(changes, vec![Change::Removed(BoardId(1)), Change::Added(BoardId(4))]);
    assert_eq!(s.board_ids(), ids(&[2, 3]));
    assert!(s.insert(BoardId(4), 40));
    assert_eq!(s.board_ids(), ids(&[2, 3, 4]));
    assert_eq!(s.channel(BoardId(4)), Some(&40));
    assert_eq!(s.channel(BoardId(1)), None);
}

#[test]
fn reconcile_with_empty_report_removes_all() {
    let mut s = set_of(&[5, 6]);
    let changes = s.reconcile(&Vec::new());
    assert_eq!(changes, vec![Change::Removed(BoardId(5)), Change::Removed(BoardId(6))]);
    assert!(s.board_ids().is_empty());
}

#[test]
fn reconcile_adds_repeated_report_once() {
    let mut s: BoardSet<u64> = BoardSet::new();
    let changes = s.reconcile(&ids(&[7, 8, 7]));
    assert_eq!(changes, vec![Change::Added(BoardId(7)), Change::Added(BoardId(8))]);
    assert!(s.board_ids().is_empty());
}

#[test]
fn reconcile_unchanged_set_announces_nothing() {
    let mut s = set_of(&[1, 2]);
    assert!(s.reconcile(&ids(&[2, 1])).is_empty());
    assert_eq!(s.board_ids(), ids(&[1, 2]));
}

#[test]
fn insert_of_known_board_is_refused() {
    let mut s = set_of(&[1]);
    assert!(!s.insert(BoardId(1), 99));
    assert_eq!(s.channel(BoardId(1)), Some(&10));
    assert!(s.contains(BoardId(1)));
    assert!(!s.contains(BoardId(2)));
}

#[test]
fn equal_snapshot_is_not_sent_again() {
    let mut s = set_of(&[1]);
    let m = Matrix::new(1, 2, vec![true, false]).unwrap();
    let sent = s.observe(BoardId(1), m).expect("first snapshot differs from the empty one");
    assert!(sent.same_as(&Matrix::new(1, 2, vec![true, false]).unwrap()));
    assert!(s.observe(BoardId(1), Matrix::new(1, 2, vec![true, false]).unwrap()).is_none());
    let changed = s.observe(BoardId(1), Matrix::new(1, 2, vec![false, false]).unwrap()).unwrap();
    assert_eq!(changed.get(0, 0), Some(false));
    assert!(s.observe(BoardId(1), Matrix::new(1, 2, vec![false, false]).unwrap()).is_none());
}

#[test]
fn empty_snapshot_of_new_board_is_not_sent() {
    let mut s = set_of(&[1]);
    assert!(s.observe(BoardId(1), Matrix::empty()).is_none());
    assert!(s.observe(BoardId(9), Matrix::new(1, 1, vec![true]).unwrap()).is_none());
}
