use kyopro::graph::rollback_unionfind::RollbackUnionFind;

#[test]
fn test_undo() {
    let mut uf = RollbackUnionFind::new(3);
    assert!(!uf.same(0, 1));
    assert!(!uf.same(0, 2));
    uf.merge(0, 1);
    uf.merge(1, 2);
    assert!(uf.same(0, 1));
    assert!(uf.same(0, 2));
    uf.undo();
    assert!(uf.same(0, 1));
    assert!(!uf.same(0, 2));
    uf.undo();
    assert!(!uf.same(0, 1));
    assert!(!uf.same(0, 2));
}

#[test]
fn test_rollback_using_snapshot() {
    let mut uf = RollbackUnionFind::new(5);
    uf.merge(0, 1);
    uf.merge(1, 2);
    uf.snapshot();
    uf.merge(0, 3);
    uf.merge(3, 4);
    assert!(uf.same(0, 1));
    assert!(uf.same(0, 2));
    assert!(uf.same(0, 3));
    assert!(uf.same(0, 4));
    uf.rollback(None);
    assert!(uf.same(0, 1));
    assert!(uf.same(0, 2));
    assert!(!uf.same(0, 3));
    assert!(!uf.same(0, 4));
}

#[test]
fn test_rollback_using_state() {
    let mut uf = RollbackUnionFind::new(5);
    uf.merge(0, 1);
    uf.merge(1, 2);
    let state = uf.get_state();
    uf.merge(0, 3);
    uf.merge(3, 4);
    assert!(uf.same(0, 3));
    assert!(uf.same(0, 4));
    uf.rollback(Some(state));
    assert!(uf.same(0, 1));
    assert!(uf.same(0, 2));
    assert!(!uf.same(0, 3));
    assert!(!uf.same(0, 4));
}

#[test]
fn test_sizes_and_leaders() {
    let mut uf = RollbackUnionFind::new(6);
    assert_eq!(uf.size(4), 1);
    assert!(uf.unite(0, 1));
    assert!(uf.unite(2, 3));
    assert!(uf.unite(3, 4));
    assert!(!uf.unite(4, 2));
    assert_eq!(uf.get_state(), 4);
    assert_eq!(uf.size(0), 2);
    assert_eq!(uf.size(4), 3);
    assert_eq!(uf.find(1), 0);
    assert_eq!(uf.leader(4), 2);
    assert!(uf.unite(1, 4));
    assert_eq!(uf.find(0), 2);
    assert_eq!(uf.size(0), 5);
    assert_eq!(uf.size(5), 1);
    uf.undo();
    assert_eq!(uf.find(0), 0);
    assert_eq!(uf.size(3), 3);
    uf.rollback(Some(0));
    for k in 0..6 {
        assert_eq!(uf.find(k), k);
        assert_eq!(uf.size(k), 1);
    }
}
