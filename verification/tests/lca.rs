use kyopro::lca::LCA;

fn both_ways(tree: &mut LCA, u: usize, v: usize) {
    tree.add_edge(u, v);
    tree.add_edge(v, u);
}

#[test]
fn test_tour1() {
    let mut lca = LCA::new(3);
    lca.add_edge(0, 1);
    lca.add_edge(1, 0);
    lca.add_edge(0, 2);
    lca.add_edge(2, 0);
    lca.init();
    assert_eq!(lca.lca(0, 0), 0);
    assert_eq!(lca.lca(1, 0), 0);
    assert_eq!(lca.lca(1, 1), 1);
    assert_eq!(lca.lca(1, 2), 0);
}

#[test]
fn test_tour2() {
    let mut lca = LCA::new(6);
    lca.add_edge(0, 1);
    lca.add_edge(1, 0);
    lca.add_edge(0, 2);
    lca.add_edge(2, 0);
    lca.add_edge(1, 3);
    lca.add_edge(3, 1);
    lca.add_edge(1, 3);
    lca.add_edge(1, 4);
    lca.add_edge(4, 1);
    lca.add_edge(2, 5);
    lca.add_edge(5, 2);
    lca.init();
    assert_eq!(lca.lca(1, 2), 0);
    assert_eq!(lca.lca(1, 0), 0);
    assert_eq!(lca.lca(1, 3), 1);
    assert_eq!(lca.lca(3, 4), 1);
    assert_eq!(lca.lca(3, 5), 0);
    assert_eq!(lca.lca(2, 5), 2);
}

#[test]
fn lca_single_vertex() {
    let mut tree = LCA::new(1);
    tree.init();
    assert_eq!(tree.lca(0, 0), 0);
    assert_eq!(tree.dist(0, 0), 0);
}

#[test]
fn lca_on_a_path() {
    let mut tree = LCA::new(5);
    for i in 0..4 {
        both_ways(&mut tree, i, i + 1);
    }
    tree.init();
    for u in 0..5 {
        for v in 0..5 {
            assert_eq!(tree.lca(u, v), u.min(v));
            assert_eq!(tree.dist(u, v), u.max(v) - u.min(v));
        }
    }
}

#[test]
fn lca_is_symmetric() {
    let mut tree = LCA::new(7);
    both_ways(&mut tree, 0, 1);
    both_ways(&mut tree, 0, 2);
    both_ways(&mut tree, 1, 3);
    both_ways(&mut tree, 1, 4);
    both_ways(&mut tree, 2, 5);
    both_ways(&mut tree, 5, 6);
    tree.init();
    for u in 0..7 {
        for v in 0..7 {
            assert_eq!(tree.lca(u, v), tree.lca(v, u));
            assert_eq!(tree.dist(u, v), tree.dist(v, u));
        }
    }
}

#[test]
fn dist_counts_edges() {
    let mut tree = LCA::new(7);
    both_ways(&mut tree, 0, 1);
    both_ways(&mut tree, 0, 2);
    both_ways(&mut tree, 1, 3);
    both_ways(&mut tree, 1, 4);
    both_ways(&mut tree, 2, 5);
    both_ways(&mut tree, 5, 6);
    tree.init();
    assert_eq!(tree.dist(3, 4), 2);
    assert_eq!(tree.dist(3, 6), 5);
    assert_eq!(tree.dist(0, 6), 3);
    assert_eq!(tree.dist(4, 1), 1);
    assert_eq!(tree.lca(4, 6), 0);
    assert_eq!(tree.lca(6, 2), 2);
}

fn naive_lca(parent: &[usize], depth: &[usize], mut u: usize, mut v: usize) -> usize {
    while depth[u] > depth[v] {
        u = parent[u];
    }
    while depth[v] > depth[u] {
        v = parent[v];
    }
    while u != v {
        u = parent[u];
        v = parent[v];
    }
    u
}

#[test]
fn lca_agrees_with_walking_up() {
    let parent: Vec<usize> = vec![0, 0, 0, 1, 1, 2, 5, 5, 3, 8, 9, 6, 6, 12, 4];
    let n = parent.len();
    let mut depth = vec![0usize; n];
    for v in 1..n {
        let mut d = 0;
        let mut x = v;
        while x != 0 {
            x = parent[x];
            d += 1;
        }
        depth[v] = d;
    }
    let mut tree = LCA::new(n);
    for v in 1..n {
        both_ways(&mut tree, parent[v], v);
    }
    tree.init();
    for u in 0..n {
        for v in 0..n {
            let r = naive_lca(&parent, &depth, u, v);
            assert_eq!(tree.lca(u, v), r);
            assert_eq!(tree.dist(u, v), depth[u] + depth[v] - 2 * depth[r]);
        }
    }
}
