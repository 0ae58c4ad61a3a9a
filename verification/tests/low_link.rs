use kyopro::graph::low_link::LowLink;

#[test]
fn test_lowlink_multiple_component() {
    let mut ll = LowLink::new(7);
    ll.add_edge2(0, 1);
    ll.add_edge2(1, 2);

    ll.add_edge2(3, 4);
    ll.add_edge2(4, 5);
    ll.add_edge2(5, 6);
    ll.add_edge2(5, 3);

    ll.run();
    assert_eq!(ll.aps, vec![1, 5]);
    assert_eq!(ll.bridges, vec![(0, 1), (1, 2), (5, 6)]);
}

#[test]
fn test_lowlink_small_graph() {
    let mut ll = LowLink::new(5);
    ll.add_edge2(0, 1);
    ll.add_edge2(1, 2);
    ll.add_edge2(0, 2);
    ll.add_edge2(0, 3);
    ll.add_edge2(3, 4);
    ll.run();
    assert_eq!(ll.aps, vec![0, 3]);
    assert_eq!(ll.bridges, vec![(0, 3), (3, 4)]);
    assert_eq!(ll.ord, vec![1, 2, 3, 4, 5]);
    assert_eq!(ll.low, vec![1, 1, 1, 4, 5]);
    ll.run();
    assert_eq!(ll.aps, vec![0, 3]);
    assert_eq!(ll.bridges, vec![(0, 3), (3, 4)]);
}

#[test]
fn test_lowlink_without_edges() {
    let mut ll = LowLink::new(3);
    ll.run();
    assert_eq!(ll.aps, Vec::<usize>::new());
    assert_eq!(ll.bridges, Vec::<(usize, usize)>::new());
    assert_eq!(ll.ord, vec![1, 2, 3]);
    let mut none = LowLink::new(0);
    none.run();
    assert_eq!(none.ord, Vec::<u32>::new());
    let mut one_way = LowLink::new(2);
    one_way.add_edge(0, 1);
    one_way.run();
    assert_eq!(one_way.bridges, vec![(0, 1)]);
}

#[test]
fn lowlink_on_a_cycle_with_a_tail() {
    let mut ll = LowLink::new(6);
    ll.add_edge2(0, 1);
    ll.add_edge2(1, 2);
    ll.add_edge2(2, 3);
    ll.add_edge2(3, 0);
    ll.add_edge2(2, 4);
    ll.add_edge2(4, 5);
    ll.run();
    assert_eq!(ll.aps, vec![2, 4]);
    assert_eq!(ll.bridges, vec![(2, 4), (4, 5)]);
    assert_eq!(ll.ord, vec![1, 2, 3, 4, 5, 6]);
    assert_eq!(ll.low, vec![1, 1, 1, 1, 5, 6]);
}

#[test]
fn lowlink_lists_are_the_fields() {
    let mut ll = LowLink::new(3);
    ll.add_edge2(0, 1);
    ll.add_edge2(1, 2);
    ll.run();
    assert_eq!(ll.aps(), &vec![1]);
    assert_eq!(ll.bridges(), &vec![(0, 1), (1, 2)]);
    assert_eq!(ll.ord(), &vec![1, 2, 3]);
    assert_eq!(ll.low(), &vec![1, 2, 3]);
    assert_eq!(ll.aps(), &ll.aps);
    assert_eq!(ll.bridges(), &ll.bridges);
}
