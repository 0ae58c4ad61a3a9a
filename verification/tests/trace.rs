use kyopro::trace::Trace;

#[test]
fn test_trace() {
    let mut trace = Trace::new();
    let k1 = trace.add(1, !0);
    let k2 = trace.add(2, k1);
    let k3 = trace.add(3, k2);
    assert_eq!(trace.get(k3), vec![1, 2, 3]);

    let k11 = trace.add(11, k2);

    let k12 = trace.add(12, !0);

    assert_eq!(trace.get(k3), vec![1, 2, 3]);
    assert_eq!(trace.get(k11), vec![1, 2, 11]);
    assert_eq!(trace.get(k12), vec![12]);
}

#[test]
fn test_trace_indices_and_tails() {
    let mut trace = Trace::new();
    let a = trace.add("a".to_string(), !0);
    let b = trace.add("b".to_string(), a);
    let c = trace.add("c".to_string(), b);
    let d = trace.add("d".to_string(), b);
    assert_eq!((a, b, c, d), (0, 1, 2, 3));
    assert_eq!(trace.get_tid_list(c), vec![0, 1, 2]);
    assert_eq!(trace.get_tid_list(d), vec![0, 1, 3]);
    assert_eq!(trace.get_tid_list(!0), Vec::<usize>::new());
    assert_eq!(trace.get(!0), Vec::<String>::new());
    assert_eq!(trace.get_last_k(d, 2), vec!["b".to_string(), "d".to_string()]);
    assert_eq!(trace.get_last_k(d, 1), vec!["d".to_string()]);
    assert_eq!(trace.get_last_k(d, 3), vec!["a".to_string(), "b".to_string(), "d".to_string()]);
    assert_eq!(trace.get_last_k(d, 9), vec!["a".to_string(), "b".to_string(), "d".to_string()]);
    assert_eq!(trace.get_last_k(d, 0), vec!["a".to_string(), "b".to_string(), "d".to_string()]);
}

#[test]
fn trace_branches_share_their_start() {
    let mut trace = Trace::new();
    let root = trace.add('a', !0);
    let left = trace.add('b', root);
    let right = trace.add('c', root);
    let deep = trace.add('d', right);
    assert_eq!(trace.get(left), vec!['a', 'b']);
    assert_eq!(trace.get(deep), vec!['a', 'c', 'd']);
    assert_eq!(trace.get_tid_list(deep), vec![root, right, deep]);
    assert_eq!(trace.get_last_k(deep, 2), vec!['c', 'd']);
    assert_eq!(trace.get_last_k(deep, 10), vec!['a', 'c', 'd']);
    assert_eq!(trace.get(!0), Vec::<char>::new());
    assert_eq!(trace.add('e', 100), 4);
}
