use kyopro::base_state::BaseStateBuilder;

#[test]
fn test_modify() {
    let bui = BaseStateBuilder::new(5, 5);
    let s = bui.modify(0, 0, 2);
    assert_eq!(s, 2);
    assert_eq!(0, bui.modify(2, 0, 0));
    let s = bui.modify(0, 1, 2);
    assert_eq!(s, 5 * 2);
    assert_eq!(0, bui.modify(5 * 2, 1, 0));
    assert_eq!(2, bui.modify(2 + 5 * 2, 1, 0));
    assert_eq!(2 + 5 * 1 + 25 * 1, bui.modify(2 + 5 * 2 + 25 * 1, 1, 1));
}

#[test]
fn test_encode_decode() {
    let builder = BaseStateBuilder::new(5, 3);
    let state = builder.modify(0, 0, 2);
    assert_eq!(builder.decode(state), vec![2, 0, 0, 0, 0]);
    assert_eq!(state, 2);
    let state = builder.modify(state, 3, 1);
    assert_eq!(builder.decode(state), vec![2, 0, 0, 1, 0]);
    assert_eq!(state, 2 + (3 * 3 * 3) * 1);
    assert_eq!(builder.encode(&[2, 0, 0, 1, 0]), 29);
    assert_eq!(builder.encode(&[]), 0);
    assert_eq!(builder.encode(&[1, 2]), 7);
    assert_eq!(builder.get_val(29, 0), 2);
    assert_eq!(builder.get_val(29, 3), 1);
    assert_eq!(builder.get_val(29, 4), 0);
}

#[test]
fn test_max_state_value() {
    assert_eq!(BaseStateBuilder::new(5, 3).get_max_state_value(), 242);
    assert_eq!(BaseStateBuilder::new(1, 2).get_max_state_value(), 1);
    assert_eq!(BaseStateBuilder::new(3, 10).get_max_state_value(), 999);
}

#[test]
fn modify_changes_one_element() {
    let bui = BaseStateBuilder::new(4, 3);
    let state = bui.encode(&[2, 0, 1, 2]);
    assert_eq!(state, 2 + 9 + 54);
    for i in 0..4 {
        for v in 0..3 {
            let changed = bui.modify(state, i, v);
            for j in 0..4 {
                let expected = if j == i { v } else { bui.get_val(state, j) };
                assert_eq!(bui.get_val(changed, j), expected);
            }
            let mut vals = bui.decode(state);
            vals[i] = v;
            assert_eq!(bui.decode(changed), vals);
        }
    }
    assert_eq!(bui.get_max_state_value(), 80);
}
