use kyopro::string::runlength_encoding;

#[test]
fn test_runlength_encoding() {
    assert_eq!(runlength_encoding(&[1, 1, 2, 2, 2, 1]), vec![(1, 2), (2, 3), (1, 1)]);
    assert_eq!(runlength_encoding(&['a']), vec![('a', 1)]);
    assert_eq!(runlength_encoding(&[7u8, 7, 7]), vec![(7, 3)]);
    assert_eq!(runlength_encoding(&[1, 2, 3]), vec![(1, 1), (2, 1), (3, 1)]);
}
