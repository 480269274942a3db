use gnrt::add_two_ints_via_rust;

#[test]
fn test_hello() {
    assert_eq!(7, add_two_ints_via_rust(3, 4));
}

#[test]
fn lib_test_hello() {
    assert_eq!(7, add_two_ints_via_rust(3, 4));
}
