#[test]
fn sanity_check() {
    assert_eq!(2 + 2, 4);
}
