use feap::order::less;

#[test]
fn less_is_the_order_of_the_type() {
    assert!(less(&1, &2));
    assert!(!less(&2, &1));
    assert!(!less(&2, &2));
    assert!(less(&-5i64, &0));
    assert!(less(&"a", &"b"));
    assert!(less(&(1, 9), &(2, 0)));
}
