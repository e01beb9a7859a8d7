use amazon_cloudfront_client_routing_lib::text::push_decimal;

#[test]
fn decimal_goes_behind_what_is_there() {
    let mut text = String::from("n = ");
    push_decimal(&mut text, 0);
    assert_eq!("n = 0", text);
    push_decimal(&mut text, 9);
    push_decimal(&mut text, 10);
    push_decimal(&mut text, 2907);
    assert_eq!("n = 09102907", text);
}

#[test]
fn decimal_of_the_largest_number() {
    let mut text = String::new();
    push_decimal(&mut text, usize::MAX);
    assert_eq!(format!("{}", usize::MAX), text);
}
