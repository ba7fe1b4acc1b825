use tinybase::visitors::get_count;

#[test]
fn count_message_in_decimal() {
    assert_eq!(get_count(0), "Visitors: 0");
    assert_eq!(get_count(7), "Visitors: 7");
    assert_eq!(get_count(10), "Visitors: 10");
    assert_eq!(get_count(1234567), "Visitors: 1234567");
    assert_eq!(get_count(usize::MAX), format!("Visitors: {}", usize::MAX));
}
