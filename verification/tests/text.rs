use sidera_task::text::usize_text;

#[test]
fn decimal_text_of_numbers() {
    assert_eq!(usize_text(0), "0");
    assert_eq!(usize_text(7), "7");
    assert_eq!(usize_text(10), "10");
    assert_eq!(usize_text(1234), "1234");
    assert_eq!(usize_text(usize::MAX), usize::MAX.to_string());
}
