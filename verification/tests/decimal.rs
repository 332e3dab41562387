use bfc::decimal::push_decimal;

fn numeral(n: usize) -> String {
    let mut out = String::new();
    push_decimal(&mut out, n);
    out
}

#[test]
fn each_digit_has_its_character() {
    let digits: Vec<String> = (0..10).map(numeral).collect();
    assert_eq!(digits, vec!["0", "1", "2", "3", "4", "5", "6", "7", "8", "9"]);
}

#[test]
fn numerals_have_no_leading_zero() {
    assert_eq!(numeral(0), "0");
    assert_eq!(numeral(7), "7");
    assert_eq!(numeral(9), "9");
    assert_eq!(numeral(10), "10");
    assert_eq!(numeral(99), "99");
    assert_eq!(numeral(100), "100");
    assert_eq!(numeral(30000), "30000");
    assert_eq!(numeral(1234567890), "1234567890");
}

#[test]
fn the_largest_number_has_its_numeral() {
    assert_eq!(numeral(usize::MAX), usize::MAX.to_string());
}

#[test]
fn a_numeral_is_appended_to_what_is_there() {
    let mut out = String::from("loop_start_");
    push_decimal(&mut out, 42);
    out.push(':');
    assert_eq!(out, "loop_start_42:");
}

#[test]
fn numerals_agree_with_std() {
    for n in (0..100_000).chain([usize::MAX - 1, usize::MAX / 10, usize::MAX / 10 + 1]) {
        assert_eq!(numeral(n), n.to_string());
    }
}
