use mini_regex::text::{chars_of, decimal_string};

#[test]
fn chars_of_keeps_every_element() {
    assert_eq!(Vec::<char>::new(), chars_of(""));
    assert_eq!(vec!['a', 'b', 'c'], chars_of("abc"));
    assert_eq!(vec!['h', 'é', '日', '!'], chars_of("hé日!"));
}

#[test]
fn decimal_of_single_digits() {
    assert_eq!("0", decimal_string(0));
    assert_eq!("7", decimal_string(7));
    assert_eq!("9", decimal_string(9));
}

#[test]
fn decimal_of_longer_numbers() {
    assert_eq!("10", decimal_string(10));
    assert_eq!("42", decimal_string(42));
    assert_eq!("907", decimal_string(907));
    assert_eq!("1000", decimal_string(1000));
    assert_eq!("1234567890", decimal_string(1234567890));
    assert_eq!(format!("{}", usize::MAX), decimal_string(usize::MAX));
}
