use tape_compiler::text::{decimal_text, hex_text, signed_decimal_text};

#[test]
fn decimal_text_has_no_leading_zeros() {
    assert_eq!(decimal_text(0), "0");
    assert_eq!(decimal_text(7), "7");
    assert_eq!(decimal_text(10), "10");
    assert_eq!(decimal_text(30000), "30000");
    assert_eq!(decimal_text(1002003), "1002003");
    assert_eq!(decimal_text(u64::MAX), "18446744073709551615");
}

#[test]
fn signed_decimal_text_has_a_sign_below_zero() {
    assert_eq!(signed_decimal_text(0), "0");
    assert_eq!(signed_decimal_text(42), "42");
    assert_eq!(signed_decimal_text(-1), "-1");
    assert_eq!(signed_decimal_text(-2147483648), "-2147483648");
    assert_eq!(signed_decimal_text(i64::MIN), "-9223372036854775808");
    assert_eq!(signed_decimal_text(i64::MAX), "9223372036854775807");
}

#[test]
fn hex_text_is_lower_case_without_prefix() {
    assert_eq!(hex_text(0), "0");
    assert_eq!(hex_text(9), "9");
    assert_eq!(hex_text(10), "a");
    assert_eq!(hex_text(15), "f");
    assert_eq!(hex_text(16), "10");
    assert_eq!(hex_text(0x80), "80");
    assert_eq!(hex_text(0xab), "ab");
    assert_eq!(hex_text(255), "ff");
}
