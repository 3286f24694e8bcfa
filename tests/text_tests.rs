use marble_game::text::{append_decimal, hex32};

#[test]
fn decimal_text() {
    let mut s = String::from("n=");
    append_decimal(&mut s, 0);
    assert_eq!(s, "n=0");
    let mut t = String::new();
    append_decimal(&mut t, 18_446_744_073_709_551_615);
    assert_eq!(t, "18446744073709551615");
    let mut u = String::new();
    append_decimal(&mut u, 1070);
    assert_eq!(u, "1070");
}

#[test]
fn hex_text_has_32_digits() {
    assert_eq!(hex32(0), "00000000000000000000000000000000");
    assert_eq!(hex32(0xabc), "00000000000000000000000000000abc");
    assert_eq!(hex32(u128::MAX), "ffffffffffffffffffffffffffffffff");
    assert_eq!(hex32(0x0123_4567_89ab_cdef_fedc_ba98_7654_3210), "0123456789abcdeffedcba9876543210");
}
