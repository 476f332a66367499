use bubbledit::bits::{slicebool_to_arru8, slicebool_to_vecu8, sliceu8_to_vecbool};
use bubbledit::hex::{
    from_string, hex_text_splits_char, parse_hex_u16, push_decimal, string_to_vecu8,
    to_hex_string, u16_to_hex4,
};

#[test]
fn bytes_to_bits_msb_first() {
    let bits = sliceu8_to_vecbool(&[0x80, 0x05]);
    let expected = vec![
        true, false, false, false, false, false, false, false, false, false, false, false, false,
        true, false, true,
    ];
    assert_eq!(bits, expected);
}

#[test]
fn bits_to_bytes_pads_last_byte() {
    assert_eq!(slicebool_to_vecu8(&[true, true, false]), vec![0xc0]);
    assert_eq!(slicebool_to_vecu8(&[]), Vec::<u8>::new());
    let nine = [true, false, false, false, false, false, false, true, true];
    assert_eq!(slicebool_to_vecu8(&nine), vec![0x81, 0x80]);
}

#[test]
fn bits_bytes_roundtrip_example() {
    let b = vec![0x12, 0xab, 0xff, 0x00, 0x7e];
    assert_eq!(slicebool_to_vecu8(&sliceu8_to_vecbool(&b)), b);
}

#[test]
fn bits_to_byte_array() {
    let bits = sliceu8_to_vecbool(&[0xde, 0xad]);
    let a: [u8; 2] = slicebool_to_arru8(&bits);
    assert_eq!(a, [0xde, 0xad]);
}

#[test]
fn hex_text_of_bytes() {
    assert_eq!(to_hex_string(&[0x00, 0xab, 0xff, 0x09]), "00abff09");
    assert_eq!(to_hex_string(&[]), "");
}

#[test]
fn hex4_text_pads_with_zeros() {
    assert_eq!(u16_to_hex4(0x1a), "001a");
    assert_eq!(u16_to_hex4(0xbeef), "beef");
    assert_eq!(u16_to_hex4(0), "0000");
}

#[test]
fn hex_pairs_parse() {
    assert_eq!(string_to_vecu8("00abFF"), Some(vec![0x00, 0xab, 0xff]));
    assert_eq!(string_to_vecu8(""), Some(vec![]));
    assert_eq!(string_to_vecu8("+f01"), Some(vec![0x0f, 0x01]));
    assert_eq!(string_to_vecu8("0g"), None);
    assert_eq!(string_to_vecu8("abc"), None);
    assert_eq!(string_to_vecu8("-1"), None);
}

#[test]
fn hex_pairs_roundtrip() {
    let b = vec![0x01, 0x23, 0x45, 0x67, 0x89, 0xab, 0xcd, 0xef];
    assert_eq!(string_to_vecu8(&to_hex_string(&b)), Some(b));
}

#[test]
fn hex_text_that_splits_a_character() {
    assert!(hex_text_splits_char("aé0"));
    assert!(!hex_text_splits_char("zzé"));
    assert!(!hex_text_splits_char("é"));
    assert!(!hex_text_splits_char("00é"));
    assert!(!hex_text_splits_char("0011"));
    assert!(!hex_text_splits_char("zzz"));
}

#[test]
fn hex_digits_to_bits() {
    let r: Option<[bool; 8]> = from_string("a5");
    assert_eq!(r, Some([true, false, true, false, false, true, false, true]));
    let short: Option<[bool; 8]> = from_string("a");
    assert_eq!(short, None);
    let bad: Option<[bool; 8]> = from_string("ax");
    assert_eq!(bad, None);
    let upper: Option<[bool; 4]> = from_string("F");
    assert_eq!(upper, Some([true, true, true, true]));
}

#[test]
fn hex_u16_parse() {
    assert_eq!(parse_hex_u16("1a"), Some(0x1a));
    assert_eq!(parse_hex_u16("+1A"), Some(0x1a));
    assert_eq!(parse_hex_u16("ffff"), Some(0xffff));
    assert_eq!(parse_hex_u16("0000ffff"), Some(0xffff));
    assert_eq!(parse_hex_u16("10000"), None);
    assert_eq!(parse_hex_u16(""), None);
    assert_eq!(parse_hex_u16("+"), None);
    assert_eq!(parse_hex_u16("-1"), None);
    assert_eq!(parse_hex_u16("12 "), None);
}

#[test]
fn hex_u16_roundtrip() {
    for v in [0u16, 1, 0x3fff, 0x1234, 0xffff] {
        assert_eq!(parse_hex_u16(&u16_to_hex4(v)), Some(v));
    }
}

#[test]
fn decimal_text() {
    let mut s = String::from("n=");
    push_decimal(&mut s, 0);
    s.push(',');
    push_decimal(&mut s, 4096);
    assert_eq!(s, "n=0,4096");
}

#[test]
fn hex_text_by_characters() {
    let lower: Option<[bool; 8]> = from_string("a5");
    let upper: Option<[bool; 8]> = from_string("A5");
    assert_eq!(lower, upper);
    let accented: Option<[bool; 8]> = from_string("\u{e9}");
    assert_eq!(accented, None);
    let two: Option<[bool; 8]> = from_string("0F");
    assert_eq!(two, Some([false, false, false, false, true, true, true, true]));
}
