use fathers::digest::{hex, sha256_hex};
use fathers::hook::layer_text;
use fathers::text::{cut, decimal, to_ascii_lower, trim, within_bound, TrimSet};

#[test]
fn text_sha256_hex_of_abc() {
    assert_eq!(sha256_hex("abc"), "ba7816bf8f01cfea414140de5dae2223b00361a396177a9cb410ff61f20015ad");
}

#[test]
fn text_hex_digits() {
    assert_eq!(hex(&[0x00, 0x0f, 0xa0, 0xff]), "000fa0ff");
}

#[test]
fn text_layer_json() {
    assert_eq!(layer_text(&None), "null");
    assert_eq!(layer_text(&Some("a\"b".to_string())), "\"a\\\"b\"");
}

#[test]
fn text_cut_counts_bytes_then_chars() {
    assert_eq!(cut("abc", 3), "abc");
    assert_eq!(cut("abcd", 3), "abc");
    assert_eq!(cut("ééé", 3), "ééé");
    assert_eq!(cut("éé", 3), "éé");
}

#[test]
fn text_decimal_and_lower() {
    assert_eq!(decimal(0), "0");
    assert_eq!(decimal(18446744073709551615), "18446744073709551615");
    assert_eq!(to_ascii_lower("SuCCess É"), "success É".chars().collect::<Vec<char>>());
}

#[test]
fn text_trim_and_bound() {
    assert_eq!(trim(&" \tx y\n".chars().collect(), TrimSet::White), "x y".chars().collect::<Vec<char>>());
    assert!(within_bound("x", 1));
    assert!(!within_bound("  ", 10));
    assert!(!within_bound("é", 1));
}
