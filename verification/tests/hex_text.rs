use opensdts::hex::hex_string_to_bytes;
use opensdts::lightelf::{hex_u16, hex_u8};

#[test]
fn hex_pairs_decode_to_bytes() {
    assert_eq!(hex_string_to_bytes(""), Vec::<u8>::new());
    assert_eq!(hex_string_to_bytes("00FF7f"), vec![0x00, 0xFF, 0x7F]);
    assert_eq!(hex_string_to_bytes("C0C1C2C3"), vec![0xC0, 0xC1, 0xC2, 0xC3]);
}

#[test]
fn fixed_width_uppercase_hex() {
    assert_eq!(hex_u8(0), "00");
    assert_eq!(hex_u8(0x0a), "0A");
    assert_eq!(hex_u8(255), "FF");
    assert_eq!(hex_u16(300), "012C");
    assert_eq!(hex_u16(0), "0000");
    assert_eq!(hex_u16(0xBEEF), "BEEF");
}
