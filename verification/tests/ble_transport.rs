use opensdts::ble::{
    find_write_char, hex_upper, is_device_name, parse_raw_hex, parse_upper_hex, payload_chunks,
    query_frame,
    query_frame_with, GattChar, CHUNK_LEN, DEVICE_NAME_PREFIX, SERVICE_FALLBACK, SERVICE_PRIMARY,
    WRITE_FALLBACK, WRITE_PRIMARY,
};

#[test]
fn device_names_start_with_the_prefix() {
    assert_eq!(DEVICE_NAME_PREFIX, "TD5322A_");
    assert!(is_device_name("TD5322A_V3.1.2BLE"));
    assert!(is_device_name("TD5322A_"));
    assert!(!is_device_name("TD5322A"));
    assert!(!is_device_name("td5322a_x"));
    assert!(!is_device_name("XTD5322A_"));
}

#[test]
fn query_frame_wraps_the_challenge_in_sentinels() {
    assert_eq!(
        query_frame_with([1, 2, 3, 4]),
        [0xE0, 0xE1, 0xE2, 0xE3, 1, 2, 3, 4, 0xE4, 0xE5, 0xE6, 0xE7]
    );
    let f = query_frame();
    assert_eq!(&f[0..4], &[0xE0, 0xE1, 0xE2, 0xE3]);
    assert_eq!(&f[8..12], &[0xE4, 0xE5, 0xE6, 0xE7]);
}

#[test]
fn payloads_are_cut_into_twenty_byte_writes() {
    assert_eq!(CHUNK_LEN, 20);
    let err = payload_chunks(&[]).unwrap_err();
    assert_eq!(err.to_string(), "refusing to send an empty payload");
    let payload: Vec<u8> = (0u8..45).collect();
    let chunks = payload_chunks(&payload).unwrap();
    assert_eq!(chunks.len(), 3);
    assert_eq!(chunks[0], (0u8..20).collect::<Vec<u8>>());
    assert_eq!(chunks[1], (20u8..40).collect::<Vec<u8>>());
    assert_eq!(chunks[2], (40u8..45).collect::<Vec<u8>>());
    assert_eq!(payload_chunks(&[9; 20]).unwrap(), vec![vec![9u8; 20]]);
    let concatenated: Vec<u8> = chunks.concat();
    assert_eq!(concatenated, payload);
}

#[test]
fn write_characteristic_prefers_primary_then_fallback() {
    let other = GattChar { service_uuid: 1, uuid: 2 };
    let fallback = GattChar { service_uuid: SERVICE_FALLBACK, uuid: WRITE_FALLBACK };
    let primary = GattChar { service_uuid: SERVICE_PRIMARY, uuid: WRITE_PRIMARY };
    let got = find_write_char(&vec![other, fallback, primary], "dev").unwrap();
    assert_eq!((got.service_uuid, got.uuid), (SERVICE_PRIMARY, WRITE_PRIMARY));
    let got = find_write_char(&vec![other, fallback], "dev").unwrap();
    assert_eq!((got.service_uuid, got.uuid), (SERVICE_FALLBACK, WRITE_FALLBACK));
    let err = find_write_char(&vec![other], "TD5322A_X").unwrap_err();
    assert_eq!(
        err.to_string(),
        "device TD5322A_X exposes neither the primary (0000ffe0-0000-1000-8000-00805f9b34fb/0000ffe2-0000-1000-8000-00805f9b34fb) nor fallback (0000ff00-0000-1000-8000-00805f9b34fb/0000ff02-0000-1000-8000-00805f9b34fb) write characteristic"
    );
    assert_eq!(SERVICE_PRIMARY, 0x0000ffe0_0000_1000_8000_00805f9b34fb);
}

#[test]
fn bytes_print_as_uppercase_pairs() {
    assert_eq!(hex_upper(&[]), "");
    assert_eq!(hex_upper(&[0x00, 0xAB, 0x0f]), "00AB0F");
}

#[test]
fn raw_hex_commands_are_trimmed_uppercased_and_decoded() {
    let cmd = parse_raw_hex("  c0c1ff00 \n").unwrap();
    assert_eq!(cmd.hex, "C0C1FF00");
    assert_eq!(cmd.bytes, vec![0xC0, 0xC1, 0xFF, 0x00]);
    let empty = parse_raw_hex("   ").unwrap();
    assert_eq!(empty.hex, "");
    assert!(empty.bytes.is_empty());
    let m = "hex string must have an even number of hex digits";
    assert_eq!(parse_raw_hex("abc").unwrap_err().to_string(), m);
    assert_eq!(parse_raw_hex("zz").unwrap_err().to_string(), m);
    assert_eq!(parse_raw_hex("0 1").unwrap_err().to_string(), m);
}

#[test]
fn raw_hex_is_uppercased_by_unicode_rules_before_the_digit_check() {
    // U+FB00 (the "ff" ligature) uppercases to "FF".
    let cmd = parse_raw_hex(" \u{FB00}\u{FB00} ").unwrap();
    assert_eq!(cmd.hex, "FFFF");
    assert_eq!(cmd.bytes, vec![0xFF, 0xFF]);
    // U+00DF uppercases to "SS", which is not hex.
    let m = "hex string must have an even number of hex digits";
    assert_eq!(parse_raw_hex("\u{DF}").unwrap_err().to_string(), m);
}

#[test]
fn uppercased_hex_is_decoded_two_digits_a_byte() {
    let cmd = parse_upper_hex("0A1b").unwrap();
    assert_eq!(cmd.hex, "0A1b");
    assert_eq!(cmd.bytes, vec![0x0A, 0x1B]);
    let m = "hex string must have an even number of hex digits";
    assert_eq!(parse_upper_hex("ABC").unwrap_err().to_string(), m);
    assert_eq!(parse_upper_hex("GG").unwrap_err().to_string(), m);
}
