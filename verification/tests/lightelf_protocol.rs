use opensdts::lightelf::{
    encode_signed16, ColorMode, DrawCommand, DrawPoint, ExtendedSettings, LightChannel, Settings,
    FRAME_HEADER, FRAME_TRAILER,
};

fn base() -> Settings {
    Settings {
        dmx_address: 300,
        channel: 0,
        xy_angle: 0,
        light: LightChannel::One,
        color_mode: ColorMode::Single,
        display_size: 100,
        dual_channels: [0, 0, 0],
        extended: None,
    }
}

#[test]
fn dual_mode_sends_the_actual_channel_values() {
    let mut s = base();
    s.color_mode = ColorMode::Dual;
    s.dual_channels = [10, 20, 30];
    let hex = s.to_hex_string();
    assert_eq!(&hex[18..24], "0A141E");
}

#[test]
fn legacy_frame_has_expected_length_and_sentinels() {
    let hex = base().to_hex_string();
    assert!(hex.starts_with(FRAME_HEADER));
    assert!(hex.ends_with(FRAME_TRAILER));
    assert_eq!(hex.len(), 48); // 24 bytes
}

#[test]
fn single_color_forces_unused_channels_to_ff() {
    let hex = base().to_hex_string();
    assert_eq!(&hex[18..24], "FFFFFF");
}

#[test]
fn dmx_address_encodes_as_big_endian_u16_right_after_the_header() {
    let mut s = base();
    s.dmx_address = 0x1234;
    let hex = s.to_hex_string();
    assert_eq!(&hex[8..12], "1234");
}

#[test]
fn extended_settings_replace_the_legacy_filler() {
    let mut s = base();
    s.extended = Some(ExtendedSettings {
        brightness: 0x64,
        grating: 0x01,
        device_password_status: 0x00,
        device_password: 0x0000,
    });
    let hex = s.to_hex_string();
    assert_eq!(&hex[30..40], "6401000000");
}

#[test]
fn to_bytes_matches_hex_string() {
    let s = base();
    assert_eq!(s.to_bytes().len(), s.to_hex_string().len() / 2);
    assert_eq!(s.to_bytes()[0], 0x00);
    assert_eq!(s.to_bytes()[1], 0x01);
}

#[test]
fn draw_frame_uses_the_f0f1_sentinels_with_no_checksum() {
    let cmd = DrawCommand { points: vec![], new_type: false };
    let hex = cmd.to_hex_string();
    assert!(hex.starts_with("F0F1F2F3"));
    assert!(hex.ends_with("F4F5F6F7"));
}

#[test]
fn draw_header_is_15_zero_bytes_plus_marker_before_the_point_count() {
    let cmd = DrawCommand { points: vec![], new_type: false };
    let hex = cmd.to_hex_string();
    assert_eq!(&hex[8..40], &"00".repeat(16));
    assert_eq!(&hex[40..44], "0000"); // zero points
}

#[test]
fn draw_point_packs_color_into_upper_nibble_and_tag_into_lower_nibble() {
    let cmd = DrawCommand {
        points: vec![DrawPoint { x: 0, y: 0, color: 2, tag: 1 }],
        new_type: false,
    };
    let hex = cmd.to_hex_string();
    assert_eq!(&hex[40..44], "0001"); // point count
    assert_eq!(&hex[44..54], "0000000021"); // x=0000 y=0000 (2<<4)|1=0x21
}

#[test]
fn draw_point_encodes_negative_coordinates_as_sign_magnitude_not_twos_complement() {
    let cmd = DrawCommand {
        points: vec![DrawPoint { x: -5, y: -300, color: 0, tag: 0 }],
        new_type: false,
    };
    let hex = cmd.to_hex_string();
    assert_eq!(&hex[44..54], "8005812C00");
}

#[test]
fn draw_line_is_a_move_point_followed_by_a_draw_point() {
    let cmd = DrawCommand {
        points: vec![
            DrawPoint { x: 0, y: 0, color: 0, tag: 1 },
            DrawPoint { x: 100, y: 50, color: 2, tag: 0 },
        ],
        new_type: false,
    };
    let hex = cmd.to_hex_string();
    assert_eq!(&hex[40..44], "0002");
    assert_eq!(&hex[44..54], "0000000001"); // move to (0,0)
    assert_eq!(&hex[54..64], "0064003220"); // draw to (100,50), color 2
}

#[test]
fn new_type_frame_uses_the_f01f_sentinel_and_6_byte_points() {
    let cmd = DrawCommand {
        points: vec![DrawPoint { x: 0, y: 0, color: 200, tag: 1 }],
        new_type: true,
    };
    let hex = cmd.to_hex_string();
    assert!(hex.starts_with("F01F0000"));
    assert!(hex.ends_with("F4F5F6F7"));
    assert_eq!(&hex[44..44 + 12], "00000000C801");
}

// ---- additional cases ----

#[test]
fn settings_bytes_are_the_full_frame() {
    let mut s = base();
    s.light = LightChannel::Three;
    s.channel = 7;
    s.xy_angle = 5;
    s.extended = Some(ExtendedSettings {
        brightness: 1,
        grating: 2,
        device_password_status: 3,
        device_password: 0xABCD,
    });
    assert_eq!(
        s.to_bytes(),
        vec![0, 1, 2, 3, 0x01, 0x2C, 7, 100, 5, 0xFF, 0xFF, 0xFF, 3, 0x00, 0, 1, 2, 3, 0xAB, 0xCD, 4, 5, 6, 7]
    );
    assert_eq!(s.to_hex_string(), "00010203012C076405FFFFFF030000010203ABCD04050607");
}

#[test]
fn dual_mode_flag_byte_is_ff() {
    let mut s = base();
    s.color_mode = ColorMode::Dual;
    let hex = s.to_hex_string();
    assert_eq!(&hex[24..30], "01FF00");
}

#[test]
fn sign_magnitude_extremes() {
    assert_eq!(encode_signed16(0), 0);
    assert_eq!(encode_signed16(i16::MAX), 0x7FFF);
    assert_eq!(encode_signed16(-1), 0x8001);
    assert_eq!(encode_signed16(i16::MIN), 0x8000);
}

#[test]
fn legacy_packing_truncates_wide_colors() {
    let cmd = DrawCommand {
        points: vec![DrawPoint { x: 1, y: -1, color: 0x1F, tag: 0x1E }],
        new_type: false,
    };
    // (0x1F << 4) keeps the low byte 0xF0; tag keeps its low nibble 0xE.
    assert_eq!(&cmd.to_hex_string()[44..54], "00018001FE");
}

#[test]
fn draw_bytes_match_the_hex_text() {
    let cmd = DrawCommand {
        points: vec![DrawPoint { x: 100, y: 50, color: 2, tag: 0 }],
        new_type: true,
    };
    let bytes = cmd.to_bytes();
    let hex: String = bytes.iter().map(|b| format!("{b:02X}")).collect();
    assert_eq!(hex, cmd.to_hex_string());
    assert_eq!(bytes.len(), 4 + 16 + 2 + 6 + 4);
}

#[test]
fn large_point_counts_use_more_than_four_digits() {
    let cmd = DrawCommand {
        points: vec![DrawPoint { x: 0, y: 0, color: 0, tag: 0 }; 0x10000],
        new_type: false,
    };
    let hex = cmd.to_hex_string();
    assert_eq!(&hex[40..45], "10000");
    assert_eq!(hex.len(), 8 + 32 + 5 + 10 * 0x10000 + 8);
}
