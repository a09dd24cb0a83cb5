//! Wire protocol of the LightElf `TD5322A_` BLE laser: the settings frame and
//! the draw (vector) frame, each built as an uppercase hexadecimal string and
//! as the raw bytes that string spells.
use vstd::prelude::*;

use crate::hex::{
    chars_to_string, hex_byte, hex_decode, hex_digit, hex_encode, hex_string_to_bytes, is_hex_char,
    is_hex_pairs, lemma_hex_digit_roundtrip, lemma_hex_encode_concat, lemma_hex_encode_len,
    lemma_hex_encode_push, lemma_hex_roundtrip, nibble_digit, push_hex_byte, push_hex_bytes,
};

verus! {

/// Hexadecimal opening sentinel of the settings frame.
pub const FRAME_HEADER: &'static str = "00010203";

/// Hexadecimal closing sentinel of the settings frame.
pub const FRAME_TRAILER: &'static str = "04050607";

/// Which of the app's three light buttons to select.
#[derive(Debug, Clone, Copy, PartialEq, Eq)]
pub enum LightChannel {
    One,
    Two,
    Three,
}

impl LightChannel {
    /// The number the frame carries for this button.
    pub open spec fn spec_code(self) -> u8 {
        match self {
            LightChannel::One => 1,
            LightChannel::Two => 2,
            LightChannel::Three => 3,
        }
    }

    #[verifier::when_used_as_spec(spec_code)]
    pub fn code(self) -> (c: u8)
        ensures
            c == self.spec_code(),
    {
        match self {
            LightChannel::One => 1,
            LightChannel::Two => 2,
            LightChannel::Three => 3,
        }
    }
}

/// Single vs. dual color output.
#[derive(Debug, Clone, Copy, PartialEq, Eq)]
pub enum ColorMode {
    Single,
    Dual,
}

/// Extended fields sent only to devices with the "cmdNewType" capability.
#[derive(Debug, Clone, Copy)]
pub struct ExtendedSettings {
    pub brightness: u8,
    pub grating: u8,
    pub device_password_status: u8,
    pub device_password: u16,
}

/// One full "settings" command frame.
#[derive(Debug, Clone, Copy)]
pub struct Settings {
    /// DMX512 address, 1..=512 in the app.
    pub dmx_address: u16,
    /// Raw `ch` field.
    pub channel: u8,
    /// Beam/pattern angle preset, 0..=7 in the app.
    pub xy_angle: u8,
    pub light: LightChannel,
    pub color_mode: ColorMode,
    /// `displaySize`, 10..=100 in the app.
    pub display_size: u8,
    /// Red, green, blue levels; only sent in `ColorMode::Dual`.
    pub dual_channels: [u8; 3],
    pub extended: Option<ExtendedSettings>,
}

/// The big-endian bytes of a 16-bit value.
pub open spec fn be16(v: u16) -> Seq<u8> {
    seq![(v / 256) as u8, (v % 256) as u8]
}

/// The three level bytes: all `0xFF` in single-color mode, the dual levels otherwise.
pub open spec fn level_bytes(s: Settings) -> Seq<u8> {
    match s.color_mode {
        ColorMode::Single => seq![0xFFu8, 0xFFu8, 0xFFu8],
        ColorMode::Dual => seq![s.dual_channels@[0], s.dual_channels@[1], s.dual_channels@[2]],
    }
}

/// The color-mode flag byte: `0x00` for single, `0xFF` for dual.
pub open spec fn cfg_byte(m: ColorMode) -> u8 {
    match m {
        ColorMode::Single => 0x00u8,
        ColorMode::Dual => 0xFFu8,
    }
}

/// The five bytes after the reserved byte: zero filler, or the extended fields.
pub open spec fn extended_bytes(e: Option<ExtendedSettings>) -> Seq<u8> {
    match e {
        None => seq![0u8, 0u8, 0u8, 0u8, 0u8],
        Some(x) => seq![x.brightness, x.grating, x.device_password_status] + be16(x.device_password),
    }
}

/// The settings frame: header `00 01 02 03`, the DMX address, channel, display
/// size, angle, three levels, light button, color-mode flag, a reserved zero,
/// five extended/filler bytes, and trailer `04 05 06 07`.
pub open spec fn settings_frame(s: Settings) -> Seq<u8> {
    seq![0u8, 1u8, 2u8, 3u8] + be16(s.dmx_address) + seq![s.channel, s.display_size, s.xy_angle]
        + level_bytes(s) + seq![s.light.spec_code(), cfg_byte(s.color_mode), 0u8]
        + extended_bytes(s.extended) + seq![4u8, 5u8, 6u8, 7u8]
}

fn push_all(out: &mut Vec<u8>, bytes: &[u8])
    ensures
        final(out)@ == old(out)@ + bytes@,
{
    let mut i: usize = 0;
    let ghost start = out@;
    while i < bytes.len()
        invariant
            i <= bytes@.len(),
            out@ == start + bytes@.subrange(0, i as int),
        decreases bytes@.len() - i,
    {
        out.push(bytes[i]);
        assert(out@ =~= start + bytes@.subrange(0, i + 1));
        i = i + 1;
    }
    assert(bytes@.subrange(0, i as int) =~= bytes@);
}

fn push_be16(out: &mut Vec<u8>, v: u16)
    ensures
        final(out)@ == old(out)@ + be16(v),
{
    out.push((v / 256) as u8);
    out.push((v % 256) as u8);
    assert(final(out)@ =~= old(out)@ + be16(v));
}

impl Settings {
    /// The frame as bytes.
    fn frame(&self) -> (f: Vec<u8>)
        ensures
            f@ == settings_frame(*self),
    {
        let mut f: Vec<u8> = Vec::new();
        push_all(&mut f, &[0u8, 1u8, 2u8, 3u8]);
        push_be16(&mut f, self.dmx_address);
        push_all(&mut f, &[self.channel, self.display_size, self.xy_angle]);
        let levels: [u8; 3] = match self.color_mode {
            ColorMode::Single => [0xFF, 0xFF, 0xFF],
            ColorMode::Dual => [self.dual_channels[0], self.dual_channels[1], self.dual_channels[2]],
        };
        assert(levels@ =~= level_bytes(*self));
        push_all(&mut f, &levels);
        let cfg: u8 = match self.color_mode {
            ColorMode::Single => 0x00,
            ColorMode::Dual => 0xFF,
        };
        push_all(&mut f, &[self.light.code(), cfg, 0u8]);
        let ghost mid = f@;
        match &self.extended {
            None => {
                push_all(&mut f, &[0u8, 0u8, 0u8, 0u8, 0u8]);
            },
            Some(ext) => {
                push_all(&mut f, &[ext.brightness, ext.grating, ext.device_password_status]);
                push_be16(&mut f, ext.device_password);
            },
        }
        assert(f@ =~= mid + extended_bytes(self.extended));
        push_all(&mut f, &[4u8, 5u8, 6u8, 7u8]);
        assert(f@ =~= settings_frame(*self));
        f
    }

    /// Encodes the frame as the uppercase hexadecimal command string.
    pub fn to_hex_string(&self) -> (s: String)
        ensures
            s@ == hex_encode(settings_frame(*self)),
    {
        let f = self.frame();
        let mut out: Vec<char> = Vec::new();
        push_hex_bytes(&mut out, f.as_slice());
        assert(out@ =~= hex_encode(settings_frame(*self)));
        chars_to_string(out)
    }

    /// The raw bytes to write: the bytes that the hexadecimal string spells.
    pub fn to_bytes(&self) -> (b: Vec<u8>)
        ensures
            b@ == settings_frame(*self),
            b@ == hex_decode(hex_encode(settings_frame(*self))),
    {
        let hex = self.to_hex_string();
        proof {
            lemma_hex_roundtrip(settings_frame(*self));
        }
        hex_string_to_bytes(hex.as_str())
    }
}


/// The frame is always 24 bytes long, opens with `00 01 02 03` and closes
/// with `04 05 06 07`; its hexadecimal form is 48 characters.
pub proof fn lemma_settings_frame_shape(s: Settings)
    ensures
        settings_frame(s).len() == 24,
        settings_frame(s).subrange(0, 4) == seq![0u8, 1u8, 2u8, 3u8],
        settings_frame(s).subrange(20, 24) == seq![4u8, 5u8, 6u8, 7u8],
        hex_encode(settings_frame(s)).len() == 48,
{
    lemma_hex_encode_len(settings_frame(s));
    assert(settings_frame(s).subrange(0, 4) =~= seq![0u8, 1u8, 2u8, 3u8]);
    assert(settings_frame(s).subrange(20, 24) =~= seq![4u8, 5u8, 6u8, 7u8]);
}

/// Where each setting lands in the frame: the DMX address big-endian at
/// bytes 4 and 5, then channel, display size and angle; the light button
/// at byte 12 is 1, 2 or 3 for buttons One, Two and Three (so different
/// buttons give different frames); byte 13 is `0x00` for single color and
/// `0xFF` for dual, and in single-color mode the three levels are `0xFF`.
pub proof fn lemma_settings_frame_fields(s: Settings)
    ensures
        settings_frame(s)[4] as int * 256 + settings_frame(s)[5] as int == s.dmx_address as int,
        settings_frame(s)[6] == s.channel,
        settings_frame(s)[7] == s.display_size,
        settings_frame(s)[8] == s.xy_angle,
        s.light == LightChannel::One ==> settings_frame(s)[12] == 1u8,
        s.light == LightChannel::Two ==> settings_frame(s)[12] == 2u8,
        s.light == LightChannel::Three ==> settings_frame(s)[12] == 3u8,
        s.color_mode == ColorMode::Single ==> settings_frame(s)[13] == 0u8 && settings_frame(s)[9]
            == 0xFFu8 && settings_frame(s)[10] == 0xFFu8 && settings_frame(s)[11] == 0xFFu8,
        s.color_mode == ColorMode::Dual ==> settings_frame(s)[13] == 0xFFu8 && settings_frame(s)[9]
            == s.dual_channels@[0] && settings_frame(s)[10] == s.dual_channels@[1]
            && settings_frame(s)[11] == s.dual_channels@[2],
        settings_frame(s)[14] == 0u8,
{
    let f = settings_frame(s);
    let v = s.dmx_address;
    assert(f[4] == (v / 256) as u8 && f[5] == (v % 256) as u8);
    assert((v / 256) as u8 as int * 256 + (v % 256) as u8 as int == v as int) by (bit_vector);
}

/// One point of a draw command: coordinates, palette color and movement tag.
#[derive(Debug, Clone, Copy)]
pub struct DrawPoint {
    pub x: i16,
    pub y: i16,
    /// Palette color index, 0..=15 in the legacy encoding.
    pub color: u8,
    /// Movement tag: `0` draws a line to this point, `1` jumps to it.
    pub tag: u8,
}

/// A draw command: an ordered list of points and the frame encoding to use.
#[derive(Debug, Clone)]
pub struct DrawCommand {
    pub points: Vec<DrawPoint>,
    /// `true` selects the "cmdNewType" frame with 6-byte points.
    pub new_type: bool,
}

/// Sign-magnitude 16-bit encoding: a negative value sets bit 15 and keeps
/// its magnitude, modulo `0x8000`, in the low 15 bits.
pub open spec fn signed16(v: i16) -> u16 {
    if v < 0 {
        (0x8000 + (-v) % 0x8000) as u16
    } else {
        v as u16
    }
}

/// The sign-magnitude encoding of a coordinate (not two's complement).
pub fn encode_signed16(v: i16) -> (r: u16)
    ensures
        r == signed16(v),
{
    if v < 0 {
        let m: i32 = -(v as i32);
        let mu: u16 = m as u16;
        assert(mu == -v);
        let low: u16 = mu & 0x7FFF;
        assert(mu & 0x7FFF == mu % 0x8000) by (bit_vector);
        assert(0x8000u16 | low == 0x8000 + low) by (bit_vector)
            requires
                low < 0x8000,
        ;
        0x8000 | low
    } else {
        v as u16
    }
}

/// The bytes of one point: x and y sign-magnitude big-endian, then either a
/// color byte and a tag nibble (`new_type`), or the color in the high nibble
/// and the tag in the low nibble of a single byte.
pub open spec fn point_bytes(p: DrawPoint, new_type: bool) -> Seq<u8> {
    be16(signed16(p.x)) + be16(signed16(p.y)) + if new_type {
        seq![p.color, p.tag % 16]
    } else {
        seq![((p.color as int * 16) % 256 + p.tag as int % 16) as u8]
    }
}

/// The bytes of all points, in order.
pub open spec fn points_bytes(ps: Seq<DrawPoint>, new_type: bool) -> Seq<u8>
    decreases ps.len(),
{
    if ps.len() == 0 {
        Seq::empty()
    } else {
        points_bytes(ps.drop_last(), new_type) + point_bytes(ps.last(), new_type)
    }
}

/// The opening sentinel of a draw frame.
pub open spec fn draw_prefix(new_type: bool) -> Seq<u8> {
    if new_type {
        seq![0xF0u8, 0x1Fu8, 0x00u8, 0x00u8]
    } else {
        seq![0xF0u8, 0xF1u8, 0xF2u8, 0xF3u8]
    }
}

/// The closing sentinel of a draw frame.
pub open spec fn draw_suffix() -> Seq<u8> {
    seq![0xF4u8, 0xF5u8, 0xF6u8, 0xF7u8]
}

/// `n` formatted as `{:04X}`: at least four uppercase digits, no more than needed.
pub open spec fn hex_pad4(n: nat) -> Seq<char>
    decreases n,
{
    if n < 65536 {
        hex_encode(be16(n as u16))
    } else {
        hex_pad4(n / 16).push(hex_digit((n % 16) as int))
    }
}

/// The draw command's hexadecimal text: sentinel, 15 zero header bytes and a
/// zero marker byte, the point count as `{:04X}`, the points, and the closing
/// sentinel.
pub open spec fn draw_frame_chars(cmd: DrawCommand) -> Seq<char> {
    hex_encode(draw_prefix(cmd.new_type)) + hex_encode(Seq::new(16, |i: int| 0u8)) + hex_pad4(
        cmd.points@.len(),
    ) + hex_encode(points_bytes(cmd.points@, cmd.new_type)) + hex_encode(draw_suffix())
}

/// The draw frame as bytes, for a point count that fits in 16 bits.
pub open spec fn draw_frame_bytes(cmd: DrawCommand) -> Seq<u8> {
    draw_prefix(cmd.new_type) + Seq::new(16, |i: int| 0u8) + be16(cmd.points@.len() as u16)
        + points_bytes(cmd.points@, cmd.new_type) + draw_suffix()
}

proof fn lemma_hex_pad4_digits(n: nat)
    ensures
        forall|i: int| 0 <= i < hex_pad4(n).len() ==> is_hex_char(#[trigger] hex_pad4(n)[i]),
        n < 65536 ==> hex_pad4(n).len() == 4,
    decreases n,
{
    if n < 65536 {
        lemma_hex_roundtrip(be16(n as u16));
        lemma_hex_encode_len(be16(n as u16));
    } else {
        lemma_hex_pad4_digits(n / 16);
        lemma_hex_digit_roundtrip((n % 16) as int);
        let prev = hex_pad4(n / 16);
        assert forall|i: int| 0 <= i < hex_pad4(n).len() implies is_hex_char(
            #[trigger] hex_pad4(n)[i],
        ) by {
            if i < prev.len() {
                assert(hex_pad4(n)[i] == prev[i]);
            }
        }
    }
}

/// `v` as two uppercase hexadecimal digits (`{:02X}`).
pub fn hex_u8(v: u8) -> (s: String)
    ensures
        s@ == hex_byte(v),
{
    let mut out: Vec<char> = Vec::new();
    push_hex_byte(&mut out, v);
    assert(out@ =~= hex_byte(v));
    chars_to_string(out)
}

/// `v` as four uppercase hexadecimal digits (`{:04X}`): its two bytes, high first.
pub fn hex_u16(v: u16) -> (s: String)
    ensures
        s@ == hex_encode(be16(v)),
{
    let mut out: Vec<char> = Vec::new();
    let b = [(v / 256) as u8, (v % 256) as u8];
    assert(b@ =~= be16(v));
    push_hex_bytes(&mut out, &b);
    assert(out@ =~= hex_encode(be16(v)));
    chars_to_string(out)
}

fn push_hex_pad4(out: &mut Vec<char>, n: usize)
    ensures
        final(out)@ == old(out)@ + hex_pad4(n as nat),
    decreases n,
{
    if n < 65536 {
        let b = [(n / 256) as u8, (n % 256) as u8];
        assert(b@ =~= be16(n as u16));
        push_hex_bytes(out, &b);
    } else {
        push_hex_pad4(out, n / 16);
        let c = nibble_digit((n % 16) as u8);
        out.push(c);
        assert(final(out)@ =~= old(out)@ + hex_pad4(n as nat));
    }
}

fn push_point(out: &mut Vec<u8>, p: DrawPoint, new_type: bool)
    ensures
        final(out)@ == old(out)@ + point_bytes(p, new_type),
{
    push_be16(out, encode_signed16(p.x));
    push_be16(out, encode_signed16(p.y));
    if new_type {
        let t = p.tag;
        out.push(p.color);
        out.push(t & 0x0F);
        assert(t & 0x0F == t % 16) by (bit_vector);
    } else {
        let packed: u8 = (p.color << 4) | (p.tag & 0x0F);
        let c = p.color;
        let t = p.tag;
        assert((c << 4) | (t & 0x0F) == ((c as int * 16) % 256 + t as int % 16) as u8)
            by (bit_vector);
        out.push(packed);
    }
    assert(final(out)@ =~= old(out)@ + point_bytes(p, new_type));
}

proof fn lemma_points_bytes_push(ps: Seq<DrawPoint>, p: DrawPoint, new_type: bool)
    ensures
        points_bytes(ps.push(p), new_type) == points_bytes(ps, new_type) + point_bytes(p, new_type),
{
    assert(ps.push(p).drop_last() =~= ps);
}

impl DrawCommand {
    fn point_list_bytes(&self) -> (b: Vec<u8>)
        ensures
            b@ == points_bytes(self.points@, self.new_type),
    {
        let mut b: Vec<u8> = Vec::new();
        let mut i: usize = 0;
        while i < self.points.len()
            invariant
                i <= self.points@.len(),
                b@ == points_bytes(self.points@.subrange(0, i as int), self.new_type),
            decreases self.points@.len() - i,
        {
            push_point(&mut b, self.points[i], self.new_type);
            proof {
                let pre = self.points@.subrange(0, i as int);
                assert(self.points@.subrange(0, i + 1) =~= pre.push(self.points@[i as int]));
                lemma_points_bytes_push(pre, self.points@[i as int], self.new_type);
            }
            i = i + 1;
        }
        assert(self.points@.subrange(0, i as int) =~= self.points@);
        b
    }

    /// Encodes the command as the uppercase hexadecimal command string.
    pub fn to_hex_string(&self) -> (s: String)
        ensures
            s@ == draw_frame_chars(*self),
    {
        let mut out: Vec<char> = Vec::new();
        let prefix: [u8; 4] = if self.new_type {
            [0xF0, 0x1F, 0x00, 0x00]
        } else {
            [0xF0, 0xF1, 0xF2, 0xF3]
        };
        assert(prefix@ =~= draw_prefix(self.new_type));
        push_hex_bytes(&mut out, &prefix);
        let header: [u8; 16] = [0; 16];
        assert(header@ =~= Seq::new(16, |i: int| 0u8));
        push_hex_bytes(&mut out, &header);
        push_hex_pad4(&mut out, self.points.len());
        let body = self.point_list_bytes();
        push_hex_bytes(&mut out, body.as_slice());
        let suffix: [u8; 4] = [0xF4, 0xF5, 0xF6, 0xF7];
        assert(suffix@ =~= draw_suffix());
        push_hex_bytes(&mut out, &suffix);
        assert(out@ =~= draw_frame_chars(*self));
        chars_to_string(out)
    }

    /// The raw bytes that the hexadecimal string spells. Defined when that
    /// string has an even length, which holds for every count below `0x10000`;
    /// there the bytes are exactly `draw_frame_bytes`.
    pub fn to_bytes(&self) -> (b: Vec<u8>)
        requires
            draw_frame_chars(*self).len() % 2 == 0,
        ensures
            b@ == hex_decode(draw_frame_chars(*self)),
            self.points@.len() < 65536 ==> b@ == draw_frame_bytes(*self),
    {
        let hex = self.to_hex_string();
        proof {
            lemma_draw_chars_are_hex(*self);
            lemma_hex_roundtrip(draw_frame_bytes(*self));
        }
        hex_string_to_bytes(hex.as_str())
    }
}

proof fn lemma_all_hex_concat(a: Seq<char>, b: Seq<char>)
    requires
        forall|i: int| 0 <= i < a.len() ==> is_hex_char(#[trigger] a[i]),
        forall|i: int| 0 <= i < b.len() ==> is_hex_char(#[trigger] b[i]),
    ensures
        forall|i: int| 0 <= i < (a + b).len() ==> is_hex_char(#[trigger] (a + b)[i]),
{
    assert forall|i: int| 0 <= i < (a + b).len() implies is_hex_char(#[trigger] (a + b)[i]) by {
        if i < a.len() {
            assert((a + b)[i] == a[i]);
        } else {
            assert((a + b)[i] == b[i - a.len()]);
        }
    }
}

/// Every character of a draw frame is a hex digit; for a count below
/// `0x10000` the text is the encoding of `draw_frame_bytes`.
pub proof fn lemma_draw_chars_are_hex(cmd: DrawCommand)
    ensures
        forall|i: int|
            0 <= i < draw_frame_chars(cmd).len() ==> is_hex_char(#[trigger] draw_frame_chars(cmd)[i]),
        cmd.points@.len() < 65536 ==> draw_frame_chars(cmd) == hex_encode(draw_frame_bytes(cmd)),
{
    let p = hex_encode(draw_prefix(cmd.new_type));
    let h = hex_encode(Seq::new(16, |i: int| 0u8));
    let c = hex_pad4(cmd.points@.len());
    let body = hex_encode(points_bytes(cmd.points@, cmd.new_type));
    let t = hex_encode(draw_suffix());
    lemma_hex_roundtrip(draw_prefix(cmd.new_type));
    lemma_hex_roundtrip(Seq::new(16, |i: int| 0u8));
    lemma_hex_roundtrip(points_bytes(cmd.points@, cmd.new_type));
    lemma_hex_roundtrip(draw_suffix());
    lemma_hex_pad4_digits(cmd.points@.len());
    lemma_all_hex_concat(p, h);
    lemma_all_hex_concat(p + h, c);
    lemma_all_hex_concat(p + h + c, body);
    lemma_all_hex_concat(p + h + c + body, t);
    if cmd.points@.len() < 65536 {
        let n = cmd.points@.len();
        lemma_hex_encode_concat(draw_prefix(cmd.new_type), Seq::new(16, |i: int| 0u8));
        lemma_hex_encode_concat(
            draw_prefix(cmd.new_type) + Seq::new(16, |i: int| 0u8),
            be16(n as u16),
        );
        lemma_hex_encode_concat(
            draw_prefix(cmd.new_type) + Seq::new(16, |i: int| 0u8) + be16(n as u16),
            points_bytes(cmd.points@, cmd.new_type),
        );
        lemma_hex_encode_concat(
            draw_prefix(cmd.new_type) + Seq::new(16, |i: int| 0u8) + be16(n as u16)
                + points_bytes(cmd.points@, cmd.new_type),
            draw_suffix(),
        );
    }
}

} // verus!
