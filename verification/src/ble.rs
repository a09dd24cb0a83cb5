//! Transport-side rules of the LightElf device: which advertised names are
//! the device, the handshake query frame, how a payload is cut into BLE
//! writes, which characteristic to write to, and raw hex commands.
use vstd::prelude::*;

use crate::hex::{
    chars_to_string, hex_decode, hex_encode, hex_string_to_bytes, is_hex_char, is_hex_pairs,
    push_hex_bytes,
};
use crate::names::{chars_of, EngineError};
use crate::recording::{is_space, is_white};

verus! {

/// Advertised-name prefix of the device.
pub const DEVICE_NAME_PREFIX: &'static str = "TD5322A_";

/// Bytes per BLE write.
pub const CHUNK_LEN: usize = 20;

/// An advertised name that belongs to the device: it starts with `TD5322A_`.
pub open spec fn names_device(name: Seq<char>) -> bool {
    name.len() >= 8 && name.subrange(0, 8) == seq!['T', 'D', '5', '3', '2', '2', 'A', '_']
}

pub fn is_device_name(name: &str) -> (b: bool)
    ensures
        b == names_device(name@),
{
    let cs = chars_of(name);
    let prefix = ['T', 'D', '5', '3', '2', '2', 'A', '_'];
    if cs.len() < 8 {
        return false;
    }
    let mut i: usize = 0;
    while i < 8
        invariant
            cs@ == name@,
            cs@.len() >= 8,
            i <= 8,
            prefix@ == seq!['T', 'D', '5', '3', '2', '2', 'A', '_'],
            forall|k: int| 0 <= k < i ==> cs@[k] == prefix@[k],
        decreases 8 - i,
    {
        if cs[i] != prefix[i] {
            assert(cs@.subrange(0, 8)[i as int] != prefix@[i as int]);
            return false;
        }
        i = i + 1;
    }
    assert(cs@.subrange(0, 8) =~= seq!['T', 'D', '5', '3', '2', '2', 'A', '_']);
    true
}

/// The handshake query: `E0 E1 E2 E3`, a 4-byte challenge, `E4 E5 E6 E7`.
pub open spec fn query_frame_bytes(challenge: Seq<u8>) -> Seq<u8> {
    seq![0xE0u8, 0xE1u8, 0xE2u8, 0xE3u8] + challenge + seq![0xE4u8, 0xE5u8, 0xE6u8, 0xE7u8]
}

/// The query frame carrying `challenge`.
pub fn query_frame_with(challenge: [u8; 4]) -> (f: [u8; 12])
    ensures
        f@ == query_frame_bytes(challenge@),
{
    let f = [
        0xE0,
        0xE1,
        0xE2,
        0xE3,
        challenge[0],
        challenge[1],
        challenge[2],
        challenge[3],
        0xE4,
        0xE5,
        0xE6,
        0xE7,
    ];
    assert(f@ =~= query_frame_bytes(challenge@));
    f
}

/// Four random bytes from the thread-local generator.
///
/// Trusted: calls `rand::random`, which draws from `rand::thread_rng()`;
/// nothing is claimed of the bytes, which differ from call to call.
#[verifier::external_body]
fn random_challenge() -> (c: [u8; 4]) {
    rand::random::<[u8; 4]>()
}

/// A fresh handshake query frame with a random 4-byte challenge.
pub fn query_frame() -> (f: [u8; 12])
    ensures
        exists|c: Seq<u8>| c.len() == 4 && f@ == query_frame_bytes(c),
{
    let c = random_challenge();
    query_frame_with(c)
}

/// The `k`-th write of a payload: bytes `20k` up to `20k + 20`, or the end.
pub open spec fn chunk(p: Seq<u8>, k: int) -> Seq<u8> {
    let start = 20 * k;
    let end = if start + 20 < p.len() {
        start + 20
    } else {
        p.len() as int
    };
    p.subrange(start, end)
}

/// The number of writes a payload takes.
pub open spec fn chunk_count(len: nat) -> nat {
    ((len + 19) / 20) as nat
}

proof fn lemma_chunk_count(n: int, m: int)
    requires
        m >= 1,
        20 * (m - 1) < n <= 20 * m,
    ensures
        chunk_count(n as nat) == m,
{
}

/// The writes of a payload, in order.
pub open spec fn chunks_of(p: Seq<u8>) -> Seq<Seq<u8>> {
    Seq::new(chunk_count(p.len()), |k: int| chunk(p, k))
}

/// Sending a payload's writes one after the other sends the payload: the
/// writes concatenate to it, none is empty and none exceeds 20 bytes.
pub proof fn lemma_chunks_rebuild_payload(p: Seq<u8>)
    ensures
        chunks_of(p).flatten() == p,
        forall|k: int|
            0 <= k < chunks_of(p).len() ==> 0 < (#[trigger] chunks_of(p)[k]).len() <= 20,
    decreases p.len(),
{
    let cs = chunks_of(p);
    if p.len() == 0 {
        assert(cs.len() == 0);
        assert(cs.flatten() =~= p);
    } else if p.len() <= 20 {
        lemma_chunk_count(p.len() as int, 1);
        assert(cs.len() == 1);
        assert(chunk(p, 0) =~= p);
        cs.lemma_flatten_one_element();
    } else {
        let rest = p.subrange(20, p.len() as int);
        lemma_chunks_rebuild_payload(rest);
        let m = chunk_count(rest.len()) as int;
        assert(m >= 1);
        lemma_chunk_count(rest.len() as int, m);
        lemma_chunk_count(p.len() as int, m + 1);
        assert(cs.drop_first() =~= chunks_of(rest)) by {
            assert forall|k: int| 0 <= k < m implies cs.drop_first()[k] == chunks_of(rest)[k] by {
                assert(chunk(p, k + 1) =~= chunk(rest, k));
            }
        }
        assert(cs.first() =~= p.subrange(0, 20));
        assert(cs.flatten() == cs.first() + cs.drop_first().flatten());
        assert(p =~= p.subrange(0, 20) + rest);
        assert forall|k: int| 0 <= k < cs.len() implies 0 < (#[trigger] cs[k]).len() <= 20 by {
            if k > 0 {
                assert(cs[k] == chunks_of(rest)[k - 1]);
            }
        }
    }
}

/// Cuts a payload into the BLE writes the app makes, 20 bytes each and a
/// shorter last one; an empty payload is refused.
pub fn payload_chunks(payload: &[u8]) -> (r: Result<Vec<Vec<u8>>, EngineError>)
    ensures
        payload@.len() == 0 <==> r is Err,
        r matches Err(e) ==> e.0@ == "refusing to send an empty payload"@,
        r matches Ok(cs) ==> cs@.len() == chunk_count(payload@.len()) && forall|k: int|
            0 <= k < cs@.len() ==> (#[trigger] cs@[k])@ == chunk(payload@, k),
{
    if payload.len() == 0 {
        return Err(EngineError("refusing to send an empty payload".to_string()));
    }
    let n = payload.len();
    let mut out: Vec<Vec<u8>> = Vec::new();
    let mut start: usize = 0;
    while start < n
        invariant
            n == payload@.len(),
            start <= n,
            start as int == if 20 * out@.len() < n {
                (20 * out@.len()) as int
            } else {
                n as int
            },
            out@.len() > 0 ==> 20 * (out@.len() - 1) < n,
            forall|k: int| 0 <= k < out@.len() ==> (#[trigger] out@[k])@ == chunk(payload@, k),
        decreases n - start,
    {
        let end = if n - start > 20 {
            start + 20
        } else {
            n
        };
        let mut c: Vec<u8> = Vec::new();
        let mut j = start;
        while j < end
            invariant
                start <= j <= end <= n,
                n == payload@.len(),
                c@ == payload@.subrange(start as int, j as int),
            decreases end - j,
        {
            c.push(payload[j]);
            assert(c@ =~= payload@.subrange(start as int, j + 1));
            j = j + 1;
        }
        let ghost k = out@.len() as int;
        assert(c@ == chunk(payload@, k));
        out.push(c);
        start = end;
    }
    proof {
        lemma_chunk_count(n as int, out@.len() as int);
    }
    Ok(out)
}

/// A GATT characteristic as the device exposes it: its service and its own
/// UUID, as 128-bit numbers.
#[derive(Debug, Clone, Copy)]
pub struct GattChar {
    pub service_uuid: u128,
    pub uuid: u128,
}

/// Primary service `0000ffe0-0000-1000-8000-00805f9b34fb`.
pub const SERVICE_PRIMARY: u128 = 0x0000ffe0_0000_1000_8000_00805f9b34fb;

/// Primary write characteristic `0000ffe2-0000-1000-8000-00805f9b34fb`.
pub const WRITE_PRIMARY: u128 = 0x0000ffe2_0000_1000_8000_00805f9b34fb;

/// Fallback service `0000ff00-0000-1000-8000-00805f9b34fb`.
pub const SERVICE_FALLBACK: u128 = 0x0000ff00_0000_1000_8000_00805f9b34fb;

/// Fallback write characteristic `0000ff02-0000-1000-8000-00805f9b34fb`.
pub const WRITE_FALLBACK: u128 = 0x0000ff02_0000_1000_8000_00805f9b34fb;

/// A lowercase hexadecimal digit (`0`-`9`, `a`-`f`) for `v < 16`.
pub open spec fn lower_hex_digit(v: int) -> char {
    if v < 10 {
        ((v + 48) as u8) as char
    } else {
        ((v + 87) as u8) as char
    }
}

/// The last `k` hexadecimal digits of `n`, lowercase, most significant first.
pub open spec fn lower_hex_digits(n: nat, k: nat) -> Seq<char>
    decreases k,
{
    if k == 0 {
        Seq::empty()
    } else {
        lower_hex_digits(n / 16, (k - 1) as nat).push(lower_hex_digit((n % 16) as int))
    }
}

/// A UUID's text: its 128 bits as 32 lowercase hexadecimal digits, most
/// significant first, grouped 8-4-4-4-12 by hyphens.
pub open spec fn uuid_text(id: u128) -> Seq<char> {
    let h = lower_hex_digits(id as nat, 32);
    h.subrange(0, 8) + seq!['-'] + h.subrange(8, 12) + seq!['-'] + h.subrange(12, 16) + seq!['-']
        + h.subrange(16, 20) + seq!['-'] + h.subrange(20, 32)
}

/// The text of a UUID.
///
/// Trusted: calls `uuid::Uuid::from_u128` (the bytes of `id`, high first)
/// and formats the UUID with its `Display`, which writes the lowercase
/// hyphenated form; claims that text is `uuid_text(id)`.
#[verifier::external_body]
fn uuid_string(id: u128) -> (s: String)
    ensures
        s@ == uuid_text(id),
{
    uuid::Uuid::from_u128(id).to_string()
}

/// The message when a device has neither write characteristic.
pub open spec fn missing_write_char_message(device_name: Seq<char>) -> Seq<char> {
    "device "@ + device_name + " exposes neither the primary ("@ + uuid_text(SERVICE_PRIMARY) + "/"@
        + uuid_text(WRITE_PRIMARY) + ") nor fallback ("@ + uuid_text(SERVICE_FALLBACK) + "/"@
        + uuid_text(WRITE_FALLBACK) + ") write characteristic"@
}

/// The index of the first characteristic with this service and UUID, if any.
pub open spec fn first_match(cs: Seq<GattChar>, service: u128, uuid: u128) -> Option<int>
    decreases cs.len(),
{
    if cs.len() == 0 {
        None
    } else if cs[0].service_uuid == service && cs[0].uuid == uuid {
        Some(0)
    } else {
        match first_match(cs.drop_first(), service, uuid) {
            Some(i) => Some(i + 1),
            None => None,
        }
    }
}

fn find_char(cs: &Vec<GattChar>, service: u128, uuid: u128) -> (r: Option<usize>)
    ensures
        match r {
            Some(j) => first_match(cs@, service, uuid) == Some(j as int) && j < cs@.len(),
            None => first_match(cs@, service, uuid) is None,
        },
{
    let mut i: usize = 0;
    assert(cs@.subrange(0, cs@.len() as int) =~= cs@);
    while i < cs.len()
        invariant
            i <= cs@.len(),
            first_match(cs@, service, uuid) == match first_match(
                cs@.subrange(i as int, cs@.len() as int),
                service,
                uuid,
            ) {
                Some(k) => Some(k + i),
                None => None,
            },
        decreases cs@.len() - i,
    {
        let ghost t = cs@.subrange(i as int, cs@.len() as int);
        assert(t[0] == cs@[i as int]);
        if cs[i].service_uuid == service && cs[i].uuid == uuid {
            assert(first_match(t, service, uuid) == Some(0int));
            return Some(i);
        }
        assert(t.drop_first() =~= cs@.subrange(i + 1, cs@.len() as int));
        i = i + 1;
    }
    assert(cs@.subrange(i as int, cs@.len() as int) =~= Seq::<GattChar>::empty());
    None
}

/// The write characteristic to use: the primary one if the device exposes
/// it, otherwise the fallback one; an error naming the device otherwise.
pub fn find_write_char(cs: &Vec<GattChar>, device_name: &str) -> (r: Result<GattChar, EngineError>)
    ensures
        match first_match(cs@, SERVICE_PRIMARY, WRITE_PRIMARY) {
            Some(i) => r == Ok::<GattChar, EngineError>(cs@[i]),
            None => match first_match(cs@, SERVICE_FALLBACK, WRITE_FALLBACK) {
                Some(i) => r == Ok::<GattChar, EngineError>(cs@[i]),
                None => r matches Err(e) && e.0@ == missing_write_char_message(device_name@),
            },
        },
{
    proof {
        lemma_first_match_range(cs@, SERVICE_PRIMARY, WRITE_PRIMARY);
        lemma_first_match_range(cs@, SERVICE_FALLBACK, WRITE_FALLBACK);
    }
    match find_char(cs, SERVICE_PRIMARY, WRITE_PRIMARY) {
        Some(i) => {
            let c = cs[i];
            assert(c == cs@[i as int]);
            Ok(c)
        },
        None => match find_char(cs, SERVICE_FALLBACK, WRITE_FALLBACK) {
            Some(i) => {
                let c = cs[i];
                assert(c == cs@[i as int]);
                Ok(c)
            },
            None => {
                let mut out: Vec<char> = Vec::new();
                push_chars(&mut out, "device ");
                push_chars(&mut out, device_name);
                push_chars(&mut out, " exposes neither the primary (");
                push_chars(&mut out, uuid_string(SERVICE_PRIMARY).as_str());
                push_chars(&mut out, "/");
                push_chars(&mut out, uuid_string(WRITE_PRIMARY).as_str());
                push_chars(&mut out, ") nor fallback (");
                push_chars(&mut out, uuid_string(SERVICE_FALLBACK).as_str());
                push_chars(&mut out, "/");
                push_chars(&mut out, uuid_string(WRITE_FALLBACK).as_str());
                push_chars(&mut out, ") write characteristic");
                let e = EngineError(chars_to_string(out));
                assert(e.0@ =~= missing_write_char_message(device_name@));
                Err(e)
            },
        },
    }
}

fn push_chars(out: &mut Vec<char>, s: &str)
    ensures
        final(out)@ == old(out)@ + s@,
{
    let cs = chars_of(s);
    let ghost start = out@;
    let mut i: usize = 0;
    while i < cs.len()
        invariant
            i <= cs@.len(),
            cs@ == s@,
            out@ == start + cs@.subrange(0, i as int),
        decreases cs@.len() - i,
    {
        out.push(cs[i]);
        assert(out@ =~= start + cs@.subrange(0, i + 1));
        i = i + 1;
    }
    assert(cs@.subrange(0, i as int) =~= cs@);
}

proof fn lemma_first_match_range(cs: Seq<GattChar>, service: u128, uuid: u128)
    ensures
        first_match(cs, service, uuid) matches Some(i) ==> 0 <= i < cs.len() && cs[i].service_uuid
            == service && cs[i].uuid == uuid,
    decreases cs.len(),
{
    if cs.len() > 0 {
        lemma_first_match_range(cs.drop_first(), service, uuid);
    }
}

/// The uppercase hexadecimal text of some bytes (`{:02X}` per byte).
pub fn hex_upper(bytes: &[u8]) -> (s: String)
    ensures
        s@ == hex_encode(bytes@),
{
    let mut out: Vec<char> = Vec::new();
    push_hex_bytes(&mut out, bytes);
    assert(out@ =~= hex_encode(bytes@));
    chars_to_string(out)
}

/// The number of trailing whitespace characters.
pub open spec fn trailing_space(s: Seq<char>) -> nat
    decreases s.len(),
{
    if s.len() > 0 && is_white(s.last()) {
        1 + trailing_space(s.drop_last())
    } else {
        0
    }
}

/// `s.trim()`.
pub open spec fn trim(s: Seq<char>) -> Seq<char> {
    let t = crate::recording::trim_start(s);
    t.subrange(0, t.len() - trailing_space(t))
}

/// The text that `str::to_uppercase` gives for `s`: each character replaced
/// by its Unicode uppercase mapping, which may be longer than one character.
pub uninterp spec fn uppercase_text(s: Seq<char>) -> Seq<char>;

/// Trusted: calls `str::to_uppercase`. It claims only that the result is the
/// uppercase text of the argument and depends on the argument alone (the
/// mapping is Unicode's, not the locale's); which characters it gives is left
/// unsaid.
#[verifier::external_body]
fn to_uppercase(s: &str) -> (u: String)
    ensures
        u@ == uppercase_text(s@),
{
    s.to_uppercase()
}

/// A raw hex command: the trimmed text, uppercased, and the bytes it spells.
#[derive(Debug, Clone)]
pub struct RawCommand {
    pub hex: String,
    pub bytes: Vec<u8>,
}

/// Reads an already uppercased raw command: it must be an even number of
/// ASCII hex digits, which become the command's bytes, two digits a byte.
pub fn parse_upper_hex(hex: &str) -> (r: Result<RawCommand, EngineError>)
    ensures
        r is Ok <==> is_hex_pairs(hex@),
        r matches Ok(c) ==> c.hex@ == hex@ && c.bytes@ == hex_decode(hex@),
        r matches Err(e) ==> e.0@ == "hex string must have an even number of hex digits"@,
{
    let cs = chars_of(hex);
    if cs.len() % 2 != 0 {
        return Err(EngineError("hex string must have an even number of hex digits".to_string()));
    }
    let mut i: usize = 0;
    while i < cs.len()
        invariant
            cs@ == hex@,
            i <= cs@.len(),
            forall|k: int| 0 <= k < i ==> is_hex_char(#[trigger] hex@[k]),
        decreases cs@.len() - i,
    {
        if !hex_char(cs[i]) {
            return Err(EngineError("hex string must have an even number of hex digits".to_string()));
        }
        i = i + 1;
    }
    let bytes = hex_string_to_bytes(hex);
    Ok(RawCommand { hex: hex.to_owned(), bytes })
}

/// Reads a raw command typed as hexadecimal: surrounding whitespace is
/// removed, the rest is uppercased (`str::to_uppercase`), and that must be
/// an even number of hex digits.
pub fn parse_raw_hex(text: &str) -> (r: Result<RawCommand, EngineError>)
    ensures
        ({
            let u = uppercase_text(trim(text@));
            &&& (r is Ok <==> is_hex_pairs(u))
            &&& (r matches Ok(c) ==> c.hex@ == u && c.bytes@ == hex_decode(u))
            &&& (r matches Err(e) ==> e.0@ == "hex string must have an even number of hex digits"@)
        }),
{
    let cs = chars_of(text);
    let n = cs.len();
    let mut lo: usize = 0;
    while lo < n && is_space(cs[lo])
        invariant
            cs@ == text@,
            n == cs@.len(),
            lo <= n,
            forall|k: int| 0 <= k < lo ==> is_white(#[trigger] cs@[k]),
        decreases n - lo,
    {
        lo = lo + 1;
    }
    proof {
        crate::recording::lemma_leading_space_step(cs@, lo as int);
        if lo < n {
            assert(cs@.subrange(lo as int, n as int)[0] == cs@[lo as int]);
        }
    }
    let ghost t0 = cs@.subrange(lo as int, n as int);
    assert(crate::recording::trim_start(text@) == t0);
    let mut hi: usize = n;
    while hi > lo && is_space(cs[hi - 1])
        invariant
            cs@ == text@,
            n == cs@.len(),
            lo <= hi <= n,
            t0 == cs@.subrange(lo as int, n as int),
            trailing_space(t0) == (n - hi) + trailing_space(cs@.subrange(lo as int, hi as int)),
        decreases hi,
    {
        proof {
            let u = cs@.subrange(lo as int, hi as int);
            assert(u.last() == cs@[hi - 1]);
            assert(u.drop_last() =~= cs@.subrange(lo as int, hi - 1));
        }
        hi = hi - 1;
    }
    proof {
        let u = cs@.subrange(lo as int, hi as int);
        if hi > lo {
            assert(u.last() == cs@[hi - 1]);
        }
        assert(trailing_space(u) == 0);
        assert(t0.subrange(0, t0.len() - trailing_space(t0)) =~= u);
    }
    let ghost t = cs@.subrange(lo as int, hi as int);
    assert(trim(text@) == t);
    let mut kept: Vec<char> = Vec::new();
    let mut i = lo;
    while i < hi
        invariant
            cs@ == text@,
            lo <= i <= hi <= n,
            n == cs@.len(),
            kept@ == cs@.subrange(lo as int, i as int),
        decreases hi - i,
    {
        kept.push(cs[i]);
        proof {
            assert(kept@ =~= cs@.subrange(lo as int, i + 1));
        }
        i = i + 1;
    }
    let trimmed = chars_to_string(kept);
    let upper = to_uppercase(trimmed.as_str());
    parse_upper_hex(upper.as_str())
}

fn hex_char(c: char) -> (b: bool)
    ensures
        b == is_hex_char(c),
{
    ('0' <= c && c <= '9') || ('A' <= c && c <= 'F') || ('a' <= c && c <= 'f')
}

} // verus!
