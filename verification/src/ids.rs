//! Session identifiers: the wall-clock id of a recorded session
//! (`YYYYMMDD-HHMMSS-mmm`, UTC) and the counter-based id of an engine session.
use vstd::prelude::*;

use crate::hex::chars_to_string;
use crate::live::text_lt;

verus! {

/// The decimal digit character for `v < 10`.
pub open spec fn dec_digit(v: int) -> char {
    ((v + 48) as u8) as char
}

/// The decimal digits of `n`, without leading zeros (`"0"` for zero).
pub open spec fn dec_digits(n: nat) -> Seq<char>
    decreases n,
{
    if n < 10 {
        seq![dec_digit(n as int)]
    } else {
        dec_digits(n / 10).push(dec_digit((n % 10) as int))
    }
}

/// `n` formatted as `{:0w}`: its decimal digits left-padded with zeros to
/// at least `w` characters.
pub open spec fn dec_pad(n: nat, w: nat) -> Seq<char> {
    let d = dec_digits(n);
    if d.len() < w {
        Seq::new((w - d.len()) as nat, |i: int| '0') + d
    } else {
        d
    }
}

fn digit_char(v: u64) -> (c: char)
    requires
        v < 10,
    ensures
        c == dec_digit(v as int),
{
    ((v as u8) + 48) as char
}

fn dec_len(n: u64) -> (l: usize)
    ensures
        l == dec_digits(n as nat).len(),
        1 <= l <= 20,
    decreases n,
{
    if n < 10 {
        1
    } else {
        proof {
            lemma_dec_len_bound(n as nat);
        }
        dec_len(n / 10) + 1
    }
}

spec fn pow10(k: nat) -> nat
    decreases k,
{
    if k == 0 {
        1
    } else {
        10 * pow10((k - 1) as nat)
    }
}

proof fn lemma_dec_len_lt(n: nat, k: nat)
    requires
        k >= 1,
        n < pow10(k),
    ensures
        dec_digits(n).len() <= k,
    decreases n,
{
    if n >= 10 {
        assert(k >= 2) by {
            if k == 1 {
                assert(pow10(1) == 10 * pow10(0));
            }
        }
        assert(n / 10 < pow10((k - 1) as nat));
        lemma_dec_len_lt(n / 10, (k - 1) as nat);
    }
}

proof fn lemma_dec_len_bound(n: nat)
    ensures
        1 <= dec_digits(n).len(),
        n <= u64::MAX ==> dec_digits(n).len() <= 20,
    decreases n,
{
    if n >= 10 {
        lemma_dec_len_bound(n / 10);
    }
    if n <= u64::MAX {
        assert(pow10(20) == 100000000000000000000) by {
            reveal_with_fuel(pow10, 21);
        }
        lemma_dec_len_lt(n, 20);
    }
}

fn push_dec(out: &mut Vec<char>, n: u64)
    ensures
        final(out)@ == old(out)@ + dec_digits(n as nat),
    decreases n,
{
    if n >= 10 {
        push_dec(out, n / 10);
    }
    let c = digit_char(n % 10);
    out.push(c);
    assert(final(out)@ =~= old(out)@ + dec_digits(n as nat));
}

/// Appends `n` formatted as `{:0width}`.
pub fn push_dec_pad(out: &mut Vec<char>, n: u64, width: usize)
    ensures
        final(out)@ == old(out)@ + dec_pad(n as nat, width as nat),
{
    let len = dec_len(n);
    let ghost start = out@;
    if len < width {
        let mut k: usize = 0;
        while k < width - len
            invariant
                len < width,
                k <= width - len,
                out@ == start + Seq::new(k as nat, |i: int| '0'),
            decreases width - len - k,
        {
            out.push('0');
            assert(out@ =~= start + Seq::new((k + 1) as nat, |i: int| '0'));
            k = k + 1;
        }
    }
    let ghost mid = out@;
    push_dec(out, n);
    assert(out@ =~= start + dec_pad(n as nat, width as nat));
}

fn push_str_chars(out: &mut Vec<char>, s: &[char])
    ensures
        final(out)@ == old(out)@ + s@,
{
    let ghost start = out@;
    let mut i: usize = 0;
    while i < s.len()
        invariant
            i <= s@.len(),
            out@ == start + s@.subrange(0, i as int),
        decreases s@.len() - i,
    {
        out.push(s[i]);
        assert(out@ =~= start + s@.subrange(0, i + 1));
        i = i + 1;
    }
    assert(s@.subrange(0, i as int) =~= s@);
}

/// The id of the `n`-th engine session: `engine-session-` and `n` as `{:06}`.
pub open spec fn engine_session_id(n: nat) -> Seq<char> {
    seq!['e', 'n', 'g', 'i', 'n', 'e', '-', 's', 'e', 's', 's', 'i', 'o', 'n', '-'] + dec_pad(n, 6)
}

/// A portable session id for the `n`-th engine built in this process (the
/// caller keeps the counter; it starts at 1).
pub fn generated_session_id(n: u64) -> (s: String)
    ensures
        s@ == engine_session_id(n as nat),
{
    let mut out: Vec<char> = Vec::new();
    push_str_chars(
        &mut out,
        &['e', 'n', 'g', 'i', 'n', 'e', '-', 's', 'e', 's', 's', 'i', 'o', 'n', '-'],
    );
    push_dec_pad(&mut out, n, 6);
    chars_to_string(out)
}


/// A Gregorian leap year.
pub open spec fn is_leap(y: int) -> bool {
    (y % 4 == 0 && y % 100 != 0) || y % 400 == 0
}

/// Days in month `m` (1..=12) of year `y`.
pub open spec fn days_in_month(y: int, m: int) -> int {
    if m == 2 {
        if is_leap(y) {
            29
        } else {
            28
        }
    } else if m == 4 || m == 6 || m == 9 || m == 11 {
        30
    } else {
        31
    }
}

/// A real date of the proleptic Gregorian calendar.
pub open spec fn valid_date(y: int, m: int, d: int) -> bool {
    1 <= m <= 12 && 1 <= d <= days_in_month(y, m)
}

/// The number of leap years among years `1 ..= y - 1` (negative below year 1).
pub open spec fn leaps_before(y: int) -> int {
    (y - 1) / 4 - (y - 1) / 100 + (y - 1) / 400
}

/// Days in the months of year `y` before month `m`.
pub open spec fn days_before_month(y: int, m: int) -> int {
    let base: int = if m == 1 {
        0
    } else if m == 2 {
        31
    } else if m == 3 {
        59
    } else if m == 4 {
        90
    } else if m == 5 {
        120
    } else if m == 6 {
        151
    } else if m == 7 {
        181
    } else if m == 8 {
        212
    } else if m == 9 {
        243
    } else if m == 10 {
        273
    } else if m == 11 {
        304
    } else {
        334
    };
    base + if m > 2 && is_leap(y) {
        1int
    } else {
        0int
    }
}

/// The number of days from 1970-01-01 to `y-m-d`.
pub open spec fn days_from_civil(y: int, m: int, d: int) -> int {
    365 * (y - 1970) + leaps_before(y) - leaps_before(1970) + days_before_month(y, m) + d - 1
}

/// Days in year `y`.
pub open spec fn days_in_year(y: int) -> int {
    if is_leap(y) {
        366
    } else {
        365
    }
}

proof fn lemma_step4(y: int)
    ensures
        y / 4 - (y - 1) / 4 == if y % 4 == 0 {
            1int
        } else {
            0int
        },
{
}

proof fn lemma_step100(y: int)
    ensures
        y / 100 - (y - 1) / 100 == if y % 100 == 0 {
            1int
        } else {
            0int
        },
{
}

proof fn lemma_step400(y: int)
    ensures
        y / 400 - (y - 1) / 400 == if y % 400 == 0 {
            1int
        } else {
            0int
        },
{
}

proof fn lemma_next_year(y: int)
    ensures
        days_from_civil(y + 1, 1, 1) == days_from_civil(y, 1, 1) + days_in_year(y),
{
    lemma_step4(y);
    lemma_step100(y);
    lemma_step400(y);
}

proof fn lemma_next_month(y: int, m: int)
    requires
        1 <= m <= 12,
    ensures
        m < 12 ==> days_from_civil(y, m + 1, 1) == days_from_civil(y, m, 1) + days_in_month(y, m),
        m == 12 ==> days_from_civil(y + 1, 1, 1) == days_from_civil(y, m, 1) + days_in_month(y, m),
{
    lemma_next_year(y);
}

proof fn lemma_era_shift(k: int)
    ensures
        days_from_civil(2000 + 400 * k, 1, 1) == 10957 + 146097 * k,
        days_from_civil(2400 + 400 * k, 1, 1) == 10957 + 146097 * (k + 1),
{
    assert((1999 + 400 * k) / 4 == 499 + 100 * k);
    assert((1999 + 400 * k) / 100 == 19 + 4 * k);
    assert((1999 + 400 * k) / 400 == 4 + k);
    assert((2399 + 400 * k) / 4 == 599 + 100 * k);
    assert((2399 + 400 * k) / 100 == 23 + 4 * k);
    assert((2399 + 400 * k) / 400 == 5 + k);
    assert(leaps_before(1970) == 477);
}

fn divisible_by_4(y: i64) -> (b: bool)
    ensures
        b == ((y as int) % 4 == 0),
{
    y % 4 == 0
}

fn divisible_by_100(y: i64) -> (b: bool)
    ensures
        b == ((y as int) % 100 == 0),
{
    y % 100 == 0
}

fn divisible_by_400(y: i64) -> (b: bool)
    ensures
        b == ((y as int) % 400 == 0),
{
    y % 400 == 0
}

fn is_leap_exec(y: i64) -> (b: bool)
    ensures
        b == is_leap(y as int),
{
    (divisible_by_4(y) && !divisible_by_100(y)) || divisible_by_400(y)
}

fn year_len(y: i64) -> (n: i64)
    ensures
        n == days_in_year(y as int),
{
    if is_leap_exec(y) {
        366
    } else {
        365
    }
}

fn month_len(y: i64, m: u32) -> (n: i64)
    requires
        1 <= m <= 12,
    ensures
        n == days_in_month(y as int, m as int),
{
    if m == 2 {
        if is_leap_exec(y) {
            29
        } else {
            28
        }
    } else if m == 4 || m == 6 || m == 9 || m == 11 {
        30
    } else {
        31
    }
}

/// The calendar date `(year, month, day)` that lies `z` days after 1970-01-01.
pub fn civil_from_days(z: i64) -> (r: (i64, u32, u32))
    ensures
        valid_date(r.0 as int, r.1 as int, r.2 as int),
        days_from_civil(r.0 as int, r.1 as int, r.2 as int) == z,
{
    // Eras of 400 years (146097 days) counted from 2000-01-01 (day 10957).
    let shifted: i128 = z as i128 - 10957;
    let era: i128 = if shifted >= 0 {
        shifted / 146097
    } else {
        -((-1 - shifted) / 146097) - 1
    };
    assert(era == (shifted as int) / 146097);
    proof {
        vstd::arithmetic::div_mod::lemma_fundamental_div_mod(shifted as int, 146097);
        assert(era * 146097 == (shifted as int) - (shifted as int) % 146097);
    }
    let rem0: i128 = shifted - era * 146097;
    assert(-64000000000000000 < era < 64000000000000000);
    let mut year: i64 = (2000 + 400 * era) as i64;
    let mut rem: i64 = rem0 as i64;
    let ghost y0 = year as int;
    proof {
        lemma_era_shift(era as int);
    }
    while rem >= year_len(year)
        invariant
            0 <= rem,
            y0 <= year <= y0 + 400,
            y0 == 2000 + 400 * era,
            days_from_civil(year as int, 1, 1) + rem == z,
            z < days_from_civil(y0 + 400, 1, 1),
            y0 + 400 <= i64::MAX,
        decreases y0 + 400 - year,
    {
        proof {
            lemma_next_year(year as int);
            if year == y0 + 400 {
                assert(false);
            }
        }
        rem = rem - year_len(year);
        year = year + 1;
    }
    proof {
        lemma_next_year(year as int);
    }
    let mut month: u32 = 1;
    while rem >= month_len(year, month)
        invariant
            0 <= rem,
            1 <= month <= 12,
            days_from_civil(year as int, month as int, 1) + rem == z,
            z < days_from_civil(year as int + 1, 1, 1),
        decreases 12 - month,
    {
        proof {
            lemma_next_month(year as int, month as int);
        }
        let len = month_len(year, month);
        rem = rem - len;
        month = month + 1;
    }
    proof {
        lemma_next_month(year as int, month as int);
    }
    (year, month, (rem + 1) as u32)
}


proof fn lemma_before_1970_is_negative(y: int, m: int, d: int)
    requires
        valid_date(y, m, d),
        y < 1970,
    ensures
        days_from_civil(y, m, d) < 0,
{
    lemma_next_year(y);
    assert(days_before_month(y, m) + d - 1 < days_in_year(y));
    if y == 1969 {
        assert(leaps_before(1970) == 477);
    } else {
        assert(leaps_before(1970) == 477);
    }
}

/// The session id text for a moment `secs` seconds and `millis` milliseconds
/// after the Unix epoch, given its UTC calendar date:
/// `YYYYMMDD-HHMMSS-mmm`.
pub open spec fn session_id_text(y: nat, m: nat, d: nat, secs: nat, millis: nat) -> Seq<char> {
    let sod = secs % 86400;
    dec_pad(y, 4) + dec_pad(m, 2) + dec_pad(d, 2) + seq!['-'] + dec_pad(sod / 3600, 2) + dec_pad(
        (sod % 3600) / 60,
        2,
    ) + dec_pad(sod % 60, 2) + seq!['-'] + dec_pad(millis, 3)
}

/// `id` is the session id of the moment `secs` seconds and `millis`
/// milliseconds after the Unix epoch.
pub open spec fn is_session_id_for(id: Seq<char>, secs: u64, millis: u32) -> bool {
    forall|y: int, m: int, d: int|
        valid_date(y, m, d) && days_from_civil(y, m, d) == secs / 86400 ==> id
            == session_id_text(y as nat, m as nat, d as nat, secs as nat, millis as nat)
}

/// The readable, sortable id of a session that starts `secs` seconds and
/// `millis` milliseconds after the Unix epoch (UTC), e.g. `20260725-201530-123`.
pub fn session_id_at(secs: u64, millis: u32) -> (s: String)
    ensures
        forall|y: int, m: int, d: int|
            valid_date(y, m, d) && days_from_civil(y, m, d) == secs / 86400 ==> y >= 1970
                && s@ == session_id_text(y as nat, m as nat, d as nat, secs as nat, millis as nat),
        is_session_id_for(s@, secs, millis),
{
    let days = secs / 86_400;
    let secs_of_day = secs % 86_400;
    let hour = secs_of_day / 3600;
    let minute = (secs_of_day % 3600) / 60;
    let second = secs_of_day % 60;
    let (year, month, day) = civil_from_days(days as i64);
    proof {
        if year < 1970 {
            lemma_before_1970_is_negative(year as int, month as int, day as int);
        }
    }
    let mut out: Vec<char> = Vec::new();
    push_dec_pad(&mut out, year as u64, 4);
    push_dec_pad(&mut out, month as u64, 2);
    push_dec_pad(&mut out, day as u64, 2);
    out.push('-');
    push_dec_pad(&mut out, hour, 2);
    push_dec_pad(&mut out, minute, 2);
    push_dec_pad(&mut out, second, 2);
    out.push('-');
    push_dec_pad(&mut out, millis as u64, 3);
    proof {
        assert forall|y: int, m: int, d: int|
            valid_date(y, m, d) && days_from_civil(y, m, d) == secs / 86400 implies y >= 1970
            && out@ == session_id_text(y as nat, m as nat, d as nat, secs as nat, millis as nat) by {
            lemma_civil_unique(y, m, d, year as int, month as int, day as int);
            assert(out@ =~= session_id_text(
                year as nat,
                month as nat,
                day as nat,
                secs as nat,
                millis as nat,
            ));
        }
    }
    chars_to_string(out)
}

/// Two real dates with the same day count are the same date.
pub proof fn lemma_civil_unique(y1: int, m1: int, d1: int, y2: int, m2: int, d2: int)
    requires
        valid_date(y1, m1, d1),
        valid_date(y2, m2, d2),
        days_from_civil(y1, m1, d1) == days_from_civil(y2, m2, d2),
    ensures
        y1 == y2 && m1 == m2 && d1 == d2,
{
    if y1 < y2 {
        lemma_year_start_order(y1, y2);
    }
    if y2 < y1 {
        lemma_year_start_order(y2, y1);
    }
    lemma_next_year(y1);
    lemma_next_year(y2);
    assert(days_before_month(y1, m1) + d1 - 1 < days_in_year(y1));
    assert(days_before_month(y2, m2) + d2 - 1 < days_in_year(y2));
    assert(y1 == y2);
}

/// A later year starts at least a full year's days later.
proof fn lemma_year_start_order(a: int, b: int)
    requires
        a < b,
    ensures
        days_from_civil(a, 1, 1) + days_in_year(a) <= days_from_civil(b, 1, 1),
    decreases b - a,
{
    lemma_next_year(a);
    if a + 1 < b {
        lemma_year_start_order(a + 1, b);
        lemma_next_year(a + 1);
    }
}

/// Seconds and milliseconds since the Unix epoch, read from the system clock.
///
/// Trusted: calls `SystemTime::elapsed` on `UNIX_EPOCH` (the time from the
/// epoch to the clock's present reading) and splits the `Duration` into
/// whole seconds and milliseconds; claims only that the millisecond part is
/// below 1000. `None` when the clock reads before the epoch. Two calls may
/// give any values.
#[verifier::external_body]
fn unix_time_now() -> (r: Option<(u64, u32)>)
    ensures
        r matches Some(t) ==> t.1 < 1000,
{
    match std::time::UNIX_EPOCH.elapsed() {
        Ok(d) => Some((d.as_secs(), d.subsec_millis())),
        Err(_) => None,
    }
}

/// A readable, sortable session id derived from the wall clock, e.g.
/// `20260725-201530-123`; `None` when the clock reads before the Unix epoch.
pub fn new_session_id() -> (s: Option<String>)
    ensures
        s is Some ==> exists|secs: u64, millis: u32|
            millis < 1000 && #[trigger] is_session_id_for(s->0@, secs, millis),
{
    match unix_time_now() {
        Some((secs, millis)) => {
            let id = session_id_at(secs, millis);
            let r = Some(id);
            assert(is_session_id_for(r->0@, secs, millis));
            assert(millis < 1000);
            assert(exists|s2: u64, m2: u32| m2 < 1000 && #[trigger] is_session_id_for(r->0@, s2, m2));
            r
        },
        None => None,
    }
}


/// The last `w` decimal digits of `n`, zero-padded.
spec fn fixed_digits(n: nat, w: nat) -> Seq<char>
    decreases w,
{
    if w == 0 {
        Seq::empty()
    } else {
        fixed_digits(n / 10, (w - 1) as nat).push(dec_digit((n % 10) as int))
    }
}

proof fn lemma_fixed_zero(w: nat)
    ensures
        fixed_digits(0, w) == Seq::new(w, |i: int| '0'),
    decreases w,
{
    if w > 0 {
        lemma_fixed_zero((w - 1) as nat);
        assert(dec_digit(0) == '0');
        assert(fixed_digits(0, w) =~= Seq::new(w, |i: int| '0'));
    }
}

proof fn lemma_pad_is_fixed(n: nat, w: nat)
    requires
        w >= 1,
        n < pow10(w),
    ensures
        dec_pad(n, w) == fixed_digits(n, w),
    decreases w,
{
    if n < 10 {
        lemma_fixed_zero((w - 1) as nat);
        assert(dec_digits(n) == seq![dec_digit(n as int)]);
        assert(dec_pad(n, w) =~= fixed_digits(n, w));
    } else {
        assert(w >= 2) by {
            if w == 1 {
                assert(pow10(1) == 10 * pow10(0));
            }
        }
        assert(n / 10 < pow10((w - 1) as nat));
        lemma_pad_is_fixed(n / 10, (w - 1) as nat);
        lemma_dec_len_lt(n / 10, (w - 1) as nat);
        let d = dec_digits(n / 10);
        assert(dec_digits(n) == d.push(dec_digit((n % 10) as int)));
        assert(dec_pad(n, w) =~= dec_pad(n / 10, (w - 1) as nat).push(dec_digit((n % 10) as int)));
    }
}

proof fn lemma_fixed_len(n: nat, w: nat)
    ensures
        fixed_digits(n, w).len() == w,
    decreases w,
{
    if w > 0 {
        lemma_fixed_len(n / 10, (w - 1) as nat);
    }
}

/// Text comparison of two concatenations whose first parts have the same
/// length: decided by the first parts, or by the rest when they are equal.
proof fn lemma_cat_lt(x1: Seq<char>, x2: Seq<char>, r1: Seq<char>, r2: Seq<char>)
    requires
        x1.len() == x2.len(),
        text_lt(x1, x2) || (x1 == x2 && text_lt(r1, r2)),
    ensures
        text_lt(x1 + r1, x2 + r2),
    decreases x1.len(),
{
    if x1.len() == 0 {
        assert(x1 + r1 =~= r1);
        assert(x2 + r2 =~= r2);
    } else {
        assert((x1 + r1)[0] == x1[0]);
        assert((x2 + r2)[0] == x2[0]);
        if x1[0] == x2[0] {
            assert((x1 + r1).drop_first() =~= x1.drop_first() + r1);
            assert((x2 + r2).drop_first() =~= x2.drop_first() + r2);
            if x1 == x2 {
                assert(x1.drop_first() == x2.drop_first());
            }
            lemma_cat_lt(x1.drop_first(), x2.drop_first(), r1, r2);
        }
    }
}

proof fn lemma_fixed_order(a: nat, b: nat, w: nat)
    requires
        a < b < pow10(w),
    ensures
        text_lt(fixed_digits(a, w), fixed_digits(b, w)),
    decreases w,
{
    if w == 0 {
        assert(pow10(0) == 1);
    } else {
        assert(b / 10 < pow10((w - 1) as nat));
        lemma_fixed_len(a / 10, (w - 1) as nat);
        lemma_fixed_len(b / 10, (w - 1) as nat);
        let da = seq![dec_digit((a % 10) as int)];
        let db = seq![dec_digit((b % 10) as int)];
        assert(fixed_digits(a, w) =~= fixed_digits(a / 10, (w - 1) as nat) + da);
        assert(fixed_digits(b, w) =~= fixed_digits(b / 10, (w - 1) as nat) + db);
        if a / 10 < b / 10 {
            lemma_fixed_order(a / 10, b / 10, (w - 1) as nat);
        } else {
            assert(a % 10 < b % 10);
            assert(dec_digit((a % 10) as int) < dec_digit((b % 10) as int));
            assert(text_lt(da, db));
        }
        lemma_cat_lt(fixed_digits(a / 10, (w - 1) as nat), fixed_digits(b / 10, (w - 1) as nat), da, db);
    }
}

proof fn lemma_pad_order(a: nat, b: nat, w: nat)
    requires
        w >= 1,
        a <= b < pow10(w),
    ensures
        dec_pad(a, w).len() == w,
        dec_pad(b, w).len() == w,
        a < b ==> text_lt(dec_pad(a, w), dec_pad(b, w)),
{
    lemma_pad_is_fixed(a, w);
    lemma_pad_is_fixed(b, w);
    lemma_fixed_len(a, w);
    lemma_fixed_len(b, w);
    if a < b {
        lemma_fixed_order(a, b, w);
    }
}

proof fn lemma_date_order(y1: int, m1: int, d1: int, y2: int, m2: int, d2: int)
    requires
        valid_date(y1, m1, d1),
        valid_date(y2, m2, d2),
        y1 < y2 || (y1 == y2 && m1 < m2) || (y1 == y2 && m1 == m2 && d1 < d2),
    ensures
        days_from_civil(y1, m1, d1) < days_from_civil(y2, m2, d2),
{
    if y1 < y2 {
        lemma_year_start_order(y1, y2);
        lemma_next_year(y1);
        assert(days_before_month(y1, m1) + d1 - 1 < days_in_year(y1));
    }
}

spec fn date_text(y: nat, m: nat, d: nat) -> Seq<char> {
    dec_pad(y, 4) + dec_pad(m, 2) + dec_pad(d, 2)
}

spec fn time_text(sod: nat, millis: nat) -> Seq<char> {
    seq!['-'] + dec_pad(sod / 3600, 2) + dec_pad((sod % 3600) / 60, 2) + dec_pad(sod % 60, 2)
        + seq!['-'] + dec_pad(millis, 3)
}

proof fn lemma_pow10_small()
    ensures
        pow10(2) == 100,
        pow10(3) == 1000,
        pow10(4) == 10000,
{
    reveal_with_fuel(pow10, 5);
}

proof fn lemma_date_text_order(y1: nat, m1: nat, d1: nat, y2: nat, m2: nat, d2: nat)
    requires
        y1 <= y2 < 10000,
        1 <= m1 <= 12,
        1 <= m2 <= 12,
        1 <= d1 <= 31,
        1 <= d2 <= 31,
        y1 < y2 || (y1 == y2 && m1 < m2) || (y1 == y2 && m1 == m2 && d1 < d2),
    ensures
        date_text(y1, m1, d1).len() == 8,
        date_text(y2, m2, d2).len() == 8,
        text_lt(date_text(y1, m1, d1), date_text(y2, m2, d2)),
{
    lemma_pow10_small();
    lemma_pad_order(y1, y2, 4);
    if m1 <= m2 {
        lemma_pad_order(m1, m2, 2);
    } else {
        lemma_pad_order(m2, m1, 2);
    }
    if d1 <= d2 {
        lemma_pad_order(d1, d2, 2);
    } else {
        lemma_pad_order(d2, d1, 2);
    }
    let p1 = dec_pad(y1, 4) + dec_pad(m1, 2);
    let p2 = dec_pad(y2, 4) + dec_pad(m2, 2);
    if y1 < y2 || m1 < m2 {
        lemma_cat_lt(dec_pad(y1, 4), dec_pad(y2, 4), dec_pad(m1, 2), dec_pad(m2, 2));
    } else {
        assert(p1 == p2);
    }
    lemma_cat_lt(p1, p2, dec_pad(d1, 2), dec_pad(d2, 2));
}

proof fn lemma_time_text_order(sod1: nat, millis1: nat, sod2: nat, millis2: nat)
    requires
        sod1 < 86400,
        sod2 < 86400,
        millis1 < 1000,
        millis2 < 1000,
        sod1 < sod2 || (sod1 == sod2 && millis1 < millis2),
    ensures
        text_lt(time_text(sod1, millis1), time_text(sod2, millis2)),
{
    lemma_pow10_small();
    let h1 = sod1 / 3600;
    let h2 = sod2 / 3600;
    let n1 = (sod1 % 3600) / 60;
    let n2 = (sod2 % 3600) / 60;
    let c1 = sod1 % 60;
    let c2 = sod2 % 60;
    assert(h1 < 24 && h2 < 24 && n1 < 60 && n2 < 60);
    assert(sod1 == 3600 * h1 + 60 * n1 + c1);
    assert(sod2 == 3600 * h2 + 60 * n2 + c2);
    if h1 <= h2 {
        lemma_pad_order(h1, h2, 2);
    } else {
        lemma_pad_order(h2, h1, 2);
    }
    if n1 <= n2 {
        lemma_pad_order(n1, n2, 2);
    } else {
        lemma_pad_order(n2, n1, 2);
    }
    if c1 <= c2 {
        lemma_pad_order(c1, c2, 2);
    } else {
        lemma_pad_order(c2, c1, 2);
    }
    if millis1 <= millis2 {
        lemma_pad_order(millis1, millis2, 3);
    } else {
        lemma_pad_order(millis2, millis1, 3);
    }
    let dash = seq!['-'];
    let hh1 = dec_pad(h1, 2);
    let hh2 = dec_pad(h2, 2);
    let nn1 = dec_pad(n1, 2);
    let nn2 = dec_pad(n2, 2);
    let cc1 = dec_pad(c1, 2);
    let cc2 = dec_pad(c2, 2);
    let f1 = dash + hh1;
    let f2 = dash + hh2;
    let g1 = f1 + nn1;
    let g2 = f2 + nn2;
    let i1 = g1 + cc1;
    let i2 = g2 + cc2;
    let j1 = i1 + dash;
    let j2 = i2 + dash;
    if h1 < h2 {
        lemma_cat_lt(dash, dash, hh1, hh2);
        lemma_cat_lt(f1, f2, nn1, nn2);
        lemma_cat_lt(g1, g2, cc1, cc2);
        lemma_cat_lt(i1, i2, dash, dash);
    } else if n1 < n2 {
        assert(h1 == h2);
        assert(f1 == f2);
        lemma_cat_lt(f1, f2, nn1, nn2);
        lemma_cat_lt(g1, g2, cc1, cc2);
        lemma_cat_lt(i1, i2, dash, dash);
    } else if c1 < c2 {
        assert(h1 == h2 && n1 == n2);
        assert(g1 == g2);
        lemma_cat_lt(g1, g2, cc1, cc2);
        lemma_cat_lt(i1, i2, dash, dash);
    } else {
        assert(h1 == h2 && n1 == n2 && c1 == c2);
        assert(j1 == j2);
    }
    lemma_cat_lt(j1, j2, dec_pad(millis1, 3), dec_pad(millis2, 3));
}

proof fn lemma_id_split(y: nat, m: nat, d: nat, secs: nat, millis: nat)
    ensures
        session_id_text(y, m, d, secs, millis) == date_text(y, m, d) + time_text(
            secs % 86400,
            millis,
        ),
{
    assert(session_id_text(y, m, d, secs, millis) =~= date_text(y, m, d) + time_text(
        secs % 86400,
        millis,
    ));
}

proof fn lemma_dates_follow_days(
    day1: int,
    y1: int,
    m1: int,
    d1: int,
    day2: int,
    y2: int,
    m2: int,
    d2: int,
)
    requires
        valid_date(y1, m1, d1),
        days_from_civil(y1, m1, d1) == day1,
        valid_date(y2, m2, d2),
        days_from_civil(y2, m2, d2) == day2,
        0 <= day1 <= day2,
    ensures
        y1 >= 1970,
        day1 == day2 ==> y1 == y2 && m1 == m2 && d1 == d2,
        day1 < day2 ==> y1 < y2 || (y1 == y2 && m1 < m2) || (y1 == y2 && m1 == m2 && d1 < d2),
{
    if y1 < 1970 {
        lemma_before_1970_is_negative(y1, m1, d1);
    }
    if day1 == day2 {
        lemma_civil_unique(y1, m1, d1, y2, m2, d2);
    } else {
        let before = y1 < y2 || (y1 == y2 && m1 < m2) || (y1 == y2 && m1 == m2 && d1 < d2);
        if !before {
            if y1 == y2 && m1 == m2 && d1 == d2 {
            } else {
                lemma_date_order(y2, m2, d2, y1, m1, d1);
            }
        }
    }
}

/// Session ids sort chronologically: for two moments after the Unix epoch
/// and before the year 10000, given the UTC date of each, the id of the
/// earlier moment orders first as text (and so does its recording's file
/// name).
pub proof fn lemma_session_ids_chronological(
    secs1: u64,
    millis1: u32,
    y1: int,
    m1: int,
    d1: int,
    secs2: u64,
    millis2: u32,
    y2: int,
    m2: int,
    d2: int,
)
    requires
        valid_date(y1, m1, d1),
        days_from_civil(y1, m1, d1) == secs1 / 86400,
        valid_date(y2, m2, d2),
        days_from_civil(y2, m2, d2) == secs2 / 86400,
        y2 < 10000,
        millis1 < 1000,
        millis2 < 1000,
        secs1 < secs2 || (secs1 == secs2 && millis1 < millis2),
    ensures
        text_lt(
            session_id_text(y1 as nat, m1 as nat, d1 as nat, secs1 as nat, millis1 as nat),
            session_id_text(y2 as nat, m2 as nat, d2 as nat, secs2 as nat, millis2 as nat),
        ),
{
    let day1 = (secs1 / 86400) as int;
    let day2 = (secs2 / 86400) as int;
    assert(day1 <= day2);
    lemma_dates_follow_days(day1, y1, m1, d1, day2, y2, m2, d2);
    let sod1 = (secs1 as nat) % 86400;
    let sod2 = (secs2 as nat) % 86400;
    let a1 = date_text(y1 as nat, m1 as nat, d1 as nat);
    let a2 = date_text(y2 as nat, m2 as nat, d2 as nat);
    let b1 = time_text(sod1, millis1 as nat);
    let b2 = time_text(sod2, millis2 as nat);
    lemma_id_split(y1 as nat, m1 as nat, d1 as nat, secs1 as nat, millis1 as nat);
    lemma_id_split(y2 as nat, m2 as nat, d2 as nat, secs2 as nat, millis2 as nat);
    if day1 == day2 {
        assert(sod1 < sod2 || (sod1 == sod2 && millis1 < millis2));
        lemma_time_text_order(sod1, millis1 as nat, sod2, millis2 as nat);
        lemma_pow10_small();
        lemma_pad_order(y1 as nat, y1 as nat, 4);
        lemma_pad_order(m1 as nat, m1 as nat, 2);
        lemma_pad_order(d1 as nat, d1 as nat, 2);
        assert(a1 == a2);
        lemma_cat_lt(a1, a2, b1, b2);
    } else {
        lemma_date_text_order(y1 as nat, m1 as nat, d1 as nat, y2 as nat, m2 as nat, d2 as nat);
        lemma_cat_lt(a1, a2, b1, b2);
    }
}

proof fn lemma_dec_digit_code(v: int)
    requires
        0 <= v < 10,
    ensures
        dec_digit(v) as int == v + 48,
{
    assert(((v + 48) as u8) as int == v + 48);
}

/// The number a text of decimal digits spells.
spec fn dec_value(s: Seq<char>) -> int
    decreases s.len(),
{
    if s.len() == 0 {
        0
    } else {
        dec_value(s.drop_last()) * 10 + (s.last() as int - 48)
    }
}

proof fn lemma_value_of_zeros_then(k: nat, d: Seq<char>)
    ensures
        dec_value(Seq::new(k, |i: int| '0') + d) == dec_value(d),
    decreases d.len(),
{
    let z = Seq::new(k, |i: int| '0');
    if d.len() == 0 {
        assert(z + d =~= z);
        lemma_value_of_zeros(k);
    } else {
        assert((z + d).drop_last() =~= z + d.drop_last());
        assert((z + d).last() == d.last());
        lemma_value_of_zeros_then(k, d.drop_last());
    }
}

proof fn lemma_value_of_zeros(k: nat)
    ensures
        dec_value(Seq::new(k, |i: int| '0')) == 0,
    decreases k,
{
    if k > 0 {
        assert(Seq::new(k, |i: int| '0').drop_last() =~= Seq::new((k - 1) as nat, |i: int| '0'));
        lemma_value_of_zeros((k - 1) as nat);
    }
}

proof fn lemma_value_of_digits(n: nat)
    ensures
        dec_value(dec_digits(n)) == n,
    decreases n,
{
    lemma_dec_digit_code((n % 10) as int);
    let ds = dec_digits(n);
    assert(ds.len() > 0);
    assert(dec_value(ds) == dec_value(ds.drop_last()) * 10 + (ds.last() as int - 48));
    if n < 10 {
        assert(dec_digits(n).drop_last() =~= Seq::<char>::empty());
        assert(dec_digits(n).last() == dec_digit(n as int));
    } else {
        lemma_value_of_digits(n / 10);
        assert(dec_digits(n).drop_last() == dec_digits(n / 10));
        assert(dec_digits(n).last() == dec_digit((n % 10) as int));
        assert(n == (n / 10) * 10 + n % 10);
    }
}

proof fn lemma_value_of_pad(n: nat, w: nat)
    ensures
        dec_value(dec_pad(n, w)) == n,
{
    lemma_value_of_digits(n);
    if dec_digits(n).len() < w {
        lemma_value_of_zeros_then((w - dec_digits(n).len()) as nat, dec_digits(n));
    }
}

/// Engine sessions built from different counter values get different ids.
pub proof fn lemma_generated_ids_distinct(a: nat, b: nat)
    requires
        a != b,
    ensures
        engine_session_id(a) != engine_session_id(b),
{
    let p = seq!['e', 'n', 'g', 'i', 'n', 'e', '-', 's', 'e', 's', 's', 'i', 'o', 'n', '-'];
    lemma_value_of_pad(a, 6);
    lemma_value_of_pad(b, 6);
    if engine_session_id(a) == engine_session_id(b) {
        assert(engine_session_id(a).subrange(15, engine_session_id(a).len() as int) =~= dec_pad(
            a,
            6,
        ));
        assert(engine_session_id(b).subrange(15, engine_session_id(b).len() as int) =~= dec_pad(
            b,
            6,
        ));
    }
}

} // verus!
