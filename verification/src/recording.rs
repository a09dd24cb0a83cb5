//! The text of a recorded session: newline-delimited SDTP JSON, or a single
//! JSON array of envelopes. This module frames the text; turning one line or
//! the array into envelopes is a JSON parse done outside the library.
use vstd::prelude::*;

use crate::hex::chars_to_string;
use crate::names::{chars_of, EngineError};
use crate::protocol::Envelope;

verus! {

/// A character with the Unicode `White_Space` property (`char::is_whitespace`).
pub open spec fn is_white(c: char) -> bool {
    ||| ('\u{9}' <= c <= '\u{d}')
    ||| c == ' '
    ||| c == '\u{85}'
    ||| c == '\u{a0}'
    ||| c == '\u{1680}'
    ||| ('\u{2000}' <= c <= '\u{200a}')
    ||| c == '\u{2028}'
    ||| c == '\u{2029}'
    ||| c == '\u{202f}'
    ||| c == '\u{205f}'
    ||| c == '\u{3000}'
}

pub fn is_space(c: char) -> (b: bool)
    ensures
        b == is_white(c),
{
    ('\u{9}' <= c && c <= '\u{d}') || c == ' ' || c == '\u{85}' || c == '\u{a0}' || c == '\u{1680}'
        || ('\u{2000}' <= c && c <= '\u{200a}') || c == '\u{2028}' || c == '\u{2029}' || c
        == '\u{202f}' || c == '\u{205f}' || c == '\u{3000}'
}

/// Nothing but whitespace (`s.trim().is_empty()`).
pub open spec fn is_blank(s: Seq<char>) -> bool {
    forall|i: int| 0 <= i < s.len() ==> is_white(#[trigger] s[i])
}

/// The number of leading whitespace characters.
pub open spec fn leading_space(s: Seq<char>) -> nat
    decreases s.len(),
{
    if s.len() > 0 && is_white(s[0]) {
        1 + leading_space(s.drop_first())
    } else {
        0
    }
}

/// `s.trim_start()`.
pub open spec fn trim_start(s: Seq<char>) -> Seq<char> {
    s.subrange(leading_space(s) as int, s.len() as int)
}

/// A line as `str::lines` yields it: one `\r` before its `\n` removed.
pub open spec fn strip_cr(line: Seq<char>) -> Seq<char> {
    if line.len() > 0 && line.last() == '\r' {
        line.drop_last()
    } else {
        line
    }
}

/// `str::lines` as a scan: `cur` is the line read so far, `acc` the lines
/// finished; a last line without a newline counts when it is not empty.
pub open spec fn lines_from(s: Seq<char>, cur: Seq<char>, acc: Seq<Seq<char>>) -> Seq<Seq<char>>
    decreases s.len(),
{
    if s.len() == 0 {
        if cur.len() > 0 {
            acc.push(cur)
        } else {
            acc
        }
    } else if s[0] == '\n' {
        lines_from(s.drop_first(), Seq::empty(), acc.push(strip_cr(cur)))
    } else {
        lines_from(s.drop_first(), cur.push(s[0]), acc)
    }
}

/// The lines of `s` (`str::lines`).
pub open spec fn lines(s: Seq<char>) -> Seq<Seq<char>> {
    lines_from(s, Seq::empty(), Seq::empty())
}

/// The lines of `s` that are not blank, in order.
pub open spec fn nonblank(ls: Seq<Seq<char>>) -> Seq<Seq<char>>
    decreases ls.len(),
{
    if ls.len() == 0 {
        Seq::empty()
    } else if is_blank(ls.last()) {
        nonblank(ls.drop_last())
    } else {
        nonblank(ls.drop_last()).push(ls.last())
    }
}

/// How a recording's text is to be read.
pub enum RecordingText {
    /// A JSON array of envelopes (the text with leading whitespace removed).
    Array(String),
    /// Newline-delimited JSON: the non-blank lines, one envelope each.
    Lines(Vec<String>),
}

/// Skipping `i` leading whitespace characters leaves the rest of the leading whitespace.
pub proof fn lemma_leading_space_step(s: Seq<char>, i: int)
    requires
        0 <= i <= s.len(),
        forall|k: int| 0 <= k < i ==> is_white(#[trigger] s[k]),
    ensures
        leading_space(s) == i + leading_space(s.subrange(i, s.len() as int)),
    decreases i,
{
    if i == 0 {
        assert(s.subrange(0, s.len() as int) =~= s);
    } else {
        assert(is_white(s[0]));
        let t = s.drop_first();
        assert forall|k: int| 0 <= k < i - 1 implies is_white(#[trigger] t[k]) by {
            assert(t[k] == s[k + 1]);
        }
        lemma_leading_space_step(t, i - 1);
        assert(t.subrange(i - 1, t.len() as int) =~= s.subrange(i, s.len() as int));
    }
}

proof fn lemma_lines_step(s: Seq<char>, i: int, cur: Seq<char>, acc: Seq<Seq<char>>)
    requires
        0 <= i < s.len(),
    ensures
        lines_from(s.subrange(i, s.len() as int), cur, acc) == if s[i] == '\n' {
            lines_from(s.subrange(i + 1, s.len() as int), Seq::empty(), acc.push(strip_cr(cur)))
        } else {
            lines_from(s.subrange(i + 1, s.len() as int), cur.push(s[i]), acc)
        },
{
    let t = s.subrange(i, s.len() as int);
    assert(t.drop_first() =~= s.subrange(i + 1, s.len() as int));
    assert(t[0] == s[i]);
}

proof fn lemma_nonblank_push(ls: Seq<Seq<char>>, l: Seq<char>)
    ensures
        nonblank(ls.push(l)) == if is_blank(l) {
            nonblank(ls)
        } else {
            nonblank(ls).push(l)
        },
{
    assert(ls.push(l).drop_last() =~= ls);
}

fn blank(line: &Vec<char>) -> (b: bool)
    ensures
        b == is_blank(line@),
{
    let mut i: usize = 0;
    while i < line.len()
        invariant
            i <= line@.len(),
            forall|k: int| 0 <= k < i ==> is_white(#[trigger] line@[k]),
        decreases line@.len() - i,
    {
        if !is_space(line[i]) {
            return false;
        }
        i = i + 1;
    }
    true
}

fn finish_line(line: Vec<char>) -> (r: Vec<char>)
    ensures
        r@ == strip_cr(line@),
{
    let mut line = line;
    if line.len() > 0 && line[line.len() - 1] == '\r' {
        line.pop();
    }
    line
}

/// Decides how to read a recording: a JSON array when its first non-space
/// character is `[`, otherwise its non-blank lines.
pub fn split_recording(text: &str) -> (r: RecordingText)
    ensures
        match r {
            RecordingText::Array(t) => trim_start(text@).len() > 0 && trim_start(text@)[0] == '['
                && t@ == trim_start(text@),
            RecordingText::Lines(ls) => !(trim_start(text@).len() > 0 && trim_start(text@)[0]
                == '[') && ls@.map_values(|l: String| l@) == nonblank(lines(text@)),
        },
{
    let cs = chars_of(text);
    let n = cs.len();
    let mut i: usize = 0;
    while i < n && is_space(cs[i])
        invariant
            cs@ == text@,
            n == cs@.len(),
            i <= n,
            forall|k: int| 0 <= k < i ==> is_white(#[trigger] cs@[k]),
        decreases n - i,
    {
        i = i + 1;
    }
    proof {
        lemma_leading_space_step(cs@, i as int);
        if i < n {
            assert(cs@.subrange(i as int, n as int)[0] == cs@[i as int]);
        }
        assert(leading_space(cs@) == i);
    }
    if i < n && cs[i] == '[' {
        let mut rest: Vec<char> = Vec::new();
        let mut j = i;
        while j < n
            invariant
                cs@ == text@,
                n == cs@.len(),
                i <= j <= n,
                rest@ == cs@.subrange(i as int, j as int),
            decreases n - j,
        {
            rest.push(cs[j]);
            assert(rest@ =~= cs@.subrange(i as int, j + 1));
            j = j + 1;
        }
        return RecordingText::Array(chars_to_string(rest));
    }
    let mut out: Vec<String> = Vec::new();
    let mut cur: Vec<char> = Vec::new();
    let ghost mut acc: Seq<Seq<char>> = Seq::empty();
    let mut k: usize = 0;
    proof {
        assert(cs@.subrange(0, n as int) =~= cs@);
    }
    while k < n
        invariant
            cs@ == text@,
            n == cs@.len(),
            k <= n,
            lines(text@) == lines_from(cs@.subrange(k as int, n as int), cur@, acc),
            out@.map_values(|l: String| l@) == nonblank(acc),
        decreases n - k,
    {
        proof {
            lemma_lines_step(cs@, k as int, cur@, acc);
        }
        if cs[k] == '\n' {
            let line = finish_line(cur);
            proof {
                lemma_nonblank_push(acc, line@);
                acc = acc.push(line@);
            }
            if !blank(&line) {
                let s = chars_to_string(line);
                let ghost before = out@;
                out.push(s);
                assert(out@.map_values(|l: String| l@) =~= before.map_values(|l: String| l@).push(
                    s@,
                ));
            }
            cur = Vec::new();
        } else {
            let ghost prev = cur@;
            cur.push(cs[k]);
            assert(cur@ =~= prev.push(cs@[k as int]));
        }
        k = k + 1;
    }
    proof {
        assert(cs@.subrange(n as int, n as int) =~= Seq::<char>::empty());
        if cur@.len() > 0 {
            lemma_nonblank_push(acc, cur@);
        }
    }
    if cur.len() > 0 && !blank(&cur) {
        let s = chars_to_string(cur);
        let ghost before = out@;
        out.push(s);
        assert(out@.map_values(|l: String| l@) =~= before.map_values(|l: String| l@).push(s@));
    }
    RecordingText::Lines(out)
}

/// The envelopes that parsed, in order; an error when no line gave one.
pub fn collect_envelopes(parsed: Vec<Option<Envelope>>) -> (r: Result<Vec<Envelope>, EngineError>)
    ensures
        match r {
            Ok(v) => v@.len() > 0 && v@ == kept(parsed@),
            Err(e) => kept(parsed@).len() == 0 && e.0@
                == "recording contains no valid SDTP envelopes"@,
        },
{
    let mut out: Vec<Envelope> = Vec::new();
    let mut parsed = parsed;
    let total = parsed.len();
    let ghost all = parsed@;
    let mut rev: Vec<Option<Envelope>> = Vec::new();
    while parsed.len() > 0
        invariant
            parsed@.len() + rev@.len() == all.len(),
            parsed@ == all.subrange(0, parsed@.len() as int),
            forall|k: int| 0 <= k < rev@.len() ==> #[trigger] rev@[k] == all[all.len() - 1 - k],
        decreases parsed@.len(),
    {
        let e = parsed.pop().unwrap();
        rev.push(e);
        assert(parsed@ =~= all.subrange(0, parsed@.len() as int));
    }
    let mut i: usize = 0;
    assert(all.subrange(0, 0) =~= Seq::<Option<Envelope>>::empty());
    while rev.len() > 0
        invariant
            i + rev@.len() == all.len(),
            all.len() == total,
            forall|k: int| 0 <= k < rev@.len() ==> #[trigger] rev@[k] == all[all.len() - 1 - k],
            out@ == kept(all.subrange(0, i as int)),
        decreases rev@.len(),
    {
        let e = rev.pop().unwrap();
        assert(all.subrange(0, i + 1).drop_last() =~= all.subrange(0, i as int));
        match e {
            Some(env) => {
                out.push(env);
            },
            None => {},
        }
        i = i + 1;
    }
    assert(all.subrange(0, i as int) =~= all);
    if out.len() == 0 {
        return Err(EngineError("recording contains no valid SDTP envelopes".to_string()));
    }
    Ok(out)
}

/// The envelopes among `parsed`, in order.
pub open spec fn kept(parsed: Seq<Option<Envelope>>) -> Seq<Envelope>
    decreases parsed.len(),
{
    if parsed.len() == 0 {
        Seq::empty()
    } else {
        match parsed.last() {
            Some(e) => kept(parsed.drop_last()).push(e),
            None => kept(parsed.drop_last()),
        }
    }
}

/// `lines` joined with `\n` between them.
pub open spec fn joined(lines: Seq<Seq<char>>) -> Seq<char>
    decreases lines.len(),
{
    if lines.len() == 0 {
        Seq::empty()
    } else if lines.len() == 1 {
        lines[0]
    } else {
        joined(lines.drop_last()) + seq!['\n'] + lines.last()
    }
}

/// Joins serialized envelopes into the newline-delimited recording text.
pub fn join_lines(lines: &Vec<String>) -> (s: String)
    ensures
        s@ == joined(lines@.map_values(|l: String| l@)),
{
    let mut out: Vec<char> = Vec::new();
    let mut i: usize = 0;
    while i < lines.len()
        invariant
            i <= lines@.len(),
            out@ == joined(lines@.subrange(0, i as int).map_values(|l: String| l@)),
        decreases lines@.len() - i,
    {
        let cs = chars_of(lines[i].as_str());
        let ghost prev = out@;
        if i > 0 {
            out.push('\n');
        }
        let mut j: usize = 0;
        let ghost mid = out@;
        while j < cs.len()
            invariant
                j <= cs@.len(),
                out@ == mid + cs@.subrange(0, j as int),
            decreases cs@.len() - j,
        {
            out.push(cs[j]);
            assert(out@ =~= mid + cs@.subrange(0, j + 1));
            j = j + 1;
        }
        proof {
            let m = lines@.subrange(0, i + 1).map_values(|l: String| l@);
            assert(m.drop_last() =~= lines@.subrange(0, i as int).map_values(|l: String| l@));
            assert(m.last() == lines@[i as int]@);
            assert(cs@.subrange(0, j as int) =~= cs@);
            if i == 0 {
                assert(m.len() == 1);
                assert(out@ =~= m[0]);
            } else {
                assert(out@ =~= prev + seq!['\n'] + m.last());
            }
        }
        i = i + 1;
    }
    assert(lines@.subrange(0, i as int) =~= lines@);
    chars_to_string(out)
}


/// A line that survives the trip through a recording's text unchanged: not
/// blank, no newline in it, and no carriage return at its end.
pub open spec fn is_record_line(l: Seq<char>) -> bool {
    !is_blank(l) && !l.contains('\n') && !(l.len() > 0 && l.last() == '\r')
}

/// The text starts, after whitespace, with `[` (it reads as a JSON array).
pub open spec fn opens_array(s: Seq<char>) -> bool {
    trim_start(s).len() > 0 && trim_start(s)[0] == '['
}

proof fn lemma_lines_plain(s: Seq<char>, cur: Seq<char>, acc: Seq<Seq<char>>)
    requires
        !s.contains('\n'),
    ensures
        lines_from(s, cur, acc) == if (cur + s).len() > 0 {
            acc.push(cur + s)
        } else {
            acc
        },
    decreases s.len(),
{
    if s.len() > 0 {
        assert(s[0] != '\n');
        assert(!s.drop_first().contains('\n')) by {
            if s.drop_first().contains('\n') {
                let k = choose|k: int| 0 <= k < s.drop_first().len() && s.drop_first()[k] == '\n';
                assert(s[k + 1] == '\n');
            }
        }
        lemma_lines_plain(s.drop_first(), cur.push(s[0]), acc);
        assert(cur.push(s[0]) + s.drop_first() =~= cur + s);
    } else {
        assert(cur + s =~= cur);
    }
}

proof fn lemma_lines_break(a: Seq<char>, b: Seq<char>, cur: Seq<char>, acc: Seq<Seq<char>>)
    requires
        !a.contains('\n'),
    ensures
        lines_from(a + seq!['\n'] + b, cur, acc) == lines_from(
            b,
            Seq::empty(),
            acc.push(strip_cr(cur + a)),
        ),
    decreases a.len(),
{
    let s = a + seq!['\n'] + b;
    if a.len() == 0 {
        assert(s[0] == '\n');
        assert(s.drop_first() =~= b);
        assert(cur + a =~= cur);
    } else {
        assert(a[0] != '\n');
        let t = a.drop_first();
        assert(!t.contains('\n')) by {
            if t.contains('\n') {
                let k = choose|k: int| 0 <= k < t.len() && t[k] == '\n';
                assert(a[k + 1] == '\n');
            }
        }
        assert(s[0] == a[0]);
        assert(s.drop_first() =~= t + seq!['\n'] + b);
        lemma_lines_break(t, b, cur.push(a[0]), acc);
        assert(cur.push(a[0]) + t =~= cur + a);
    }
}

proof fn lemma_joined_front(ls: Seq<Seq<char>>)
    requires
        ls.len() >= 2,
    ensures
        joined(ls) == ls[0] + seq!['\n'] + joined(ls.drop_first()),
    decreases ls.len(),
{
    let d = ls.drop_last();
    let r = ls.drop_first();
    if ls.len() > 2 {
        lemma_joined_front(d);
        assert(d.drop_first() =~= r.drop_last());
        assert(r.last() == ls.last());
        assert(d[0] == ls[0]);
        assert(joined(ls) == joined(d) + seq!['\n'] + ls.last());
        assert(joined(r) == joined(r.drop_last()) + seq!['\n'] + r.last());
        assert(joined(ls) =~= ls[0] + seq!['\n'] + joined(r));
    } else {
        assert(r.len() == 1);
        assert(d.len() == 1);
        assert(joined(r) == r[0]);
        assert(joined(d) == d[0]);
        assert(r[0] == ls[1] && d[0] == ls[0]);
        assert(joined(ls) =~= ls[0] + seq!['\n'] + joined(r));
    }
}

proof fn lemma_lines_of_joined(ls: Seq<Seq<char>>, acc: Seq<Seq<char>>)
    requires
        forall|i: int| 0 <= i < ls.len() ==> is_record_line(#[trigger] ls[i]),
    ensures
        lines_from(joined(ls), Seq::empty(), acc) == acc + ls,
    decreases ls.len(),
{
    if ls.len() == 0 {
        assert(acc + ls =~= acc);
    } else if ls.len() == 1 {
        assert(is_record_line(ls[0]));
        lemma_lines_plain(ls[0], Seq::empty(), acc);
        assert(Seq::<char>::empty() + ls[0] =~= ls[0]);
        assert(ls[0].len() > 0) by {
            if ls[0].len() == 0 {
                assert(is_blank(ls[0]));
            }
        }
        assert(acc + ls =~= acc.push(ls[0]));
    } else {
        lemma_joined_front(ls);
        let rest = ls.drop_first();
        assert(is_record_line(ls[0]));
        lemma_lines_break(ls[0], joined(rest), Seq::empty(), acc);
        assert(Seq::<char>::empty() + ls[0] =~= ls[0]);
        assert forall|i: int| 0 <= i < rest.len() implies is_record_line(#[trigger] rest[i]) by {
            assert(rest[i] == ls[i + 1]);
        }
        lemma_lines_of_joined(rest, acc.push(ls[0]));
        assert(acc.push(ls[0]) + rest =~= acc + ls);
    }
}

proof fn lemma_nonblank_keeps(ls: Seq<Seq<char>>)
    requires
        forall|i: int| 0 <= i < ls.len() ==> !is_blank(#[trigger] ls[i]),
    ensures
        nonblank(ls) == ls,
    decreases ls.len(),
{
    if ls.len() > 0 {
        let d = ls.drop_last();
        assert forall|i: int| 0 <= i < d.len() implies !is_blank(#[trigger] d[i]) by {
            assert(d[i] == ls[i]);
        }
        lemma_nonblank_keeps(d);
        assert(!is_blank(ls[ls.len() - 1]));
        assert(d.push(ls.last()) =~= ls);
    }
}

proof fn lemma_leading_space_prefix(a: Seq<char>, b: Seq<char>)
    requires
        !is_blank(a),
    ensures
        leading_space(a + b) == leading_space(a),
        leading_space(a) < a.len(),
    decreases a.len(),
{
    assert(a.len() > 0);
    assert((a + b)[0] == a[0]);
    if is_white(a[0]) {
        let t = a.drop_first();
        assert(!is_blank(t)) by {
            let k = choose|k: int| 0 <= k < a.len() && !is_white(a[k]);
            assert(k > 0);
            assert(t[k - 1] == a[k]);
        }
        lemma_leading_space_prefix(t, b);
        assert((a + b).drop_first() =~= t + b);
    }
}

/// Exporting recorded lines and importing the text again gives back the
/// same lines, read as newline-delimited JSON, as long as each line is a
/// record line (a serialized envelope: not blank, no newline, no trailing
/// carriage return) and the first one does not open a JSON array.
pub proof fn lemma_recording_round_trip(ls: Seq<Seq<char>>)
    requires
        forall|i: int| 0 <= i < ls.len() ==> is_record_line(#[trigger] ls[i]),
        ls.len() > 0 ==> !opens_array(ls[0]),
    ensures
        !opens_array(joined(ls)),
        nonblank(lines(joined(ls))) == ls,
{
    lemma_lines_of_joined(ls, Seq::empty());
    assert(Seq::<Seq<char>>::empty() + ls =~= ls);
    assert forall|i: int| 0 <= i < ls.len() implies !is_blank(#[trigger] ls[i]) by {
        assert(is_record_line(ls[i]));
    }
    lemma_nonblank_keeps(ls);
    if ls.len() == 1 {
        assert(is_record_line(ls[0]));
        lemma_leading_space_prefix(ls[0], Seq::empty());
        assert(ls[0] + Seq::<char>::empty() =~= ls[0]);
    } else if ls.len() >= 2 {
        assert(is_record_line(ls[0]));
        lemma_joined_front(ls);
        let tail = seq!['\n'] + joined(ls.drop_first());
        assert(joined(ls) =~= ls[0] + tail);
        lemma_leading_space_prefix(ls[0], tail);
        let k = leading_space(ls[0]) as int;
        assert(trim_start(joined(ls))[0] == joined(ls)[k]);
        assert(joined(ls)[k] == ls[0][k]);
        assert(trim_start(ls[0])[0] == ls[0][k]);
    }
}

} // verus!
