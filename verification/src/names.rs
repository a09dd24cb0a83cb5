//! File names that requests may name: bare `.json` scenario files and bare
//! `.jsonl` recording files, never a path that leaves their directory.
use vstd::prelude::*;

use crate::live::{text_less, text_lt};

verus! {

/// Directory that holds the scenario definitions.
pub const SCENARIOS_DIR: &'static str = "scenarios";

/// Scenario a live session runs when none is named.
pub const DEFAULT_SCENARIO: &'static str = "zigzag.json";

/// Directory that holds the recorded sessions.
pub const RECORDINGS_DIR: &'static str = "recordings";

/// An error reported by the engine as a plain message.
#[derive(Debug, Clone, PartialEq, Eq)]
pub struct EngineError(pub String);

impl EngineError {
    /// The message, as `Display` would print it.
    pub fn to_string(&self) -> (s: String)
        ensures
            s@ == self.0@,
    {
        self.0.clone()
    }
}

/// `s` ends with `suffix`.
pub open spec fn ends_with(s: Seq<char>, suffix: Seq<char>) -> bool {
    suffix.len() <= s.len() && s.subrange(s.len() - suffix.len(), s.len() as int) == suffix
}

/// A bare file name: non-empty, and no path separator anywhere in it, so that
/// it names an entry of the directory it is looked up in and nothing else.
pub open spec fn is_bare_name(s: Seq<char>) -> bool {
    s.len() > 0 && !s.contains('/') && s != seq!['.'] && s != seq!['.', '.']
}

/// A name accepted as a scenario file: a bare name ending in `.json`.
pub open spec fn is_scenario_file_name(s: Seq<char>) -> bool {
    is_bare_name(s) && ends_with(s, seq!['.', 'j', 's', 'o', 'n'])
}

/// A name accepted as a recording file: a bare name ending in `.jsonl`.
pub open spec fn is_recording_file_name(s: Seq<char>) -> bool {
    is_bare_name(s) && ends_with(s, seq!['.', 'j', 's', 'o', 'n', 'l'])
}

/// Collects the characters of a string slice.
pub fn chars_of(s: &str) -> (v: Vec<char>)
    ensures
        v@ == s@,
{
    let mut v: Vec<char> = Vec::new();
    for c in it: s.chars()
        invariant
            it.seq() == s@,
            v@ == it.seq().take(it.index() as int),
    {
        v.push(c);
        assert(v@ =~= it.seq().take(it.index() + 1));
    }
    v
}

fn has_suffix(s: &Vec<char>, suffix: &[char]) -> (b: bool)
    ensures
        b == ends_with(s@, suffix@),
{
    if suffix.len() > s.len() {
        return false;
    }
    let off = s.len() - suffix.len();
    let mut i: usize = 0;
    while i < suffix.len()
        invariant
            off + suffix@.len() == s@.len(),
            s@.len() <= usize::MAX,
            i <= suffix@.len(),
            forall|k: int| 0 <= k < i ==> s@[off + k] == suffix@[k],
        decreases suffix@.len() - i,
    {
        if s[off + i] != suffix[i] {
            assert(s@.subrange(off as int, s@.len() as int)[i as int] != suffix@[i as int]);
            return false;
        }
        i = i + 1;
    }
    assert(s@.subrange(off as int, s@.len() as int) =~= suffix@);
    true
}

fn bare_name(s: &Vec<char>) -> (b: bool)
    ensures
        b == is_bare_name(s@),
{
    if s.len() == 0 {
        return false;
    }
    let mut i: usize = 0;
    while i < s.len()
        invariant
            i <= s@.len(),
            forall|k: int| 0 <= k < i ==> s@[k] != '/',
        decreases s@.len() - i,
    {
        if s[i] == '/' {
            assert(s@.contains('/')) by {
                assert(s@[i as int] == '/');
            }
            return false;
        }
        i = i + 1;
    }
    if s.len() == 1 && s[0] == '.' {
        assert(s@ =~= seq!['.']);
        return false;
    }
    if s.len() == 2 && s[0] == '.' && s[1] == '.' {
        assert(s@ =~= seq!['.', '.']);
        return false;
    }
    proof {
        if s@ == seq!['.'] {
            assert(s@[0] == '.');
        }
        if s@ == seq!['.', '.'] {
            assert(s@[0] == '.' && s@[1] == '.');
        }
    }
    true
}

fn invalid_name_error(message: &str) -> (e: EngineError)
    ensures
        e.0@ == message@,
{
    EngineError(message.to_string())
}

/// Accepts `name` as a scenario file name: a bare name (no directory part)
/// ending in `.json`; anything else is refused with "invalid scenario filename".
pub fn safe_scenario_name(name: &str) -> (r: Result<&str, EngineError>)
    ensures
        r is Ok <==> is_scenario_file_name(name@),
        r matches Ok(n) ==> n@ == name@,
        r matches Err(e) ==> e.0@ == "invalid scenario filename"@,
{
    let chars = chars_of(name);
    if !bare_name(&chars) || !has_suffix(&chars, &['.', 'j', 's', 'o', 'n']) {
        return Err(invalid_name_error("invalid scenario filename"));
    }
    assert(['.', 'j', 's', 'o', 'n']@ =~= seq!['.', 'j', 's', 'o', 'n']);
    Ok(name)
}

/// Accepts `name` as a recording file name: a bare name (no directory part)
/// ending in `.jsonl`; anything else is refused.
pub fn safe_recording_name(name: &str) -> (r: Result<&str, ()>)
    ensures
        r is Ok <==> is_recording_file_name(name@),
        r matches Ok(n) ==> n@ == name@,
{
    let chars = chars_of(name);
    if !bare_name(&chars) || !has_suffix(&chars, &['.', 'j', 's', 'o', 'n', 'l']) {
        return Err(());
    }
    assert(['.', 'j', 's', 'o', 'n', 'l']@ =~= seq!['.', 'j', 's', 'o', 'n', 'l']);
    Ok(name)
}

/// The scenario a record request names when it names none.
pub fn default_scenario() -> (s: String)
    ensures
        s@ == DEFAULT_SCENARIO@,
{
    DEFAULT_SCENARIO.to_string()
}

/// Body of a request to start a new live recording session.
#[derive(Debug, Clone)]
pub struct RecordRequest {
    pub scenario: String,
}


/// A file found in the recordings directory: its name and its size in bytes.
#[derive(Debug)]
pub struct RecordingFile {
    pub name: String,
    pub size: u64,
}

/// A name listed as a recording: it has the extension `jsonl`, that is, it
/// ends with `.jsonl` after at least one other character.
pub open spec fn is_listed_recording(s: Seq<char>) -> bool {
    s.len() > 6 && ends_with(s, seq!['.', 'j', 's', 'o', 'n', 'l'])
}

/// The files whose names are listed as recordings, in their order.
pub open spec fn listed_recordings(fs: Seq<RecordingFile>) -> Seq<RecordingFile>
    decreases fs.len(),
{
    if fs.len() == 0 {
        Seq::empty()
    } else {
        let prev = listed_recordings(fs.drop_last());
        if is_listed_recording(fs.last().name@) {
            prev.push(fs.last())
        } else {
            prev
        }
    }
}

/// Insertion of `f` just after the last file, scanning from the end, whose
/// name does not order before `f`'s: the step of a stable sort by name,
/// greatest first.
pub open spec fn insert_newest_first(s: Seq<RecordingFile>, f: RecordingFile) -> Seq<RecordingFile>
    decreases s.len(),
{
    if s.len() == 0 {
        seq![f]
    } else if !text_lt(s.last().name@, f.name@) {
        s.push(f)
    } else {
        insert_newest_first(s.drop_last(), f).push(s.last())
    }
}

/// `s` stably sorted by name, greatest first.
pub open spec fn newest_first(s: Seq<RecordingFile>) -> Seq<RecordingFile>
    decreases s.len(),
{
    if s.len() == 0 {
        Seq::empty()
    } else {
        insert_newest_first(newest_first(s.drop_last()), s.last())
    }
}

proof fn lemma_insert_newest_at(s: Seq<RecordingFile>, f: RecordingFile, j: int)
    requires
        0 <= j <= s.len(),
        forall|k: int| j <= k < s.len() ==> text_lt(#[trigger] s[k].name@, f.name@),
        j > 0 ==> !text_lt(s[j - 1].name@, f.name@),
    ensures
        insert_newest_first(s, f) == s.insert(j, f),
    decreases s.len(),
{
    if s.len() == 0 {
        assert(s.insert(j, f) =~= seq![f]);
    } else if j == s.len() {
        assert(s.insert(j, f) =~= s.push(f));
    } else {
        let d = s.drop_last();
        assert forall|k: int| j <= k < d.len() implies text_lt(#[trigger] d[k].name@, f.name@) by {
            assert(d[k] == s[k]);
        }
        assert(text_lt(s[s.len() - 1].name@, f.name@));
        lemma_insert_newest_at(d, f, j);
        assert(s.insert(j, f) =~= d.insert(j, f).push(s.last()));
    }
}

fn copy_file(f: &RecordingFile) -> (r: RecordingFile)
    ensures
        r == *f,
{
    RecordingFile { name: f.name.clone(), size: f.size }
}

/// The recordings to list: the files named `*.jsonl`, newest first. Session
/// ids are timestamps, so descending name order is newest first; files with
/// the same name keep their order.
pub fn recordings_newest_first(files: &Vec<RecordingFile>) -> (r: Vec<RecordingFile>)
    ensures
        r@ == newest_first(listed_recordings(files@)),
{
    let suffix = ['.', 'j', 's', 'o', 'n', 'l'];
    assert(suffix@ =~= seq!['.', 'j', 's', 'o', 'n', 'l']);
    let mut kept: Vec<RecordingFile> = Vec::new();
    let mut i: usize = 0;
    while i < files.len()
        invariant
            i <= files@.len(),
            suffix@ == seq!['.', 'j', 's', 'o', 'n', 'l'],
            kept@ == listed_recordings(files@.subrange(0, i as int)),
        decreases files@.len() - i,
    {
        let chars = chars_of(files[i].name.as_str());
        proof {
            assert(files@.subrange(0, i + 1).drop_last() =~= files@.subrange(0, i as int));
            assert(files@.subrange(0, i + 1).last() == files@[i as int]);
        }
        if chars.len() > 6 && has_suffix(&chars, &suffix) {
            kept.push(copy_file(&files[i]));
        }
        i = i + 1;
    }
    assert(files@.subrange(0, files@.len() as int) =~= files@);
    let ghost all = kept@;
    let mut r: Vec<RecordingFile> = Vec::new();
    let mut i: usize = 0;
    assert(all.subrange(0, 0) =~= Seq::<RecordingFile>::empty());
    while i < kept.len()
        invariant
            all == kept@,
            i <= all.len(),
            r@ == newest_first(all.subrange(0, i as int)),
        decreases all.len() - i,
    {
        let f = copy_file(&kept[i]);
        let mut j = r.len();
        while j > 0 && text_less(r[j - 1].name.as_str(), f.name.as_str())
            invariant
                j <= r@.len(),
                forall|k: int| j <= k < r@.len() ==> text_lt(#[trigger] r@[k].name@, f.name@),
            decreases j,
        {
            j = j - 1;
        }
        proof {
            lemma_insert_newest_at(r@, f, j as int);
            assert(all.subrange(0, i + 1).drop_last() =~= all.subrange(0, i as int));
            assert(all.subrange(0, i + 1).last() == all[i as int]);
        }
        r.insert(j, f);
        i = i + 1;
    }
    assert(all.subrange(0, all.len() as int) =~= all);
    r
}

} // verus!
