//! EverQuest log files: names, characters, log lines, and which found log is best.
//!
//! Searching directories is the app's work; it hands the logs it found here.

use vstd::prelude::*;
use crate::text::{
    chars_eq, chars_of, ends_with, ends_with_chars, first_index, lemma_first_index, starts_with,
    starts_with_chars, string_of, sub_chars, to_lower, to_lower_chars, trim, trim_chars,
};

verus! {

/// A log file found on disk.
#[derive(Debug, Clone)]
pub struct FoundLog {
    pub path: String,
    pub character: Option<String>,
    pub modified_secs: u64,
    pub size_bytes: u64,
    pub source: String,
}

pub struct FoundLogView {
    pub path: Seq<char>,
    pub character: Option<Seq<char>>,
    pub modified_secs: u64,
    pub size_bytes: u64,
    pub source: Seq<char>,
}

impl View for FoundLog {
    type V = FoundLogView;

    open spec fn view(&self) -> FoundLogView {
        FoundLogView {
            path: self.path@,
            character: self.character.deep_view(),
            modified_secs: self.modified_secs,
            size_bytes: self.size_bytes,
            source: self.source@,
        }
    }
}

impl FoundLog {
    pub fn duplicate(&self) -> (r: FoundLog)
        ensures
            r@ == self@,
    {
        FoundLog {
            path: self.path.clone(),
            character: crate::model::copy_opt_string(&self.character),
            modified_secs: self.modified_secs,
            size_bytes: self.size_bytes,
            source: self.source.clone(),
        }
    }
}

/// An EverQuest log file name: `eqlog_…` and `….txt`, ignoring ASCII case.
pub open spec fn eq_log_name(name: Seq<char>) -> bool {
    let lower = to_lower(name);
    starts_with(lower, "eqlog_"@) && ends_with(lower, ".txt"@)
}

/// Whether a file name is an EverQuest log (`eqlog_*.txt`, any case).
pub fn is_eq_log_file(name: &str) -> (r: bool)
    ensures
        r == eq_log_name(name@),
{
    let lower = to_lower_chars(chars_of(name).as_slice());
    starts_with_chars(lower.as_slice(), chars_of("eqlog_").as_slice()) && ends_with_chars(
        lower.as_slice(),
        chars_of(".txt").as_slice(),
    )
}

/// Index just past the last `/` or `\` before `n`, or 0.
pub open spec fn after_last_sep(s: Seq<char>, n: int) -> int
    decreases n,
{
    if n <= 0 {
        0
    } else if s[n - 1] == '/' || s[n - 1] == '\\' {
        n
    } else {
        after_last_sep(s, n - 1)
    }
}

/// The character a log file belongs to: `eqlog_<Name>_<server>.txt` gives `Name`;
/// `None` when the file name has no `eqlog_` prefix, no server part or an empty name.
pub open spec fn character_of(path: Seq<char>) -> Option<Seq<char>> {
    let file = path.skip(after_last_sep(path, path.len() as int));
    let stem = if ends_with(file, ".txt"@) {
        file.take(file.len() - 4)
    } else {
        file
    };
    if !starts_with(stem, "eqlog_"@) {
        None
    } else {
        let rest = stem.skip(6);
        match first_index(rest, seq!['_']) {
            None => None,
            Some(i) => if i == 0 {
                None
            } else {
                Some(rest.take(i))
            },
        }
    }
}

proof fn lemma_after_last_sep(s: Seq<char>, n: int)
    requires
        0 <= n <= s.len(),
    ensures
        0 <= after_last_sep(s, n) <= n,
    decreases n,
{
    if n > 0 && !(s[n - 1] == '/' || s[n - 1] == '\\') {
        lemma_after_last_sep(s, n - 1);
    }
}

/// The character name in a log path (`…/eqlog_Name_server.txt`).
pub fn character_from_path(path: &str) -> (r: Option<String>)
    ensures
        r.deep_view() == character_of(path@),
{
    let v = chars_of(path);
    let mut n: usize = v.len();
    while n > 0 && v[n - 1] != '/' && v[n - 1] != '\\'
        invariant
            n <= v.len(),
            after_last_sep(v@, v@.len() as int) == after_last_sep(v@, n as int),
        decreases n,
    {
        n -= 1;
    }
    proof {
        lemma_after_last_sep(v@, v@.len() as int);
    }
    let file = sub_chars(v.as_slice(), n, v.len());
    assert(file@ == v@.skip(n as int));
    let txt = chars_of(".txt");
    proof {
        reveal_strlit(".txt");
        reveal_strlit("eqlog_");
    }
    let stem = if ends_with_chars(file.as_slice(), txt.as_slice()) {
        sub_chars(file.as_slice(), 0, file.len() - 4)
    } else {
        file
    };
    if !starts_with_chars(stem.as_slice(), chars_of("eqlog_").as_slice()) {
        return None;
    }
    let rest = sub_chars(stem.as_slice(), 6, stem.len());
    assert(rest@ == stem@.skip(6));
    let us = chars_of("_");
    proof {
        reveal_strlit("_");
    }
    assert(us@ =~= seq!['_']);
    match crate::text::find_chars(rest.as_slice(), us.as_slice()) {
        None => None,
        Some(i) => {
            proof {
                lemma_first_index(rest@, us@);
            }
            if i == 0 {
                None
            } else {
                Some(string_of(sub_chars(rest.as_slice(), 0, i).as_slice()))
            }
        },
    }
}

/// A log line split into its `[timestamp]` and the action text after it, both
/// trimmed; `None` without a leading `[`, a `]`, or any action text.
pub open spec fn split_line(line: Seq<char>) -> Option<(Seq<char>, Seq<char>)> {
    let l = trim(line);
    if !(l.len() > 0 && l[0] == '[') {
        None
    } else {
        match first_index(l, seq![']']) {
            None => None,
            Some(c) => {
                let action = trim(l.skip(c + 1));
                if action.len() == 0 {
                    None
                } else {
                    Some((trim(l.subrange(1, c)), action))
                }
            },
        }
    }
}

/// Strip `[timestamp]` and return the action text (what triggers match against).
pub fn split_log_line(line: &str) -> (r: Option<(String, String)>)
    ensures
        match r {
            Some((ts, action)) => split_line(line@) == Some((ts@, action@)),
            None => split_line(line@) is None,
        },
{
    let l = trim_chars(chars_of(line).as_slice());
    if !(l.len() > 0 && l[0] == '[') {
        return None;
    }
    let close_pat = chars_of("]");
    proof {
        reveal_strlit("]");
    }
    assert(close_pat@ =~= seq![']']);
    let c = match crate::text::find_chars(l.as_slice(), close_pat.as_slice()) {
        Some(c) => c,
        None => {
            return None;
        },
    };
    proof {
        lemma_first_index(l@, close_pat@);
    }
    assert(l@[c as int] == ']') by {
        assert(l@.subrange(c as int, c + 1) == seq![']']);
        assert(l@.subrange(c as int, c + 1)[0] == l@[c as int]);
    }
    assert(c >= 1);
    let ts = trim_chars(sub_chars(l.as_slice(), 1, c).as_slice());
    let action = trim_chars(sub_chars(l.as_slice(), c + 1, l.len()).as_slice());
    if action.len() == 0 {
        return None;
    }
    Some((string_of(ts.as_slice()), string_of(action.as_slice())))
}

/// How trustworthy a log's source is: real installs first, then a local copy.
pub open spec fn source_rank(source: Seq<char>) -> nat {
    if source == "osxeql"@ || source == "parallels"@ || source == "windows"@ {
        0
    } else if source == "local"@ {
        1
    } else {
        2
    }
}

/// `a` sorts strictly before `b`: better source, then newer, then larger.
pub open spec fn log_before(a: FoundLogView, b: FoundLogView) -> bool {
    ||| source_rank(a.source) < source_rank(b.source)
    ||| (source_rank(a.source) == source_rank(b.source) && a.modified_secs > b.modified_secs)
    ||| (source_rank(a.source) == source_rank(b.source) && a.modified_secs == b.modified_secs
        && a.size_bytes > b.size_bytes)
}

/// Index where a stable sort puts `x` after the sorted `s`: before the first element
/// that `x` sorts strictly before.
pub open spec fn insert_at(s: Seq<FoundLogView>, x: FoundLogView, from: int) -> int
    decreases s.len() - from,
{
    if from < 0 || from >= s.len() {
        s.len() as int
    } else if log_before(x, s[from]) {
        from
    } else {
        insert_at(s, x, from + 1)
    }
}

/// The first `n` logs stably sorted by `log_before` (insertion sort).
pub open spec fn sort_logs(s: Seq<FoundLogView>, n: int) -> Seq<FoundLogView>
    decreases n,
{
    if n <= 0 {
        Seq::empty()
    } else {
        let sorted = sort_logs(s, n - 1);
        sorted.insert(insert_at(sorted, s[n - 1], 0), s[n - 1])
    }
}

/// Consecutive logs with the same path dropped (the first kept).
pub open spec fn dedup_paths(s: Seq<FoundLogView>, n: int) -> Seq<FoundLogView>
    decreases n,
{
    if n <= 0 {
        Seq::empty()
    } else {
        let prev = dedup_paths(s, n - 1);
        if n >= 2 && s[n - 2].path == s[n - 1].path {
            prev
        } else {
            prev.push(s[n - 1])
        }
    }
}

/// The found logs in preference order, without repeated paths.
pub open spec fn ranked_logs(s: Seq<FoundLogView>) -> Seq<FoundLogView> {
    let sorted = sort_logs(s, s.len() as int);
    dedup_paths(sorted, sorted.len() as int)
}

pub open spec fn log_views(v: Seq<FoundLog>) -> Seq<FoundLogView> {
    v.map_values(|l: FoundLog| l@)
}

fn source_rank_exec(source: &String) -> (r: u8)
    ensures
        r as nat == source_rank(source@),
{
    let s = chars_of(source.as_str());
    if chars_eq(s.as_slice(), chars_of("osxeql").as_slice()) || chars_eq(s.as_slice(), chars_of("parallels").as_slice())
        || chars_eq(s.as_slice(), chars_of("windows").as_slice()) {
        0
    } else if chars_eq(s.as_slice(), chars_of("local").as_slice()) {
        1
    } else {
        2
    }
}

fn log_before_exec(a: &FoundLog, b: &FoundLog) -> (r: bool)
    ensures
        r == log_before(a@, b@),
{
    let ra = source_rank_exec(&a.source);
    let rb = source_rank_exec(&b.source);
    ra < rb || (ra == rb && a.modified_secs > b.modified_secs) || (ra == rb && a.modified_secs
        == b.modified_secs && a.size_bytes > b.size_bytes)
}

proof fn lemma_insert_at(s: Seq<FoundLogView>, x: FoundLogView, from: int)
    requires
        0 <= from <= s.len(),
    ensures
        from <= insert_at(s, x, from) <= s.len(),
    decreases s.len() - from,
{
    if from < s.len() && !log_before(x, s[from]) {
        lemma_insert_at(s, x, from + 1);
    }
}

/// The found logs in preference order — installs (osxEQL, Parallels, Windows) first,
/// then a local copy, then the rest; newest then largest first — without consecutive
/// repeats of a path.
pub fn rank_logs(found: Vec<FoundLog>) -> (r: Vec<FoundLog>)
    ensures
        log_views(r@) == ranked_logs(log_views(found@)),
{
    let ghost fv = log_views(found@);
    let mut sorted: Vec<FoundLog> = Vec::new();
    let mut i: usize = 0;
    while i < found.len()
        invariant
            i <= found.len(),
            fv == log_views(found@),
            log_views(sorted@) == sort_logs(fv, i as int),
            sorted@.len() == i,
        decreases found.len() - i,
    {
        let x = found[i].duplicate();
        let ghost sv = log_views(sorted@);
        let mut at: usize = 0;
        while at < sorted.len() && !log_before_exec(&x, &sorted[at])
            invariant
                at <= sorted.len(),
                sv == log_views(sorted@),
                insert_at(sv, x@, 0) == insert_at(sv, x@, at as int),
            decreases sorted.len() - at,
        {
            at += 1;
        }
        assert(x@ == fv[i as int]);
        sorted.insert(at, x);
        assert(log_views(sorted@) =~= sv.insert(at as int, fv[i as int]));
        i += 1;
    }
    assert(fv.len() == found@.len());
    let ghost sv = log_views(sorted@);
    let mut out: Vec<FoundLog> = Vec::new();
    let mut j: usize = 0;
    while j < sorted.len()
        invariant
            j <= sorted.len(),
            sv == log_views(sorted@),
            log_views(out@) == dedup_paths(sv, j as int),
        decreases sorted.len() - j,
    {
        let keep = if j >= 1 {
            !chars_eq(chars_of(sorted[j - 1].path.as_str()).as_slice(), chars_of(sorted[j].path.as_str()).as_slice())
        } else {
            true
        };
        if keep {
            let ghost before = log_views(out@);
            out.push(sorted[j].duplicate());
            assert(log_views(out@) =~= before.push(sv[j as int]));
        }
        j += 1;
    }
    out
}

/// The most preferred found log.
pub fn best_log(found: Vec<FoundLog>) -> (r: Option<FoundLog>)
    ensures
        match r {
            Some(l) => ranked_logs(log_views(found@)).len() > 0 && l@ == ranked_logs(log_views(found@))[0],
            None => ranked_logs(log_views(found@)).len() == 0,
        },
{
    let ranked = rank_logs(found);
    if ranked.len() == 0 {
        None
    } else {
        Some(ranked[0].duplicate())
    }
}

} // verus!
