//! Searching a log for a pattern, with lines of context.

use std::collections::HashMap;

use vstd::prelude::*;
use vstd::slice::slice_subrange;
use vstd::string::*;
use vstd::utf8::*;

use crate::ids;
use crate::ids::is_valid_id;
use crate::lines;
use crate::lines::{append_bytes, find_from, NL};
use crate::matcher;
use crate::matcher::Matcher;
use crate::pty;
use crate::pty::{parse_ms_prefix, strip_if, AnsiStripper, StripState};
use crate::tail;
use crate::tail::{parse_time_option, unstamped_error};
use crate::text;
use crate::text::{concat2, concat3, decode_lossy, quoted, trim_end_matches};
use crate::window;

verus! {

/// What to search a log for, and how to show what is found.
pub struct GrepOptions {
    pub id: String,
    pub pattern: Option<String>,
    pub pattern_file: Option<String>,
    pub around: usize,
    pub limit: Option<u64>,
    pub since: Option<String>,
    pub until: Option<String>,
    pub strip_ansi: bool,
    /// Match the whole line, its stamp included, and not only what is behind
    /// the stamp.
    pub match_full_line: bool,
    pub json: bool,
    pub multiline: bool,
    pub ignore_case: bool,
}

/// A line that matches, and the time of its stamp.
#[derive(Clone, Copy, Debug, PartialEq, Eq, Structural)]
pub struct Hit {
    pub line_idx: usize,
    pub timestamp_ms: Option<u64>,
}

// ---------------------------------------------------------------------
// The pattern
// ---------------------------------------------------------------------

/// Where a pattern comes from.
pub enum PatternSource {
    /// It was given.
    Text(String),
    /// It stands in the file of this path.
    File(String),
}

/// Why there is no pattern, if there is none.
pub open spec fn pattern_conflict(pattern: bool, file: bool) -> Option<Seq<char>> {
    if pattern && file {
        Some("--pattern and --pattern-file are mutually exclusive"@)
    } else if !pattern && !file {
        Some("--pattern or --pattern-file required"@)
    } else {
        None
    }
}

/// Decides where the pattern comes from.
pub fn pattern_source(pattern: Option<String>, pattern_file: Option<String>) -> (r: Result<
    PatternSource,
    String,
>)
    ensures
        match pattern_conflict(pattern is Some, pattern_file is Some) {
            Some(e) => r matches Err(t) && t@ == e,
            None => match pattern {
                Some(p) => r == Ok::<PatternSource, String>(PatternSource::Text(p)),
                None => r == Ok::<PatternSource, String>(PatternSource::File(pattern_file->0)),
            },
        },
{
    match (pattern, pattern_file) {
        (Some(p), None) => Ok(PatternSource::Text(p)),
        (None, Some(path)) => Ok(PatternSource::File(path)),
        (Some(_), Some(_)) => Err(
            "--pattern and --pattern-file are mutually exclusive".to_owned(),
        ),
        (None, None) => Err("--pattern or --pattern-file required".to_owned()),
    }
}

/// The pattern in the text of a pattern file: all of it but the line feeds at
/// its end.
pub fn pattern_of_file(content: &str) -> (r: String)
    ensures
        r@ == text::strip_all_suffix(content@, "\n"@),
{
    trim_end_matches(content, "\n").to_owned()
}

/// The pattern that options ask for. What became of reading the pattern file,
/// the text or an error, is asked for only where it is needed.
pub fn resolve_pattern(
    pattern: Option<String>,
    pattern_file: Option<String>,
    file_text: Result<String, String>,
) -> (r: Result<String, String>)
    ensures
        match pattern_conflict(pattern is Some, pattern_file is Some) {
            Some(e) => r matches Err(t) && t@ == e,
            None => match pattern {
                Some(p) => r matches Ok(t) && t@ == p@,
                None => match file_text {
                    Ok(content) => r matches Ok(t) && t@ == text::strip_all_suffix(
                        content@,
                        "\n"@,
                    ),
                    Err(e) => r matches Err(t) && t@ == "read --pattern-file "@
                        + pattern_file->0@ + ": "@ + e@,
                },
            },
        },
{
    match pattern_source(pattern, pattern_file) {
        Err(e) => Err(e),
        Ok(PatternSource::Text(p)) => Ok(p),
        Ok(PatternSource::File(path)) => match file_text {
            Ok(content) => Ok(pattern_of_file(content.as_str())),
            Err(e) => {
                let mut out = concat3("read --pattern-file ", path.as_str(), ": ");
                out.append(e.as_str());
                Err(out)
            },
        },
    }
}

/// A search that is ready to run.
pub struct GrepPlan {
    pub matcher: Matcher,
    pub since: Option<u64>,
    pub until: Option<u64>,
}

/// Why a search cannot run, if it cannot.
pub open spec fn plan_error(o: GrepOptions, pattern: Seq<char>, now: nat) -> Option<Seq<char>> {
    match matcher::regex_outcome(pattern, o.multiline, o.ignore_case) {
        Err(e) => Some("bad regex: "@ + e),
        Ok(_) => match tail::time_option("--since: "@, tail::opt_text(o.since), now) {
            Err(e) => Some(e),
            Ok(_) => match tail::time_option("--until: "@, tail::opt_text(o.until), now) {
                Err(e) => Some(e),
                Ok(_) => None,
            },
        },
    }
}

/// Checks the identifier.
pub fn check_id(o: &GrepOptions) -> (r: Result<(), String>)
    ensures
        ids::valid_id(o.id@) ==> r is Ok,
        !ids::valid_id(o.id@) ==> (r matches Err(t) && t@ == "invalid id "@ + text::debug_text(
            o.id@,
        )),
{
    if is_valid_id(o.id.as_str()) {
        Ok(())
    } else {
        Err(concat2("invalid id ", quoted(o.id.as_str()).as_str()))
    }
}

/// Compiles the pattern and reads the span of time.
pub fn plan(o: &GrepOptions, pattern: &str, now: u64) -> (r: Result<GrepPlan, String>)
    ensures
        match plan_error(*o, pattern@, now as nat) {
            Some(e) => r matches Err(t) && t@ == e,
            None => r matches Ok(p) && p.matcher.pattern() == pattern@ && p.matcher.multi_line()
                == o.multiline && p.matcher.ignore_case() == o.ignore_case && Ok::<
                Option<u64>,
                Seq<char>,
            >(p.since) == tail::time_option("--since: "@, tail::opt_text(o.since), now as nat)
                && Ok::<Option<u64>, Seq<char>>(p.until) == tail::time_option(
                "--until: "@,
                tail::opt_text(o.until),
                now as nat,
            ),
        },
{
    let matcher = match Matcher::new(pattern, o.multiline, o.ignore_case) {
        Ok(m) => m,
        Err(e) => {
            return Err(concat2("bad regex: ", e.as_str()));
        },
    };
    let since: Option<u64> = match parse_time_option("--since: ", &o.since, now) {
        Ok(t) => t,
        Err(e) => {
            return Err(e);
        },
    };
    let until: Option<u64> = match parse_time_option("--until: ", &o.until, now) {
        Ok(t) => t,
        Err(e) => {
            return Err(e);
        },
    };
    Ok(GrepPlan { matcher, since, until })
}

// ---------------------------------------------------------------------
// Lines and hits
// ---------------------------------------------------------------------

/// Cuts a log into lines, each with its line feed if it has one.
pub fn split_lines<'a>(bytes: &'a [u8]) -> (r: Vec<&'a [u8]>)
    ensures
        lines::views(r@) == lines::all_lines(bytes@),
{
    let mut out: Vec<&'a [u8]> = Vec::new();
    let mut start: usize = 0;
    assert(bytes@.skip(0) =~= bytes@);
    assert(lines::views(out@) + lines::all_lines(bytes@.skip(0)) =~= lines::all_lines(bytes@));
    while start < bytes.len()
        invariant
            start <= bytes@.len(),
            lines::views(out@) + lines::all_lines(bytes@.skip(start as int)) == lines::all_lines(
                bytes@,
            ),
        decreases bytes@.len() - start,
    {
        let ghost rest = bytes@.skip(start as int);
        let ghost k = lines::first_at(rest, NL);
        let ghost before = lines::views(out@);
        let end: usize = find_from(bytes, NL, start);
        let next: usize = if end < bytes.len() {
            end + 1
        } else {
            end
        };
        let line = slice_subrange(bytes, start, next);
        out.push(line);
        assert(lines::views(out@) =~= before.push(line@));
        if end < bytes.len() {
            assert(line@ =~= rest.take(k + 1));
            assert(rest.skip(k + 1) =~= bytes@.skip(next as int));
            assert(before.push(line@) + lines::all_lines(bytes@.skip(next as int)) =~= before
                + lines::all_lines(rest));
        } else {
            assert(line@ =~= rest);
            assert(bytes@.skip(next as int) =~= Seq::<u8>::empty());
            assert(lines::first_at(Seq::<u8>::empty(), NL) == 0);
            assert(lines::all_lines(rest) =~= seq![rest]);
            assert(lines::all_lines(Seq::<u8>::empty()) =~= Seq::<Seq<u8>>::empty());
            assert(before.push(line@) + lines::all_lines(bytes@.skip(next as int)) =~= before
                + lines::all_lines(rest));
        }
        start = next;
    }
    assert(bytes@.skip(start as int) =~= Seq::<u8>::empty());
    assert(lines::first_at(Seq::<u8>::empty(), NL) == 0);
    assert(lines::all_lines(Seq::<u8>::empty()) =~= Seq::<Seq<u8>>::empty());
    assert(lines::views(out@) + Seq::<Seq<u8>>::empty() =~= lines::views(out@));
    out
}

/// The lines of a log one after the other are the log.
pub proof fn lines_are_the_log(s: Seq<u8>)
    ensures
        lines::all_lines(s).flatten() == s,
{
    lines::finished_and_unfinished_are_all(s);
    let f = lines::finished(s);
    let u = lines::unfinished(s);
    if u.len() > 0 {
        f.lemma_flatten_push(u);
    } else {
        assert(f.flatten() + u =~= f.flatten());
    }
}

/// A line without its line feed, and then without one carriage return.
pub open spec fn chomped(s: Seq<u8>) -> Seq<u8> {
    let a = if s.len() > 0 && s.last() == NL {
        s.drop_last()
    } else {
        s
    };
    if a.len() > 0 && a.last() == 13u8 {
        a.drop_last()
    } else {
        a
    }
}

/// Removes a line feed, and then one carriage return, from the end of a line.
pub fn chomp<'a>(line: &'a [u8]) -> (r: &'a [u8])
    ensures
        r@ == chomped(line@),
{
    let mut end: usize = line.len();
    if end > 0 && line[end - 1] == NL {
        end -= 1;
    }
    assert(line@.subrange(0, end as int) =~= (if line@.len() > 0 && line@.last() == NL {
        line@.drop_last()
    } else {
        line@
    }));
    let ghost a = line@.subrange(0, end as int);
    if end > 0 && line[end - 1] == 13 {
        assert(a.last() == 13u8);
        end -= 1;
        assert(line@.subrange(0, end as int) =~= a.drop_last());
    }
    slice_subrange(line, 0, end)
}

/// The part of a line that is searched.
pub open spec fn searched(line: Seq<u8>, match_full_line: bool, strip: bool) -> Seq<u8> {
    let body = match pty::ms_prefix_of(line) {
        Some(p) => if match_full_line {
            line
        } else {
            line.skip(p.1)
        },
        None => line,
    };
    chomped(pty::strip_choice(strip, body))
}

/// The time of a line's stamp.
pub open spec fn stamp_of(line: Seq<u8>) -> Option<u64> {
    match pty::ms_prefix_of(line) {
        Some(p) => Some(p.0),
        None => None,
    }
}

/// Whether the search ends at a line: its stamp lies behind the span, and not
/// before it.
pub open spec fn stops_at(line: Seq<u8>, since: Option<u64>, until: Option<u64>) -> bool {
    stamp_of(line) matches Some(t) && !(since matches Some(s) && t < s) && (until matches Some(u)
        && t > u)
}

/// Whether a line is looked at: in the span, where there is one.
pub open spec fn looked_at(line: Seq<u8>, since: Option<u64>, until: Option<u64>) -> bool {
    match stamp_of(line) {
        Some(t) => (since matches Some(s) ==> s <= t) && (until matches Some(u) ==> t <= u),
        None => since is None && until is None,
    }
}

/// Whether a line is a hit.
pub open spec fn is_hit(
    line: Seq<u8>,
    m: Matcher,
    since: Option<u64>,
    until: Option<u64>,
    match_full_line: bool,
    strip: bool,
) -> bool {
    looked_at(line, since, until) && m.hits(
        text::lossy_text(searched(line, match_full_line, strip)),
    )
}

/// Whether as many hits were found as the limit allows.
pub open spec fn is_full(found: Seq<Hit>, limit: Option<u64>) -> bool {
    limit matches Some(l) && found.len() >= l
}

/// The hits from line `i` on, behind those already found: never more than the
/// limit, and up to the first line behind the span.
pub open spec fn hits_from(
    all: Seq<Seq<u8>>,
    i: int,
    found: Seq<Hit>,
    m: Matcher,
    since: Option<u64>,
    until: Option<u64>,
    match_full_line: bool,
    strip: bool,
    limit: Option<u64>,
) -> Seq<Hit>
    decreases all.len() - i,
{
    if i < 0 || i >= all.len() || stops_at(all[i], since, until) || is_full(found, limit) {
        found
    } else if is_hit(all[i], m, since, until, match_full_line, strip) {
        let more = found.push(Hit { line_idx: i as usize, timestamp_ms: stamp_of(all[i]) });
        hits_from(all, i + 1, more, m, since, until, match_full_line, strip, limit)
    } else {
        hits_from(all, i + 1, found, m, since, until, match_full_line, strip, limit)
    }
}

/// Searches lines, and strips them first if asked to.
pub fn search_lines(
    all: &[&[u8]],
    matcher: &Matcher,
    since_ms: Option<u64>,
    until_ms: Option<u64>,
    match_full_line: bool,
    strip: bool,
    limit: Option<u64>,
) -> (r: Vec<Hit>)
    ensures
        r@ == hits_from(
            lines::views(all@),
            0,
            Seq::empty(),
            *matcher,
            since_ms,
            until_ms,
            match_full_line,
            strip,
            limit,
        ),
        limit matches Some(l) ==> r@.len() <= l,
{
    let ghost texts = lines::views(all@);
    let ghost want = hits_from(
        texts,
        0,
        Seq::empty(),
        *matcher,
        since_ms,
        until_ms,
        match_full_line,
        strip,
        limit,
    );
    let mut hits: Vec<Hit> = Vec::new();
    let mut idx: usize = 0;
    assert(hits@ =~= Seq::empty());
    while idx < all.len()
        invariant
            idx <= all@.len(),
            texts == lines::views(all@),
            hits@.len() <= idx,
            limit matches Some(l) ==> hits@.len() <= l,
            want == hits_from(
                texts,
                idx as int,
                hits@,
                *matcher,
                since_ms,
                until_ms,
                match_full_line,
                strip,
                limit,
            ),
            want == hits_from(
                texts,
                0,
                Seq::empty(),
                *matcher,
                since_ms,
                until_ms,
                match_full_line,
                strip,
                limit,
            ),
        decreases all@.len() - idx,
    {
        match limit {
            Some(l) => {
                if hits.len() as u64 >= l {
                    return hits;
                }
            },
            None => {},
        }
        let line: &[u8] = all[idx];
        assert(texts[idx as int] == line@);
        let prefix = parse_ms_prefix(line);
        let (ts, offset): (Option<u64>, usize) = match prefix {
            Some((t, o)) => (Some(t), o),
            None => (None, 0),
        };
        assert(ts == stamp_of(line@));
        let mut look = true;
        match since_ms {
            Some(s) => match ts {
                Some(t) => {
                    if t < s {
                        look = false;
                    }
                },
                None => {
                    look = false;
                },
            },
            None => {},
        }
        if look {
            match until_ms {
                Some(u) => match ts {
                    Some(t) => {
                        if t > u {
                            return hits;
                        }
                    },
                    None => {
                        look = false;
                    },
                },
                None => {},
            }
        }
        assert(!stops_at(line@, since_ms, until_ms));
        assert(look == looked_at(line@, since_ms, until_ms));
        if look {
            let body: &[u8] = if match_full_line {
                line
            } else {
                slice_subrange(line, offset, line.len())
            };
            assert(body@ =~= match pty::ms_prefix_of(line@) {
                Some(p) => if match_full_line {
                    line@
                } else {
                    line@.skip(p.1)
                },
                None => line@,
            });
            let bytes = strip_if(strip, vstd::slice::slice_to_vec(body));
            let haystack = decode_lossy(chomp(bytes.as_slice()));
            if matcher.is_match(haystack.as_str()) {
                hits.push(Hit { line_idx: idx, timestamp_ms: ts });
            }
        }
        idx += 1;
    }
    hits
}

/// Searches lines as they are.
pub fn collect_hits(
    all: &[&[u8]],
    matcher: &Matcher,
    since_ms: Option<u64>,
    until_ms: Option<u64>,
    match_full_line: bool,
    limit: Option<u64>,
) -> (r: Vec<Hit>)
    ensures
        r@ == hits_from(
            lines::views(all@),
            0,
            Seq::empty(),
            *matcher,
            since_ms,
            until_ms,
            match_full_line,
            false,
            limit,
        ),
        limit matches Some(l) ==> r@.len() <= l,
{
    search_lines(all, matcher, since_ms, until_ms, match_full_line, false, limit)
}

proof fn lemma_hits(
    all: Seq<Seq<u8>>,
    i: int,
    found: Seq<Hit>,
    m: Matcher,
    since: Option<u64>,
    until: Option<u64>,
    match_full_line: bool,
    strip: bool,
    limit: Option<u64>,
)
    requires
        0 <= i <= all.len(),
        all.len() <= usize::MAX,
        forall|j: int| 0 <= j < found.len() ==> (#[trigger] found[j]).line_idx < i,
        forall|j: int|
            0 <= j < found.len() ==> {
                let h = #[trigger] found[j];
                is_hit(all[h.line_idx as int], m, since, until, match_full_line, strip)
                    && h.timestamp_ms == stamp_of(all[h.line_idx as int])
            },
        forall|j: int, k: int|
            0 <= j < k < found.len() ==> (#[trigger] found[j]).line_idx < (#[trigger] found[k]).line_idx,
        limit matches Some(l) ==> found.len() <= l,
    ensures
        ({
            let r = hits_from(all, i, found, m, since, until, match_full_line, strip, limit);
            &&& forall|j: int| 0 <= j < r.len() ==> (#[trigger] r[j]).line_idx < all.len()
            &&& forall|j: int|
                0 <= j < r.len() ==> {
                    let h = #[trigger] r[j];
                    is_hit(all[h.line_idx as int], m, since, until, match_full_line, strip)
                        && h.timestamp_ms == stamp_of(all[h.line_idx as int])
                }
            &&& forall|j: int, k: int|
                0 <= j < k < r.len() ==> (#[trigger] r[j]).line_idx < (#[trigger] r[k]).line_idx
            &&& limit matches Some(l) ==> r.len() <= l
        }),
    decreases all.len() - i,
{
    if i < all.len() && !stops_at(all[i], since, until) && !is_full(found, limit) {
        if is_hit(all[i], m, since, until, match_full_line, strip) {
            let h = Hit { line_idx: i as usize, timestamp_ms: stamp_of(all[i]) };
            lemma_hits(
                all,
                i + 1,
                found.push(h),
                m,
                since,
                until,
                match_full_line,
                strip,
                limit,
            );
        } else {
            lemma_hits(all, i + 1, found, m, since, until, match_full_line, strip, limit);
        }
    }
}

/// Every hit is a matching line in the span, hits come in the order of lines
/// and no line is hit twice, and there are never more than the limit.
pub proof fn hits_are_sound(
    all: Seq<Seq<u8>>,
    m: Matcher,
    since: Option<u64>,
    until: Option<u64>,
    match_full_line: bool,
    strip: bool,
    limit: Option<u64>,
)
    requires
        all.len() <= usize::MAX,
    ensures
        ({
            let r = hits_from(
                all,
                0,
                Seq::empty(),
                m,
                since,
                until,
                match_full_line,
                strip,
                limit,
            );
            &&& forall|j: int| 0 <= j < r.len() ==> (#[trigger] r[j]).line_idx < all.len()
            &&& forall|j: int|
                0 <= j < r.len() ==> {
                    let h = #[trigger] r[j];
                    is_hit(all[h.line_idx as int], m, since, until, match_full_line, strip)
                        && h.timestamp_ms == stamp_of(all[h.line_idx as int])
                }
            &&& forall|j: int, k: int|
                0 <= j < k < r.len() ==> (#[trigger] r[j]).line_idx < (#[trigger] r[k]).line_idx
            &&& limit matches Some(l) ==> r.len() <= l
        }),
{
    lemma_hits(all, 0, Seq::empty(), m, since, until, match_full_line, strip, limit);
}

proof fn lemma_found_stay(
    all: Seq<Seq<u8>>,
    i: int,
    found: Seq<Hit>,
    m: Matcher,
    since: Option<u64>,
    until: Option<u64>,
    match_full_line: bool,
    strip: bool,
    limit: Option<u64>,
)
    requires
        0 <= i,
    ensures
        ({
            let r = hits_from(all, i, found, m, since, until, match_full_line, strip, limit);
            found.len() <= r.len() && r.take(found.len() as int) == found
        }),
    decreases all.len() - i,
{
    let r = hits_from(all, i, found, m, since, until, match_full_line, strip, limit);
    if i < all.len() && !stops_at(all[i], since, until) && !is_full(found, limit) {
        if is_hit(all[i], m, since, until, match_full_line, strip) {
            let h = Hit { line_idx: i as usize, timestamp_ms: stamp_of(all[i]) };
            let more = found.push(h);
            lemma_found_stay(all, i + 1, more, m, since, until, match_full_line, strip, limit);
            assert(r.take(found.len() as int) =~= r.take(more.len() as int).take(
                found.len() as int,
            ));
            assert(more.take(found.len() as int) =~= found);
        } else {
            lemma_found_stay(all, i + 1, found, m, since, until, match_full_line, strip, limit);
        }
    } else {
        assert(found.take(found.len() as int) =~= found);
    }
}

proof fn lemma_hits_are_complete(
    all: Seq<Seq<u8>>,
    i: int,
    found: Seq<Hit>,
    m: Matcher,
    since: Option<u64>,
    until: Option<u64>,
    match_full_line: bool,
    strip: bool,
    line: int,
)
    requires
        0 <= i <= line < all.len() <= usize::MAX,
        until is None || window::in_time_order(all),
        is_hit(all[line], m, since, until, match_full_line, strip),
    ensures
        hits_from(all, i, found, m, since, until, match_full_line, strip, None).contains(
            Hit { line_idx: line as usize, timestamp_ms: stamp_of(all[line]) },
        ),
    decreases line - i,
{
    let h = Hit { line_idx: i as usize, timestamp_ms: stamp_of(all[i]) };
    if until is Some && window::has_stamp(all[i]) {
        assert(window::has_stamp(all[line]));
        assert(window::time_of(all[i]) <= window::time_of(all[line]));
    }
    if i == line {
        lemma_found_stay(
            all,
            i + 1,
            found.push(h),
            m,
            since,
            until,
            match_full_line,
            strip,
            None,
        );
        let r = hits_from(all, i, found, m, since, until, match_full_line, strip, None);
        assert(r.take(found.len() as int + 1)[found.len() as int] == h);
        assert(r[found.len() as int] == h);
    } else if is_hit(all[i], m, since, until, match_full_line, strip) {
        lemma_hits_are_complete(
            all,
            i + 1,
            found.push(h),
            m,
            since,
            until,
            match_full_line,
            strip,
            line,
        );
    } else {
        lemma_hits_are_complete(all, i + 1, found, m, since, until, match_full_line, strip, line);
    }
}

/// Without a limit every matching line of the span is a hit, as long as the
/// stamps never go back or the span has no end.
pub proof fn hits_are_complete(
    all: Seq<Seq<u8>>,
    m: Matcher,
    since: Option<u64>,
    until: Option<u64>,
    match_full_line: bool,
    strip: bool,
    line: int,
)
    requires
        0 <= line < all.len() <= usize::MAX,
        until is None || window::in_time_order(all),
        is_hit(all[line], m, since, until, match_full_line, strip),
    ensures
        hits_from(
            all,
            0,
            Seq::empty(),
            m,
            since,
            until,
            match_full_line,
            strip,
            None,
        ).contains(Hit { line_idx: line as usize, timestamp_ms: stamp_of(all[line]) }),
{
    lemma_hits_are_complete(
        all,
        0,
        Seq::empty(),
        m,
        since,
        until,
        match_full_line,
        strip,
        line,
    );
}

proof fn lemma_limit(
    all: Seq<Seq<u8>>,
    i: int,
    found: Seq<Hit>,
    m: Matcher,
    since: Option<u64>,
    until: Option<u64>,
    match_full_line: bool,
    strip: bool,
    limit: u64,
)
    requires
        0 <= i,
        found.len() <= limit,
    ensures
        ({
            let r = hits_from(all, i, found, m, since, until, match_full_line, strip, None);
            hits_from(all, i, found, m, since, until, match_full_line, strip, Some(limit)) == if r.len()
                <= limit {
                r
            } else {
                r.take(limit as int)
            }
        }),
    decreases all.len() - i,
{
    let r = hits_from(all, i, found, m, since, until, match_full_line, strip, None);
    if i < all.len() && !stops_at(all[i], since, until) {
        if found.len() == limit {
            lemma_found_stay(all, i, found, m, since, until, match_full_line, strip, None);
            assert(r.len() == limit ==> r.take(limit as int) =~= r);
        } else if is_hit(all[i], m, since, until, match_full_line, strip) {
            let h = Hit { line_idx: i as usize, timestamp_ms: stamp_of(all[i]) };
            lemma_limit(
                all,
                i + 1,
                found.push(h),
                m,
                since,
                until,
                match_full_line,
                strip,
                limit,
            );
        } else {
            lemma_limit(all, i + 1, found, m, since, until, match_full_line, strip, limit);
        }
    }
}

/// A limit keeps the first hits: those are found that are found without it, up
/// to the limit.
pub proof fn limit_keeps_the_first_hits(
    all: Seq<Seq<u8>>,
    m: Matcher,
    since: Option<u64>,
    until: Option<u64>,
    match_full_line: bool,
    strip: bool,
    limit: u64,
)
    ensures
        ({
            let r = hits_from(
                all,
                0,
                Seq::empty(),
                m,
                since,
                until,
                match_full_line,
                strip,
                None,
            );
            hits_from(
                all,
                0,
                Seq::empty(),
                m,
                since,
                until,
                match_full_line,
                strip,
                Some(limit),
            ) == if r.len() <= limit {
                r
            } else {
                r.take(limit as int)
            }
        }),
{
    lemma_limit(all, 0, Seq::empty(), m, since, until, match_full_line, strip, limit);
}

// ---------------------------------------------------------------------
// Context
// ---------------------------------------------------------------------

/// The lines around a hit, as a half-open range.
pub open spec fn context(h: Hit, total: nat, around: nat) -> (usize, usize) {
    (
        (if h.line_idx < around {
            0
        } else {
            h.line_idx - around
        }) as usize,
        (if h.line_idx + around + 1 < total {
            h.line_idx + around + 1
        } else {
            total as int
        }) as usize,
    )
}

/// The ranges around hits.
pub open spec fn contexts(hits: Seq<Hit>, total: nat, around: nat) -> Seq<(usize, usize)> {
    hits.map_values(|h: Hit| context(h, total, around))
}

/// Puts a range behind the last one that does not start later.
pub open spec fn insert_range(sorted: Seq<(usize, usize)>, w: (usize, usize)) -> Seq<(usize, usize)>
    decreases sorted.len(),
{
    if sorted.len() == 0 || sorted.last().0 <= w.0 {
        sorted.push(w)
    } else {
        insert_range(sorted.drop_last(), w).push(sorted.last())
    }
}

/// Ranges in the order of their starts; those that start together keep their
/// order.
pub open spec fn sort_ranges(ws: Seq<(usize, usize)>) -> Seq<(usize, usize)>
    decreases ws.len(),
{
    if ws.len() == 0 {
        Seq::empty()
    } else {
        insert_range(sort_ranges(ws.drop_last()), ws.last())
    }
}

/// Ranges with each one that overlaps or touches the one before joined to it.
pub open spec fn join_ranges(ws: Seq<(usize, usize)>) -> Seq<(usize, usize)>
    decreases ws.len(),
{
    if ws.len() == 0 {
        Seq::empty()
    } else {
        let front = join_ranges(ws.drop_last());
        let w = ws.last();
        if front.len() > 0 && w.0 <= front.last().1 {
            front.drop_last().push(
                (
                    front.last().0,
                    if w.1 > front.last().1 {
                        w.1
                    } else {
                        front.last().1
                    },
                ),
            )
        } else {
            front.push(w)
        }
    }
}

/// The ranges of lines to show for hits: those around each hit, in order, with
/// ranges that overlap or touch joined.
pub open spec fn blocks_of(hits: Seq<Hit>, total: nat, around: nat) -> Seq<(usize, usize)> {
    join_ranges(sort_ranges(contexts(hits, total, around)))
}

/// Puts a range behind the last one that does not start later.
fn insert_sorted(sorted: &mut Vec<(usize, usize)>, w: (usize, usize))
    ensures
        final(sorted)@ == insert_range(old(sorted)@, w),
{
    let ghost before = sorted@;
    let mut i: usize = sorted.len();
    assert(before.take(i as int) =~= before);
    assert(before.skip(i as int) =~= Seq::empty());
    assert(insert_range(before, w) =~= insert_range(before.take(i as int), w) + before.skip(
        i as int,
    ));
    while i > 0 && sorted[i - 1].0 > w.0
        invariant
            i <= before.len(),
            sorted@ == before,
            insert_range(before, w) == insert_range(before.take(i as int), w) + before.skip(
                i as int,
            ),
        decreases i,
    {
        let ghost front = before.take(i as int);
        assert(front.drop_last() =~= before.take(i - 1));
        assert(front.last() == before[i - 1]);
        assert(insert_range(before.take(i - 1), w).push(before[i - 1]) + before.skip(i as int)
            =~= insert_range(before.take(i - 1), w) + before.skip(i - 1));
        i -= 1;
    }
    proof {
        let front = before.take(i as int);
        if i > 0 {
            assert(front.last() == before[i - 1]);
        }
        assert(insert_range(front, w) == front.push(w));
        assert(before.insert(i as int, w) =~= front.push(w) + before.skip(i as int));
    }
    sorted.insert(i, w);
}

/// The ranges of lines to show for hits.
pub fn coalesce_windows(hits: &[Hit], total_lines: usize, around: usize) -> (r: Vec<
    (usize, usize),
>)
    ensures
        r@ == blocks_of(hits@, total_lines as nat, around as nat),
{
    let ghost ws = contexts(hits@, total_lines as nat, around as nat);
    let mut sorted: Vec<(usize, usize)> = Vec::new();
    let mut i: usize = 0;
    assert(sorted@ =~= sort_ranges(ws.take(0)));
    while i < hits.len()
        invariant
            i <= hits@.len(),
            ws == contexts(hits@, total_lines as nat, around as nat),
            sorted@ == sort_ranges(ws.take(i as int)),
        decreases hits@.len() - i,
    {
        let idx: usize = hits[i].line_idx;
        let start: usize = if idx < around {
            0
        } else {
            idx - around
        };
        let end: usize = if idx < total_lines && around < total_lines - idx {
            if around + 1 < total_lines - idx {
                idx + around + 1
            } else {
                total_lines
            }
        } else {
            total_lines
        };
        assert((start, end) == ws[i as int]);
        assert(ws.take(i + 1).drop_last() =~= ws.take(i as int));
        assert(ws.take(i + 1).last() == ws[i as int]);
        insert_sorted(&mut sorted, (start, end));
        i += 1;
    }
    assert(ws.take(hits@.len() as int) =~= ws);
    let mut merged: Vec<(usize, usize)> = Vec::new();
    let mut j: usize = 0;
    assert(merged@ =~= join_ranges(sorted@.take(0)));
    while j < sorted.len()
        invariant
            j <= sorted@.len(),
            merged@ == join_ranges(sorted@.take(j as int)),
        decreases sorted@.len() - j,
    {
        let w: (usize, usize) = sorted[j];
        assert(sorted@.take(j + 1).drop_last() =~= sorted@.take(j as int));
        assert(sorted@.take(j + 1).last() == w);
        let ghost front = merged@;
        let n: usize = merged.len();
        if n > 0 && w.0 <= merged[n - 1].1 {
            if w.1 > merged[n - 1].1 {
                let first: usize = merged[n - 1].0;
                merged.set(n - 1, (first, w.1));
            }
            assert(merged@ =~= join_ranges(sorted@.take(j + 1)));
        } else {
            merged.push(w);
        }
        j += 1;
    }
    assert(sorted@.take(sorted@.len() as int) =~= sorted@);
    merged
}

/// Whether ranges come in the order of their starts.
spec fn starts_sorted(ws: Seq<(usize, usize)>) -> bool {
    forall|i: int, j: int| 0 <= i <= j < ws.len() ==> (#[trigger] ws[i]).0 <= (#[trigger] ws[j]).0
}

proof fn lemma_insert_range(sorted: Seq<(usize, usize)>, w: (usize, usize))
    requires
        starts_sorted(sorted),
    ensures
        starts_sorted(insert_range(sorted, w)),
        insert_range(sorted, w).len() == sorted.len() + 1,
        forall|x: (usize, usize)| #[trigger]
            insert_range(sorted, w).contains(x) <==> x == w || sorted.contains(x),
        forall|i: int|
            0 <= i < insert_range(sorted, w).len() ==> (#[trigger] insert_range(sorted, w)[i]).0
                <= if sorted.len() > 0 && sorted.last().0 > w.0 {
                sorted.last().0
            } else {
                w.0
            },
    decreases sorted.len(),
{
    let r = insert_range(sorted, w);
    if sorted.len() == 0 || sorted.last().0 <= w.0 {
        assert forall|x: (usize, usize)| #[trigger] r.contains(x) <==> x == w || sorted.contains(
            x,
        ) by {
            if r.contains(x) {
                let k = r.index_of(x);
                if k < sorted.len() {
                    assert(sorted[k] == x);
                }
            }
            if x == w {
                assert(r[sorted.len() as int] == w);
            }
            if sorted.contains(x) {
                let k = sorted.index_of(x);
                assert(r[k] == x);
            }
        }
        assert forall|i: int| 0 <= i < r.len() implies (#[trigger] r[i]).0 <= w.0 by {
            if i < sorted.len() {
                assert(sorted[i].0 <= sorted[sorted.len() - 1].0);
            }
        }
        assert forall|i: int, j: int| 0 <= i <= j < r.len() implies (#[trigger] r[i]).0 <= (
        #[trigger] r[j]).0 by {
            if j < sorted.len() {
                assert(r[i] == sorted[i]);
                assert(r[j] == sorted[j]);
            }
        }
    } else {
        let front = sorted.drop_last();
        let last = sorted.last();
        assert(starts_sorted(front)) by {
            assert forall|i: int, j: int| 0 <= i <= j < front.len() implies (#[trigger] front[i]).0
                <= (#[trigger] front[j]).0 by {
                assert(front[i] == sorted[i]);
                assert(front[j] == sorted[j]);
            }
        }
        lemma_insert_range(front, w);
        let mid = insert_range(front, w);
        assert(r == mid.push(last));
        if front.len() > 0 {
            assert(front.last() == sorted[sorted.len() - 2]);
            assert(sorted[sorted.len() - 2].0 <= sorted[sorted.len() - 1].0);
        }
        assert forall|i: int, j: int| 0 <= i <= j < r.len() implies (#[trigger] r[i]).0 <= (
        #[trigger] r[j]).0 by {
            if j < mid.len() {
                assert(r[i] == mid[i]);
                assert(r[j] == mid[j]);
            } else if i < mid.len() {
                assert(r[i] == mid[i]);
            }
        }
        assert forall|x: (usize, usize)| #[trigger] r.contains(x) <==> x == w || sorted.contains(
            x,
        ) by {
            if r.contains(x) {
                let k = r.index_of(x);
                if k < mid.len() {
                    assert(mid[k] == x);
                    assert(mid.contains(x));
                    if front.contains(x) {
                        let q = front.index_of(x);
                        assert(sorted[q] == x);
                    }
                } else {
                    assert(x == last);
                    assert(sorted[sorted.len() - 1] == x);
                }
            }
            if x == w || sorted.contains(x) {
                if x != w {
                    let q = sorted.index_of(x);
                    if q < front.len() {
                        assert(front[q] == x);
                        assert(front.contains(x));
                    } else {
                        assert(r[mid.len() as int] == x);
                    }
                }
                if x == w || front.contains(x) {
                    assert(mid.contains(x));
                    let q = mid.index_of(x);
                    assert(r[q] == x);
                }
            }
        }
    }
}

proof fn lemma_sort_ranges(ws: Seq<(usize, usize)>)
    ensures
        starts_sorted(sort_ranges(ws)),
        sort_ranges(ws).len() == ws.len(),
        forall|x: (usize, usize)| #[trigger]
            sort_ranges(ws).contains(x) <==> ws.contains(x),
    decreases ws.len(),
{
    if ws.len() > 0 {
        let front = ws.drop_last();
        lemma_sort_ranges(front);
        lemma_insert_range(sort_ranges(front), ws.last());
        assert forall|x: (usize, usize)| #[trigger] sort_ranges(ws).contains(x) <==> ws.contains(
            x,
        ) by {
            if ws.contains(x) {
                let k = ws.index_of(x);
                if k < front.len() {
                    assert(front[k] == x);
                    assert(front.contains(x));
                }
            }
            if front.contains(x) {
                let k = front.index_of(x);
                assert(ws[k] == x);
            }
            if x == ws.last() {
                assert(ws[ws.len() - 1] == x);
            }
            assert(sort_ranges(front).contains(x) <==> front.contains(x));
        }
    }
}

/// Whether a line number lies in a range.
pub open spec fn in_range(w: (usize, usize), line: int) -> bool {
    w.0 <= line < w.1
}

/// Whether a line number lies in one of the ranges.
pub open spec fn in_ranges(ws: Seq<(usize, usize)>, line: int) -> bool {
    exists|i: int| 0 <= i < ws.len() && #[trigger] in_range(ws[i], line)
}

/// Whether ranges are apart, in order, with a gap between each two.
pub open spec fn apart(ws: Seq<(usize, usize)>) -> bool {
    forall|i: int, j: int| 0 <= i < j < ws.len() ==> (#[trigger] ws[i]).1 < (#[trigger] ws[j]).0
}

proof fn lemma_join_ranges(ws: Seq<(usize, usize)>)
    requires
        starts_sorted(ws),
        forall|i: int| 0 <= i < ws.len() ==> (#[trigger] ws[i]).0 < ws[i].1,
    ensures
        apart(join_ranges(ws)),
        forall|i: int|
            0 <= i < join_ranges(ws).len() ==> (#[trigger] join_ranges(ws)[i]).0 < join_ranges(
                ws,
            )[i].1,
        forall|line: int| #[trigger] in_ranges(join_ranges(ws), line) <==> in_ranges(ws, line),
        forall|i: int|
            0 <= i < join_ranges(ws).len() && ws.len() > 0 ==> (#[trigger] join_ranges(ws)[i]).0
                <= ws.last().0,
    decreases ws.len(),
{
    let r = join_ranges(ws);
    if ws.len() > 0 {
        let part = ws.drop_last();
        let w = ws.last();
        let front = join_ranges(part);
        assert(w == ws[ws.len() - 1]);
        assert forall|i: int, j: int| 0 <= i <= j < part.len() implies (#[trigger] part[i]).0 <= (
        #[trigger] part[j]).0 by {
            assert(part[i] == ws[i]);
            assert(part[j] == ws[j]);
        }
        assert forall|i: int| 0 <= i < part.len() implies (#[trigger] part[i]).0 < part[i].1 by {
            assert(part[i] == ws[i]);
        }
        lemma_join_ranges(part);
        if part.len() > 0 {
            assert(part.last() == ws[ws.len() - 2]);
            assert(ws[ws.len() - 2].0 <= ws[ws.len() - 1].0);
        }
        let joins = front.len() > 0 && w.0 <= front.last().1;
        let n = front.len() as int;
        assert forall|line: int| #[trigger] in_ranges(r, line) <==> in_ranges(ws, line) by {
            if in_ranges(ws, line) {
                let k = choose|k: int| 0 <= k < ws.len() && #[trigger] in_range(ws[k], line);
                if k < part.len() {
                    assert(in_range(part[k], line));
                    assert(in_ranges(part, line));
                    assert(in_ranges(front, line));
                    let q = choose|q: int|
                        0 <= q < front.len() && #[trigger] in_range(front[q], line);
                    assert(in_range(r[q], line));
                } else {
                    if joins {
                        assert(part.len() > 0);
                        assert(front[n - 1].0 <= w.0);
                        assert(in_range(r[n - 1], line));
                    } else {
                        assert(in_range(r[n], line));
                    }
                }
            }
            if in_ranges(r, line) {
                let q = choose|q: int| 0 <= q < r.len() && #[trigger] in_range(r[q], line);
                if joins && q == n - 1 {
                    if in_range(front[n - 1], line) {
                        assert(in_ranges(front, line));
                        assert(in_ranges(part, line));
                        let k = choose|k: int|
                            0 <= k < part.len() && #[trigger] in_range(part[k], line);
                        assert(in_range(ws[k], line));
                    } else {
                        assert(in_range(w, line));
                        assert(in_range(ws[ws.len() - 1], line));
                    }
                } else if !joins && q == n {
                    assert(in_range(ws[ws.len() - 1], line));
                } else {
                    assert(in_range(front[q], line));
                    assert(in_ranges(front, line));
                    assert(in_ranges(part, line));
                    let k = choose|k: int| 0 <= k < part.len() && #[trigger] in_range(part[k], line);
                    assert(in_range(ws[k], line));
                }
            }
        }
        if joins {
            assert(part.len() > 0);
            assert(front[n - 1].0 <= part.last().0);
            assert forall|i: int| 0 <= i < r.len() implies (#[trigger] r[i]).0 < r[i].1 by {
                assert(front[i].0 < front[i].1);
            }
            assert forall|i: int, j: int| 0 <= i < j < r.len() implies (#[trigger] r[i]).1 < (
            #[trigger] r[j]).0 by {
                assert(front[i].1 < front[j].0);
            }
            assert forall|i: int| 0 <= i < r.len() implies (#[trigger] r[i]).0 <= w.0 by {
                assert(front[i].0 <= part.last().0);
            }
        } else {
            assert forall|i: int| 0 <= i < r.len() implies (#[trigger] r[i]).0 < r[i].1 by {
                if i < n {
                    assert(front[i].0 < front[i].1);
                }
            }
            assert forall|i: int, j: int| 0 <= i < j < r.len() implies (#[trigger] r[i]).1 < (
            #[trigger] r[j]).0 by {
                if j < n {
                    assert(front[i].1 < front[j].0);
                } else if i < n - 1 {
                    assert(front[i].1 < front[n - 1].0);
                    assert(front[n - 1].0 < front[n - 1].1);
                }
            }
            assert forall|i: int| 0 <= i < r.len() implies (#[trigger] r[i]).0 <= w.0 by {
                if i < n {
                    assert(part.len() > 0);
                    assert(front[i].0 <= part.last().0);
                }
            }
        }
    }
}

/// Whether a line is a hit or has a hit at most `around` lines away.
pub open spec fn near_hit(hits: Seq<Hit>, around: nat, line: int) -> bool {
    exists|i: int|
        0 <= i < hits.len() && -(around as int) <= (#[trigger] hits[i]).line_idx - line
            <= around as int
}

/// The ranges to show are in order and apart, not empty and inside of the log,
/// and together cover exactly the lines that have a hit at most `around` lines
/// away.
pub proof fn blocks_cover_the_context(hits: Seq<Hit>, total: nat, around: nat)
    requires
        total <= usize::MAX,
        forall|i: int| 0 <= i < hits.len() ==> (#[trigger] hits[i]).line_idx < total,
    ensures
        apart(blocks_of(hits, total, around)),
        forall|i: int|
            0 <= i < blocks_of(hits, total, around).len() ==> (#[trigger] blocks_of(
                hits,
                total,
                around,
            )[i]).0 < blocks_of(hits, total, around)[i].1 <= total,
        forall|line: int|
            #![trigger in_ranges(blocks_of(hits, total, around), line)]
            0 <= line < total ==> (in_ranges(blocks_of(hits, total, around), line) <==> near_hit(
                hits,
                around,
                line,
            )),
{
    let ws = contexts(hits, total, around);
    let sorted = sort_ranges(ws);
    let r = join_ranges(sorted);
    lemma_sort_ranges(ws);
    assert forall|i: int| 0 <= i < sorted.len() implies (#[trigger] sorted[i]).0 < sorted[i].1
        && sorted[i].1 <= total by {
        assert(sorted.contains(sorted[i]));
        assert(ws.contains(sorted[i]));
        let k = ws.index_of(sorted[i]);
        assert(ws[k] == context(hits[k], total, around));
        assert(hits[k].line_idx < total);
    }
    lemma_join_ranges(sorted);
    assert forall|line: int| in_ranges(ws, line) <==> #[trigger] in_ranges(sorted, line) by {
        if in_ranges(ws, line) {
            let k = choose|k: int| 0 <= k < ws.len() && #[trigger] in_range(ws[k], line);
            assert(ws.contains(ws[k]));
            assert(sorted.contains(ws[k]));
            let q = sorted.index_of(ws[k]);
            assert(in_range(sorted[q], line));
        }
        if in_ranges(sorted, line) {
            let k = choose|k: int| 0 <= k < sorted.len() && #[trigger] in_range(sorted[k], line);
            assert(sorted.contains(sorted[k]));
            assert(ws.contains(sorted[k]));
            let q = ws.index_of(sorted[k]);
            assert(in_range(ws[q], line));
        }
    }
    assert forall|line: int| 0 <= line < total implies (in_ranges(ws, line) <==> near_hit(
        hits,
        around,
        line,
    )) by {
        if in_ranges(ws, line) {
            let k = choose|k: int| 0 <= k < ws.len() && #[trigger] in_range(ws[k], line);
            assert(ws[k] == context(hits[k], total, around));
            assert(-(around as int) <= hits[k].line_idx - line <= around as int);
        }
        if near_hit(hits, around, line) {
            let k = choose|k: int|
                0 <= k < hits.len() && -(around as int) <= (#[trigger] hits[k]).line_idx - line
                    <= around as int;
            assert(ws[k] == context(hits[k], total, around));
            assert(in_range(ws[k], line));
        }
    }
    assert forall|i: int| 0 <= i < r.len() implies (#[trigger] r[i]).0 < r[i].1 <= total by {
        let line = r[i].1 - 1;
        assert(in_range(r[i], line));
        assert(in_ranges(r, line));
        assert(in_ranges(sorted, line));
        let k = choose|k: int| 0 <= k < sorted.len() && #[trigger] in_range(sorted[k], line);
        assert(sorted[k].1 <= total);
    }
    assert forall|line: int|
        #![trigger in_ranges(r, line)]
        0 <= line < total implies (in_ranges(r, line) <==> near_hit(hits, around, line)) by {
        assert(in_ranges(r, line) <==> in_ranges(sorted, line));
    }
}

// ---------------------------------------------------------------------
// Showing hits
// ---------------------------------------------------------------------

/// Lines `from` to `to` one after the other.
pub open spec fn run_of(all: Seq<Seq<u8>>, from: int, to: int) -> Seq<u8>
    decreases to - from,
{
    if from >= to {
        Seq::empty()
    } else {
        run_of(all, from, to - 1) + all[to - 1]
    }
}

/// What stands between two blocks.
pub open spec fn separator() -> Seq<u8> {
    seq![45u8, 45u8, NL]
}

/// The state of the stripper behind blocks.
pub open spec fn strip_state(all: Seq<Seq<u8>>, blocks: Seq<(usize, usize)>) -> StripState
    decreases blocks.len(),
{
    if blocks.len() == 0 {
        StripState::Normal
    } else {
        let b = blocks.last();
        pty::strip_end(
            strip_state(all, blocks.drop_last()),
            run_of(all, b.0 as int, b.1 as int),
        )
    }
}

/// Blocks of lines with a separator between each two. Stripping goes on from
/// one block to the next.
pub open spec fn plain_text(
    all: Seq<Seq<u8>>,
    blocks: Seq<(usize, usize)>,
    strip: bool,
) -> Seq<u8>
    decreases blocks.len(),
{
    if blocks.len() == 0 {
        Seq::empty()
    } else {
        let front = blocks.drop_last();
        let b = blocks.last();
        let bytes = run_of(all, b.0 as int, b.1 as int);
        plain_text(all, front, strip) + (if front.len() > 0 {
            separator()
        } else {
            Seq::empty()
        }) + (if strip {
            pty::stripped(strip_state(all, front), bytes)
        } else {
            bytes
        })
    }
}

/// Each hit with `around` lines before and behind it, blocks that touch joined,
/// and `--` between the others.
pub fn emit_plain(all: &[&[u8]], hits: &[Hit], around: usize, strip_ansi: bool) -> (r: Vec<u8>)
    requires
        forall|i: int| 0 <= i < hits@.len() ==> (#[trigger] hits@[i]).line_idx < all@.len(),
    ensures
        r@ == plain_text(
            lines::views(all@),
            blocks_of(hits@, all@.len(), around as nat),
            strip_ansi,
        ),
{
    let ghost texts = lines::views(all@);
    let blocks = coalesce_windows(hits, all.len(), around);
    proof {
        blocks_cover_the_context(hits@, all@.len(), around as nat);
    }
    let mut out: Vec<u8> = Vec::new();
    let mut stripper = AnsiStripper::new();
    let mut i: usize = 0;
    assert(out@ =~= plain_text(texts, blocks@.take(0), strip_ansi));
    assert(blocks@.take(0).len() == 0);
    while i < blocks.len()
        invariant
            i <= blocks@.len(),
            texts == lines::views(all@),
            forall|k: int|
                0 <= k < blocks@.len() ==> (#[trigger] blocks@[k]).0 < blocks@[k].1 <= all@.len(),
            out@ == plain_text(texts, blocks@.take(i as int), strip_ansi),
            strip_ansi ==> stripper.state() == strip_state(texts, blocks@.take(i as int)),
        decreases blocks@.len() - i,
    {
        let ghost before = out@;
        let ghost done = blocks@.take(i as int);
        assert(blocks@.take(i + 1).drop_last() =~= done);
        assert(blocks@.take(i + 1).last() == blocks@[i as int]);
        if i > 0 {
            out.push(45);
            out.push(45);
            out.push(NL);
        }
        let ghost sep = if i > 0 {
            separator()
        } else {
            Seq::empty()
        };
        assert(out@ =~= before + sep);
        let (from, to) = blocks[i];
        let mut k: usize = from;
        let ghost state = strip_state(texts, done);
        proof {
            assert(run_of(texts, from as int, from as int) =~= Seq::<u8>::empty());
            assert(out@ =~= before + sep + (if strip_ansi {
                pty::stripped(state, Seq::<u8>::empty())
            } else {
                Seq::<u8>::empty()
            }));
        }
        while k < to
            invariant
                from <= k <= to <= all@.len(),
                texts == lines::views(all@),
                out@ == before + sep + (if strip_ansi {
                    pty::stripped(state, run_of(texts, from as int, k as int))
                } else {
                    run_of(texts, from as int, k as int)
                }),
                strip_ansi ==> stripper.state() == pty::strip_end(
                    state,
                    run_of(texts, from as int, k as int),
                ),
            decreases to - k,
        {
            let line: &[u8] = all[k];
            assert(texts[k as int] == line@);
            let ghost shown = run_of(texts, from as int, k as int);
            assert(run_of(texts, from as int, k + 1) == shown + line@);
            if strip_ansi {
                proof {
                    pty::strip_is_chunk_independent(state, shown, line@);
                }
                stripper.feed(line, &mut out);
                assert(out@ =~= before + sep + pty::stripped(state, shown + line@));
            } else {
                append_bytes(&mut out, line);
                assert(out@ =~= before + sep + (shown + line@));
            }
            k += 1;
        }
        i += 1;
    }
    assert(blocks@.take(blocks@.len() as int) =~= blocks@);
    out
}

/// A line that matches, by number.
#[derive(Clone, Copy, Debug, PartialEq, Eq, Structural)]
pub struct MatchEntry {
    pub line_no: usize,
    pub timestamp_ms: Option<u64>,
}

/// A line that is shown.
pub struct LineEntry {
    pub line_no: usize,
    pub is_match: bool,
    pub content: String,
}

/// A block of lines. Line numbers start at one, and the last one is not part
/// of the block.
pub struct Block {
    pub start_line_no: usize,
    pub end_line_no: usize,
    pub matches: Vec<MatchEntry>,
    pub lines: Vec<LineEntry>,
}

/// Hits in machine-readable form.
pub struct GrepReport {
    pub hits: usize,
    pub blocks: Vec<Block>,
}

/// The time of the first hit on a line, if there is a hit on it.
pub open spec fn first_hit(hits: Seq<Hit>, line: int) -> Option<Option<u64>>
    decreases hits.len(),
{
    if hits.len() == 0 {
        None
    } else if first_hit(hits.drop_last(), line) is Some {
        first_hit(hits.drop_last(), line)
    } else if hits.last().line_idx == line {
        Some(hits.last().timestamp_ms)
    } else {
        None
    }
}

/// The matches among lines `from` to `to`, in order.
pub open spec fn matches_of(hits: Seq<Hit>, from: int, to: int) -> Seq<MatchEntry>
    decreases to - from,
{
    if from >= to {
        Seq::empty()
    } else {
        match first_hit(hits, to - 1) {
            Some(ts) => matches_of(hits, from, to - 1).push(
                MatchEntry { line_no: to as usize, timestamp_ms: ts },
            ),
            None => matches_of(hits, from, to - 1),
        }
    }
}

/// Whether a block shows lines `w.0` to `w.1`.
pub open spec fn is_block(b: Block, all: Seq<Seq<u8>>, hits: Seq<Hit>, w: (usize, usize)) -> bool {
    &&& b.start_line_no == w.0 + 1
    &&& b.end_line_no == w.1 + 1
    &&& b.matches@ == matches_of(hits, w.0 as int, w.1 as int)
    &&& b.lines@.len() == w.1 - w.0
    &&& forall|i: int|
        0 <= i < b.lines@.len() ==> {
            let e = #[trigger] b.lines@[i];
            &&& e.line_no == w.0 + i + 1
            &&& e.is_match == (first_hit(hits, w.0 + i) is Some)
            &&& e.content@ == text::lossy_text(all[w.0 + i])
            &&& valid_utf8(all[w.0 + i]) ==> e.content@ == decode_utf8(all[w.0 + i])
        }
}

/// The first hit of each line, by line.
fn index_hits(hits: &[Hit]) -> (r: HashMap<usize, Option<u64>>)
    ensures
        forall|line: usize| #[trigger]
            r@.contains_key(line) <==> first_hit(hits@, line as int) is Some,
        forall|line: usize| #[trigger]
            r@.contains_key(line) ==> Some(r@[line]) == first_hit(hits@, line as int),
{
    broadcast use vstd::std_specs::hash::group_hash_axioms;

    let mut map: HashMap<usize, Option<u64>> = HashMap::new();
    let mut i: usize = 0;
    assert(hits@.take(0).len() == 0);
    while i < hits.len()
        invariant
            i <= hits@.len(),
            forall|line: usize| #[trigger]
                map@.contains_key(line) <==> first_hit(hits@.take(i as int), line as int) is Some,
            forall|line: usize| #[trigger]
                map@.contains_key(line) ==> Some(map@[line]) == first_hit(
                    hits@.take(i as int),
                    line as int,
                ),
        decreases hits@.len() - i,
    {
        let h = hits[i];
        assert(hits@.take(i + 1).drop_last() =~= hits@.take(i as int));
        assert(hits@.take(i + 1).last() == h);
        let key: usize = h.line_idx;
        if !map.contains_key(&key) {
            map.insert(key, h.timestamp_ms);
        }
        i += 1;
    }
    assert(hits@.take(hits@.len() as int) =~= hits@);
    map
}

/// Each hit with `around` lines before and behind it, in machine-readable
/// form.
pub fn emit_json(all: &[&[u8]], hits: &[Hit], around: usize) -> (r: GrepReport)
    requires
        all@.len() < usize::MAX,
        forall|i: int| 0 <= i < hits@.len() ==> (#[trigger] hits@[i]).line_idx < all@.len(),
    ensures
        r.hits == hits@.len(),
        r.blocks@.len() == blocks_of(hits@, all@.len(), around as nat).len(),
        forall|i: int|
            0 <= i < r.blocks@.len() ==> is_block(
                #[trigger] r.blocks@[i],
                lines::views(all@),
                hits@,
                blocks_of(hits@, all@.len(), around as nat)[i],
            ),
{
    broadcast use vstd::std_specs::hash::group_hash_axioms;

    let ghost texts = lines::views(all@);
    let ranges = coalesce_windows(hits, all.len(), around);
    proof {
        blocks_cover_the_context(hits@, all@.len(), around as nat);
    }
    let index = index_hits(hits);
    let mut blocks: Vec<Block> = Vec::new();
    let mut i: usize = 0;
    while i < ranges.len()
        invariant
            i <= ranges@.len(),
            all@.len() < usize::MAX,
            texts == lines::views(all@),
            forall|k: int|
                0 <= k < ranges@.len() ==> (#[trigger] ranges@[k]).0 < ranges@[k].1 <= all@.len(),
            forall|line: usize| #[trigger]
                index@.contains_key(line) <==> first_hit(hits@, line as int) is Some,
            forall|line: usize| #[trigger]
                index@.contains_key(line) ==> Some(index@[line]) == first_hit(hits@, line as int),
            blocks@.len() == i,
            forall|k: int|
                0 <= k < blocks@.len() ==> is_block(
                    #[trigger] blocks@[k],
                    texts,
                    hits@,
                    ranges@[k],
                ),
        decreases ranges@.len() - i,
    {
        let (from, to) = ranges[i];
        assert(ranges@[i as int].0 < ranges@[i as int].1 <= all@.len());
        let mut matches: Vec<MatchEntry> = Vec::new();
        let mut shown: Vec<LineEntry> = Vec::new();
        let mut k: usize = from;
        while k < to
            invariant
                from <= k <= to <= all@.len(),
                all@.len() < usize::MAX,
                texts == lines::views(all@),
                forall|line: usize| #[trigger]
                    index@.contains_key(line) <==> first_hit(hits@, line as int) is Some,
                forall|line: usize| #[trigger]
                    index@.contains_key(line) ==> Some(index@[line]) == first_hit(
                        hits@,
                        line as int,
                    ),
                matches@ == matches_of(hits@, from as int, k as int),
                shown@.len() == k - from,
                forall|j: int|
                    0 <= j < shown@.len() ==> {
                        let e = #[trigger] shown@[j];
                        &&& e.line_no == from + j + 1
                        &&& e.is_match == (first_hit(hits@, from + j) is Some)
                        &&& e.content@ == text::lossy_text(texts[from + j])
                        &&& valid_utf8(texts[from + j]) ==> e.content@ == decode_utf8(
                            texts[from + j],
                        )
                    },
            decreases to - k,
        {
            let line: &[u8] = all[k];
            assert(texts[k as int] == line@);
            assert(index@.contains_key(k) <==> first_hit(hits@, k as int) is Some);
            let found = index.get(&k);
            let is_match = match found {
                Some(ts) => {
                    matches.push(MatchEntry { line_no: k + 1, timestamp_ms: *ts });
                    true
                },
                None => false,
            };
            shown.push(LineEntry { line_no: k + 1, is_match, content: decode_lossy(line) });
            k += 1;
        }
        blocks.push(
            Block { start_line_no: from + 1, end_line_no: to + 1, matches, lines: shown },
        );
        i += 1;
    }
    GrepReport { hits: hits.len(), blocks }
}

// ---------------------------------------------------------------------
// A whole search
// ---------------------------------------------------------------------

/// What a search gives.
pub enum GrepOutcome {
    Json(GrepReport),
    Plain(Vec<u8>),
}

/// The pattern that options ask for, or why there is none.
pub open spec fn pattern_of(o: GrepOptions, file_text: Result<String, String>) -> Result<
    Seq<char>,
    Seq<char>,
> {
    match pattern_conflict(o.pattern is Some, o.pattern_file is Some) {
        Some(e) => Err(e),
        None => match o.pattern {
            Some(p) => Ok(p@),
            None => match file_text {
                Ok(content) => Ok(text::strip_all_suffix(content@, "\n"@)),
                Err(e) => Err(
                    "read --pattern-file "@ + o.pattern_file->0@ + ": "@ + e@,
                ),
            },
        },
    }
}

/// The hits of a search that can run.
pub open spec fn found_hits(o: GrepOptions, m: Matcher, now: nat, log: Seq<u8>) -> Seq<Hit> {
    hits_from(
        lines::all_lines(log),
        0,
        Seq::empty(),
        m,
        tail::time_option("--since: "@, tail::opt_text(o.since), now)->Ok_0,
        tail::time_option("--until: "@, tail::opt_text(o.until), now)->Ok_0,
        o.match_full_line,
        o.strip_ansi,
        o.limit,
    )
}

/// Whether a matcher is the one for a pattern and options.
pub open spec fn is_matcher(m: Matcher, o: GrepOptions, pattern: Seq<char>) -> bool {
    m.pattern() == pattern && m.multi_line() == o.multiline && m.ignore_case() == o.ignore_case
}

/// Whether a span of time is asked for in a log in which no line carries a
/// stamp.
pub open spec fn lacks_stamps(o: GrepOptions, log: Seq<u8>) -> bool {
    (o.since is Some || o.until is Some) && !window::any_stamp(lines::all_lines(log))
}

/// Whether any line carries a stamp.
fn has_stamps(all: &[&[u8]]) -> (r: bool)
    ensures
        r == window::any_stamp(lines::views(all@)),
{
    let ghost texts = lines::views(all@);
    let mut i: usize = 0;
    while i < all.len()
        invariant
            i <= all@.len(),
            texts == lines::views(all@),
            forall|j: int| 0 <= j < i ==> #[trigger] pty::ms_prefix_of(texts[j]) is None,
        decreases all@.len() - i,
    {
        assert(texts[i as int] == all@[i as int]@);
        if parse_ms_prefix(all[i]).is_some() {
            assert(pty::ms_prefix_of(texts[i as int]) is Some);
            return true;
        }
        i += 1;
    }
    false
}

/// Whether an outcome shows the hits of a search.
pub open spec fn shows_hits(r: GrepOutcome, o: GrepOptions, log: Seq<u8>, hits: Seq<Hit>) -> bool {
    let all = lines::all_lines(log);
    let blocks = blocks_of(hits, all.len(), o.around as nat);
    if o.json {
        &&& r matches GrepOutcome::Json(rep)
        &&& rep.hits == hits.len()
        &&& rep.blocks@.len() == blocks.len()
        &&& forall|i: int|
            0 <= i < rep.blocks@.len() ==> is_block(
                #[trigger] rep.blocks@[i],
                all,
                hits,
                blocks[i],
            )
    } else {
        r matches GrepOutcome::Plain(b) && b@ == plain_text(all, blocks, o.strip_ansi)
    }
}

/// The number of lines of a log is at most the number of its bytes.
proof fn lemma_line_count(s: Seq<u8>)
    ensures
        lines::all_lines(s).len() <= s.len(),
{
    lines::finished_and_unfinished_are_all(s);
    let f = lines::finished(s);
    let u = lines::unfinished(s);
    lines::count_adds(f.flatten(), u, NL);
    lines::count_le_len(f.flatten(), NL);
}

/// Searches a log as options ask for, at a point in time. What became of
/// reading the pattern file is looked at only where it is needed, and the log
/// may be missing.
pub fn run(
    o: &GrepOptions,
    file_text: Result<String, String>,
    log: Option<&[u8]>,
    now: u64,
) -> (r: Result<GrepOutcome, String>)
    requires
        log matches Some(bytes) ==> bytes@.len() < usize::MAX,
    ensures
        if !ids::valid_id(o.id@) {
            r matches Err(t) && t@ == "invalid id "@ + text::debug_text(o.id@)
        } else {
            match pattern_of(*o, file_text) {
                Err(e) => r matches Err(t) && t@ == e,
                Ok(pattern) => match plan_error(*o, pattern, now as nat) {
                    Some(e) => r matches Err(t) && t@ == e,
                    None => match log {
                        None => r matches Err(t) && t@ == "no log for id "@ + text::debug_text(
                            o.id@,
                        ),
                        Some(bytes) => if lacks_stamps(*o, bytes@) {
                            r matches Err(t) && t@ == tail::unstamped_text("--since/--until"@)
                        } else {
                            r matches Ok(out) && exists|m: Matcher| #[trigger]
                                is_matcher(m, *o, pattern) && shows_hits(
                                    out,
                                    *o,
                                    bytes@,
                                    found_hits(*o, m, now as nat, bytes@),
                                )
                        },
                    },
                },
            }
        },
{
    match check_id(o) {
        Ok(_) => {},
        Err(e) => {
            return Err(e);
        },
    }
    let pattern = match resolve_pattern(o.pattern.clone(), o.pattern_file.clone(), file_text) {
        Ok(p) => p,
        Err(e) => {
            return Err(e);
        },
    };
    let ready = match plan(o, pattern.as_str(), now) {
        Ok(p) => p,
        Err(e) => {
            return Err(e);
        },
    };
    let bytes: &[u8] = match log {
        Some(b) => b,
        None => {
            return Err(concat2("no log for id ", quoted(o.id.as_str()).as_str()));
        },
    };
    let all = split_lines(bytes);
    if (o.since.is_some() || o.until.is_some()) && !has_stamps(all.as_slice()) {
        return Err(unstamped_error("--since/--until"));
    }
    let hits = search_lines(
        all.as_slice(),
        &ready.matcher,
        ready.since,
        ready.until,
        o.match_full_line,
        o.strip_ansi,
        o.limit,
    );
    proof {
        lemma_line_count(bytes@);
        assert(lines::views(all@).len() == all@.len());
        hits_are_sound(
            lines::all_lines(bytes@),
            ready.matcher,
            ready.since,
            ready.until,
            o.match_full_line,
            o.strip_ansi,
            o.limit,
        );
        assert(is_matcher(ready.matcher, *o, pattern@));
    }
    if o.json {
        Ok(GrepOutcome::Json(emit_json(all.as_slice(), hits.as_slice(), o.around)))
    } else {
        Ok(
            GrepOutcome::Plain(
                emit_plain(all.as_slice(), hits.as_slice(), o.around, o.strip_ansi),
            ),
        )
    }
}

// ---------------------------------------------------------------------
// Laws
// ---------------------------------------------------------------------

/// The end of a line comes off, a line feed with or without a carriage return, and
/// nothing else.
pub proof fn line_ends_come_off(t: Seq<u8>)
    ensures
        t.len() == 0 || t.last() != 13 ==> chomped(t.push(10u8)) == t,
        chomped(t + seq![13u8, 10u8]) == t,
        t.len() > 0 && t.last() != 10 && t.last() != 13 ==> chomped(t) == t,
        chomped(Seq::empty()) == Seq::<u8>::empty(),
{
    assert(t.push(10u8).drop_last() =~= t);
    let s = t + seq![13u8, 10u8];
    assert(s.drop_last() =~= t.push(13u8));
    assert(t.push(13u8).drop_last() =~= t);
    assert(s.last() == 10u8);
}

/// All of a line is searched: everything but its end and its stamp, and the stamp
/// too where that is asked for.
pub proof fn all_of_a_line_is_searched(ms: u64, t: Seq<u8>, full: bool)
    requires
        !t.contains(10u8),
        t.len() == 0 || t.last() != 13,
    ensures
        pty::ms_prefix_of(t.push(10u8)) is None ==> searched(t.push(10u8), full, false) == t,
        pty::ms_prefix_of(t + seq![13u8, 10u8]) is None ==> searched(
            t + seq![13u8, 10u8],
            full,
            false,
        ) == t,
        t.len() == 0 || t[0] != 91 ==> searched(t.push(10u8), full, false) == t && searched(
            t + seq![13u8, 10u8],
            full,
            false,
        ) == t && searched(t, full, false) == t,
        searched(pty::ms_prefix_bytes(ms as nat) + t.push(10u8), false, false) == t,
        searched(pty::ms_prefix_bytes(ms as nat) + (t + seq![13u8, 10u8]), false, false) == t,
        searched(pty::ms_prefix_bytes(ms as nat) + t.push(10u8), true, false)
            == pty::ms_prefix_bytes(ms as nat) + t,
        !t.contains(0x1bu8) && (t.len() == 0 || t[0] != 91) ==> searched(t.push(10u8), full, true)
            == t,
        !t.contains(0x1bu8) ==> searched(
            pty::ms_prefix_bytes(ms as nat) + t.push(10u8),
            false,
            true,
        ) == t,
{
    let p = pty::ms_prefix_bytes(ms as nat);
    let crlf = t + seq![13u8, 10u8];
    line_ends_come_off(t);
    pty::stamp_reads_back(ms, t.push(10u8));
    pty::stamp_reads_back(ms, crlf);
    pty::ms_prefix_bytes_shape(ms as nat);
    assert(p + t.push(10u8) =~= (p + t).push(10u8));
    assert((p + t).last() != 13) by {
        if t.len() > 0 {
            assert((p + t).last() == t.last());
        } else {
            assert((p + t).last() == p[p.len() - 1]);
        }
    }
    line_ends_come_off(p + t);
    pty::other_lines_carry_no_stamp(t.push(10u8), 0);
    pty::other_lines_carry_no_stamp(crlf, 0);
    pty::other_lines_carry_no_stamp(t, 0);
    if t.len() > 0 {
        assert(t.push(10u8)[0] == t[0]);
        assert(crlf[0] == t[0]);
        assert(t.last() == t[t.len() - 1]);
        assert(t.contains(t.last()));
    } else {
        assert(t.push(10u8)[0] == 10u8);
        assert(crlf[0] == 13u8);
        assert(t =~= Seq::<u8>::empty());
    }
    if !t.contains(0x1bu8) {
        let u = t.push(10u8);
        assert forall|i: int| 0 <= i < u.len() implies u[i] != 0x1b by {
            if i < t.len() {
                assert(t.contains(t[i]));
            }
        }
        pty::strip_keeps_plain_text(u);
    }
}

/// A line is a hit where the pattern matches its text and its stamp lies in the
/// span; with a span, a line without a stamp never is.
pub proof fn hits_are_matching_lines(
    ms: u64,
    t: Seq<u8>,
    m: Matcher,
    since: Option<u64>,
    until: Option<u64>,
    full: bool,
)
    requires
        !t.contains(10u8),
        t.len() == 0 || t.last() != 13,
    ensures
        t.len() == 0 || t[0] != 91 ==> (is_hit(t.push(10u8), m, None, None, full, false)
            <==> m.hits(text::lossy_text(t))),
        (t.len() == 0 || t[0] != 91) && (since is Some || until is Some) ==> !is_hit(
            t.push(10u8),
            m,
            since,
            until,
            full,
            false,
        ),
        is_hit(pty::ms_prefix_bytes(ms as nat) + t.push(10u8), m, since, until, false, false)
            <==> (since is None || since->0 <= ms) && (until is None || ms <= until->0) && m.hits(
            text::lossy_text(t),
        ),
        stamp_of(pty::ms_prefix_bytes(ms as nat) + t.push(10u8)) == Some(ms),
        t.len() == 0 || t[0] != 91 ==> stamp_of(t.push(10u8)) is None,
        stops_at(pty::ms_prefix_bytes(ms as nat) + t.push(10u8), since, until) ==> until is Some
            && ms > until->0,
        t.len() == 0 || t[0] != 91 ==> !stops_at(t.push(10u8), since, until),
        pty::ms_prefix_of(t.push(10u8)) is None ==> stamp_of(t.push(10u8)) is None && !stops_at(
            t.push(10u8),
            since,
            until,
        ) && (is_hit(t.push(10u8), m, None, None, full, false) <==> m.hits(text::lossy_text(t)))
            && (since is Some || until is Some ==> !is_hit(
            t.push(10u8),
            m,
            since,
            until,
            full,
            false,
        )),
        pty::ms_prefix_of(t.push(10u8)) matches Some(p) ==> stamp_of(t.push(10u8)) == Some(p.0),
{
    all_of_a_line_is_searched(ms, t, full);
    pty::stamp_reads_back(ms, t.push(10u8));
    pty::other_lines_carry_no_stamp(t.push(10u8), 0);
    if t.len() > 0 {
        assert(t.push(10u8)[0] == t[0]);
    } else {
        assert(t.push(10u8)[0] == 10u8);
    }
}

/// Without a span and a limit, exactly the lines that match are found.
pub proof fn a_search_finds_the_matching_lines(
    o: GrepOptions,
    m: Matcher,
    now: nat,
    log: Seq<u8>,
    i: int,
)
    requires
        o.since is None,
        o.until is None,
        o.limit is None,
        0 <= i < lines::all_lines(log).len() <= usize::MAX,
    ensures
        (exists|j: int|
            0 <= j < found_hits(o, m, now, log).len() && (#[trigger] found_hits(
                o,
                m,
                now,
                log,
            )[j]).line_idx == i) <==> m.hits(
            text::lossy_text(searched(lines::all_lines(log)[i], o.match_full_line, o.strip_ansi)),
        ),
{
    let all = lines::all_lines(log);
    let r = found_hits(o, m, now, log);
    hits_are_sound(all, m, None, None, o.match_full_line, o.strip_ansi, None);
    if m.hits(text::lossy_text(searched(all[i], o.match_full_line, o.strip_ansi))) {
        assert(is_hit(all[i], m, None, None, o.match_full_line, o.strip_ansi));
        hits_are_complete(all, m, None, None, o.match_full_line, o.strip_ansi, i);
        let h = Hit { line_idx: i as usize, timestamp_ms: stamp_of(all[i]) };
        let j = choose|j: int| 0 <= j < r.len() && r[j] == h;
        assert(r[j].line_idx == i);
    }
}

/// A block shows its lines, all of them and one after the other.
pub proof fn blocks_show_their_lines(all: Seq<Seq<u8>>, from: int, to: int)
    requires
        0 <= from <= to <= all.len(),
    ensures
        run_of(all, from, to) == all.subrange(from, to).flatten(),
    decreases to - from,
{
    if from < to {
        blocks_show_their_lines(all, from, to - 1);
        all.subrange(from, to - 1).lemma_flatten_push(all[to - 1]);
        assert(all.subrange(from, to) =~= all.subrange(from, to - 1).push(all[to - 1]));
    } else {
        assert(all.subrange(from, to) =~= Seq::<Seq<u8>>::empty());
    }
}

/// Plain output is the lines of each block, with `--` on a line of its own between
/// each two.
pub proof fn plain_output_is_the_blocks(
    all: Seq<Seq<u8>>,
    blocks: Seq<(usize, usize)>,
    b: (usize, usize),
    strip: bool,
)
    requires
        b.0 <= b.1 <= all.len(),
    ensures
        plain_text(all, Seq::empty(), strip) == Seq::<u8>::empty(),
        plain_text(all, seq![b], false) == all.subrange(b.0 as int, b.1 as int).flatten(),
        plain_text(all, seq![b], true) == pty::strip_choice(
            true,
            all.subrange(b.0 as int, b.1 as int).flatten(),
        ),
        blocks.len() > 0 ==> plain_text(all, blocks.push(b), false) == plain_text(
            all,
            blocks,
            false,
        ) + seq![45u8, 45u8, 10u8] + all.subrange(b.0 as int, b.1 as int).flatten(),
        blocks.len() > 0 ==> plain_text(all, blocks.push(b), true).len() >= plain_text(
            all,
            blocks,
            true,
        ).len() + 3 && plain_text(all, blocks.push(b), true).take(
            plain_text(all, blocks, true).len() as int + 3,
        ) == plain_text(all, blocks, true) + seq![45u8, 45u8, 10u8],
        blocks.len() > 0 && !all.subrange(b.0 as int, b.1 as int).flatten().contains(0x1bu8)
            && strip_state(all, blocks) == StripState::Normal ==> plain_text(
            all,
            blocks.push(b),
            true,
        ) == plain_text(all, blocks, true) + seq![45u8, 45u8, 10u8] + all.subrange(
            b.0 as int,
            b.1 as int,
        ).flatten(),
{
    blocks_show_their_lines(all, b.0 as int, b.1 as int);
    assert(blocks.push(b).drop_last() =~= blocks);
    assert(seq![b].drop_last() =~= Seq::<(usize, usize)>::empty());
    let bytes = run_of(all, b.0 as int, b.1 as int);
    let none = Seq::<u8>::empty();
    reveal_with_fuel(plain_text, 2);
    assert(none + none + bytes =~= bytes);
    assert(none + none + pty::stripped(StripState::Normal, bytes) =~= pty::stripped(
        StripState::Normal,
        bytes,
    ));
    let front = plain_text(all, blocks, true) + seq![45u8, 45u8, 10u8];
    if blocks.len() > 0 {
        assert(plain_text(all, blocks.push(b), true).take(front.len() as int) =~= front);
    }
    if !bytes.contains(0x1bu8) {
        assert forall|i: int| 0 <= i < bytes.len() implies bytes[i] != 0x1b by {
            assert(bytes.contains(bytes[i]));
        }
        pty::strip_keeps_plain_text(bytes);
    }
}

proof fn lemma_first_hit(hits: Seq<Hit>, line: int)
    ensures
        first_hit(hits, line) is Some <==> exists|i: int|
            0 <= i < hits.len() && (#[trigger] hits[i]).line_idx == line,
        first_hit(hits, line) matches Some(ts) ==> exists|i: int|
            0 <= i < hits.len() && (#[trigger] hits[i]).line_idx == line && hits[i].timestamp_ms
                == ts && forall|j: int| 0 <= j < i ==> (#[trigger] hits[j]).line_idx != line,
    decreases hits.len(),
{
    if hits.len() > 0 {
        let front = hits.drop_last();
        lemma_first_hit(front, line);
        if first_hit(front, line) is Some {
            let i = choose|i: int|
                0 <= i < front.len() && (#[trigger] front[i]).line_idx == line
                    && front[i].timestamp_ms == first_hit(front, line)->0 && forall|j: int|
                    0 <= j < i ==> (#[trigger] front[j]).line_idx != line;
            assert(hits[i] == front[i]);
            assert forall|j: int| 0 <= j < i implies (#[trigger] hits[j]).line_idx != line by {
                assert(hits[j] == front[j]);
            }
        } else {
            assert forall|j: int| 0 <= j < front.len() implies (#[trigger] hits[j]).line_idx
                != line by {
                assert(hits[j] == front[j]);
            }
            if hits.last().line_idx == line {
                assert(hits[hits.len() - 1].line_idx == line);
            }
        }
    }
}

proof fn lemma_matches(hits: Seq<Hit>, from: int, to: int)
    requires
        0 <= from <= to <= usize::MAX,
    ensures
        forall|k: int|
            0 <= k < matches_of(hits, from, to).len() ==> from < (#[trigger] matches_of(
                hits,
                from,
                to,
            )[k]).line_no <= to && first_hit(hits, matches_of(hits, from, to)[k].line_no - 1)
                == Some(matches_of(hits, from, to)[k].timestamp_ms),
        forall|j: int, k: int|
            0 <= j < k < matches_of(hits, from, to).len() ==> (#[trigger] matches_of(
                hits,
                from,
                to,
            )[j]).line_no < (#[trigger] matches_of(hits, from, to)[k]).line_no,
        forall|line: int|
            from <= line < to && (#[trigger] first_hit(hits, line)) is Some ==> exists|k: int|
                0 <= k < matches_of(hits, from, to).len() && (#[trigger] matches_of(
                    hits,
                    from,
                    to,
                )[k]).line_no == line + 1,
    decreases to - from,
{
    if from < to {
        let front = matches_of(hits, from, to - 1);
        let all = matches_of(hits, from, to);
        lemma_matches(hits, from, to - 1);
        assert forall|line: int|
            from <= line < to && (#[trigger] first_hit(hits, line)) is Some implies exists|k: int|
            0 <= k < all.len() && (#[trigger] all[k]).line_no == line + 1 by {
            if line < to - 1 {
                let k = choose|k: int|
                    0 <= k < front.len() && (#[trigger] front[k]).line_no == line + 1;
                assert(all[k] == front[k]);
            } else {
                assert(all[all.len() - 1].line_no == line + 1);
            }
        }
    }
}

/// A block of a report has the numbers of its lines, every one of them with its
/// text, and says of each whether it was hit; its matches are the lines that were
/// hit, in order, each with the time of its first hit.
pub proof fn blocks_report_their_lines(
    b: Block,
    all: Seq<Seq<u8>>,
    hits: Seq<Hit>,
    w: (usize, usize),
)
    requires
        is_block(b, all, hits, w),
        w.0 <= w.1 <= all.len() < usize::MAX,
    ensures
        b.start_line_no == w.0 + 1,
        b.end_line_no == w.1 + 1,
        b.lines@.len() == w.1 - w.0,
        forall|i: int|
            0 <= i < b.lines@.len() ==> (#[trigger] b.lines@[i]).line_no == w.0 + i + 1 && (
            valid_utf8(all[w.0 + i]) ==> b.lines@[i].content@ == decode_utf8(all[w.0 + i])) && (
            b.lines@[i].is_match <==> exists|j: int|
                0 <= j < hits.len() && (#[trigger] hits[j]).line_idx == w.0 + i),
        forall|k: int|
            0 <= k < b.matches@.len() ==> exists|j: int|
                0 <= j < hits.len() && (#[trigger] hits[j]).line_idx + 1 == (
                #[trigger] b.matches@[k]).line_no && hits[j].timestamp_ms
                    == b.matches@[k].timestamp_ms,
        forall|j: int|
            0 <= j < hits.len() && w.0 <= (#[trigger] hits[j]).line_idx < w.1 ==> exists|k: int|
                0 <= k < b.matches@.len() && (#[trigger] b.matches@[k]).line_no == hits[j].line_idx
                    + 1,
        forall|j: int, k: int|
            0 <= j < k < b.matches@.len() ==> (#[trigger] b.matches@[j]).line_no < (
            #[trigger] b.matches@[k]).line_no,
{
    lemma_matches(hits, w.0 as int, w.1 as int);
    assert forall|i: int| 0 <= i < b.lines@.len() implies (#[trigger] b.lines@[i]).is_match
        == exists|j: int| 0 <= j < hits.len() && (#[trigger] hits[j]).line_idx == w.0 + i by {
        lemma_first_hit(hits, w.0 + i);
    }
    assert forall|k: int| 0 <= k < b.matches@.len() implies exists|j: int|
        0 <= j < hits.len() && (#[trigger] hits[j]).line_idx + 1 == (
        #[trigger] b.matches@[k]).line_no && hits[j].timestamp_ms
            == b.matches@[k].timestamp_ms by {
        let line = b.matches@[k].line_no - 1;
        lemma_first_hit(hits, line);
        let i = choose|i: int|
            0 <= i < hits.len() && (#[trigger] hits[i]).line_idx == line && hits[i].timestamp_ms
                == b.matches@[k].timestamp_ms;
        assert(hits[i].line_idx + 1 == b.matches@[k].line_no);
    }
    assert forall|j: int|
        0 <= j < hits.len() && w.0 <= (#[trigger] hits[j]).line_idx < w.1 implies exists|k: int|
        0 <= k < b.matches@.len() && (#[trigger] b.matches@[k]).line_no == hits[j].line_idx
            + 1 by {
        lemma_first_hit(hits, hits[j].line_idx as int);
        assert(first_hit(hits, hits[j].line_idx as int) is Some);
    }
}

/// The pattern is the one that was given, or all of the file but the line feeds at
/// its end; there is exactly one source for it.
pub proof fn there_is_one_pattern(o: GrepOptions, file_text: Result<String, String>)
    ensures
        pattern_conflict(o.pattern is Some, o.pattern_file is Some) is None <==> (o.pattern is Some
            <==> o.pattern_file is None),
        o.pattern is Some && o.pattern_file is None ==> pattern_of(o, file_text) == Ok::<
            Seq<char>,
            Seq<char>,
        >(o.pattern->0@),
        o.pattern is None && o.pattern_file is Some && file_text is Ok ==> pattern_of(o, file_text)
            == Ok::<Seq<char>, Seq<char>>(text::strip_all_suffix(file_text->Ok_0@, "\n"@)),
        (o.pattern is Some <==> o.pattern_file is Some) || (o.pattern is None && file_text is Err)
            ==> pattern_of(o, file_text) is Err,
{
}

/// A search can be planned where its pattern compiles and its times can be read.
pub proof fn searches_need_a_pattern_and_times(o: GrepOptions, pattern: Seq<char>, now: nat)
    ensures
        plan_error(o, pattern, now) is None <==> matcher::regex_outcome(
            pattern,
            o.multiline,
            o.ignore_case,
        ) is Ok && (o.since is None || tail::time_point(o.since->0@, now) is Ok) && (o.until is None
            || tail::time_point(o.until->0@, now) is Ok),
        matcher::regex_outcome(pattern, o.multiline, o.ignore_case) matches Err(e) ==> plan_error(
            o,
            pattern,
            now,
        ) == Some("bad regex: "@ + e),
{
}

/// A limit cuts off what comes behind that many hits, and the times bound the stamps
/// of the hits.
pub proof fn searches_keep_their_bounds(
    o: GrepOptions,
    open: GrepOptions,
    m: Matcher,
    now: nat,
    log: Seq<u8>,
    j: int,
)
    requires
        lines::all_lines(log).len() <= usize::MAX,
        now <= u64::MAX,
        open == (GrepOptions { limit: None, ..o }),
    ensures
        o.limit matches Some(l) ==> found_hits(o, m, now, log) == if found_hits(
            open,
            m,
            now,
            log,
        ).len() <= l {
            found_hits(open, m, now, log)
        } else {
            found_hits(open, m, now, log).take(l as int)
        },
        0 <= j < found_hits(o, m, now, log).len() && o.since is Some && tail::time_point(
            o.since->0@,
            now,
        ) is Ok && tail::time_point(o.since->0@, now)->Ok_0 <= u64::MAX ==> found_hits(
            o,
            m,
            now,
            log,
        )[j].timestamp_ms is Some && tail::time_point(o.since->0@, now)->Ok_0 <= found_hits(
            o,
            m,
            now,
            log,
        )[j].timestamp_ms->0,
        0 <= j < found_hits(o, m, now, log).len() && o.until is Some && tail::time_point(
            o.until->0@,
            now,
        ) is Ok && tail::time_point(o.until->0@, now)->Ok_0 <= u64::MAX ==> found_hits(
            o,
            m,
            now,
            log,
        )[j].timestamp_ms is Some && found_hits(o, m, now, log)[j].timestamp_ms->0
            <= tail::time_point(o.until->0@, now)->Ok_0,
{
    let all = lines::all_lines(log);
    let since = tail::time_option("--since: "@, tail::opt_text(o.since), now)->Ok_0;
    let until = tail::time_option("--until: "@, tail::opt_text(o.until), now)->Ok_0;
    hits_are_sound(all, m, since, until, o.match_full_line, o.strip_ansi, o.limit);
    if o.limit is Some {
        limit_keeps_the_first_hits(
            all,
            m,
            since,
            until,
            o.match_full_line,
            o.strip_ansi,
            o.limit->0,
        );
    }
    if 0 <= j < found_hits(o, m, now, log).len() {
        let h = found_hits(o, m, now, log)[j];
        assert(is_hit(
            all[h.line_idx as int],
            m,
            since,
            until,
            o.match_full_line,
            o.strip_ansi,
        ));
    }
}

/// What a search shows: as a report, the number of hits and every line that is at most
/// so many lines away from one, and no other line; as text, those lines.
pub proof fn searches_show_hits_and_what_is_around(
    r: GrepOutcome,
    o: GrepOptions,
    log: Seq<u8>,
    hits: Seq<Hit>,
    line: int,
)
    requires
        shows_hits(r, o, log, hits),
        0 <= line < lines::all_lines(log).len() < usize::MAX,
        forall|i: int|
            0 <= i < hits.len() ==> (#[trigger] hits[i]).line_idx < lines::all_lines(log).len(),
    ensures
        r is Json <==> o.json,
        r matches GrepOutcome::Json(rep) ==> rep.hits == hits.len() && ((exists|i: int|
            0 <= i < rep.blocks@.len() && (#[trigger] rep.blocks@[i]).start_line_no <= line + 1
                < rep.blocks@[i].end_line_no) <==> exists|i: int|
            0 <= i < hits.len() && line - o.around <= (#[trigger] hits[i]).line_idx <= line
                + o.around),
        r matches GrepOutcome::Plain(b) ==> b@ == plain_text(
            lines::all_lines(log),
            blocks_of(hits, lines::all_lines(log).len(), o.around as nat),
            o.strip_ansi,
        ),
{
    let all = lines::all_lines(log);
    let blocks = blocks_of(hits, all.len(), o.around as nat);
    blocks_cover_the_context(hits, all.len(), o.around as nat);
    assert(in_ranges(blocks, line) <==> near_hit(hits, o.around as nat, line));
    if r is Json {
        let rep = r->Json_0;
        assert forall|i: int| 0 <= i < blocks.len() implies (in_range(#[trigger] blocks[i], line)
            <==> rep.blocks@[i].start_line_no <= line + 1 < rep.blocks@[i].end_line_no) by {
            assert(is_block(rep.blocks@[i], all, hits, blocks[i]));
        }
        if in_ranges(blocks, line) {
            let i = choose|i: int| 0 <= i < blocks.len() && #[trigger] in_range(blocks[i], line);
            assert(rep.blocks@[i].start_line_no <= line + 1 < rep.blocks@[i].end_line_no);
        }
        if exists|i: int|
            0 <= i < rep.blocks@.len() && (#[trigger] rep.blocks@[i]).start_line_no <= line + 1
                < rep.blocks@[i].end_line_no {
            let i = choose|i: int|
                0 <= i < rep.blocks@.len() && (#[trigger] rep.blocks@[i]).start_line_no <= line + 1
                    < rep.blocks@[i].end_line_no;
            assert(in_range(blocks[i], line));
        }
    }
}

/// A span of time is asked in vain of a log in which no line carries a stamp, and of
/// no other log.
pub proof fn spans_need_stamps(o: GrepOptions, log: Seq<u8>)
    ensures
        lacks_stamps(o, log) <==> (o.since is Some || o.until is Some) && forall|i: int|
            0 <= i < lines::all_lines(log).len() ==> pty::ms_prefix_of(
                #[trigger] lines::all_lines(log)[i],
            ) is None,
{
    let all = lines::all_lines(log);
    if window::any_stamp(all) {
        let i = choose|i: int| 0 <= i < all.len() && #[trigger] pty::ms_prefix_of(all[i]) is Some;
        assert(pty::ms_prefix_of(all[i]) is Some);
    }
}

/// The first line behind the span ends a search: no line that follows it is a hit.
pub proof fn the_first_later_line_ends_the_search(
    all: Seq<Seq<u8>>,
    k: int,
    m: Matcher,
    since: Option<u64>,
    until: Option<u64>,
    match_full_line: bool,
    strip: bool,
    limit: Option<u64>,
    j: int,
)
    requires
        0 <= k < all.len() <= usize::MAX,
        stamp_of(all[k]) is Some,
        until is Some && stamp_of(all[k])->0 > until->0,
        since is None || since->0 <= stamp_of(all[k])->0,
    ensures
        ({
            let r = hits_from(
                all,
                0,
                Seq::empty(),
                m,
                since,
                until,
                match_full_line,
                strip,
                limit,
            );
            0 <= j < r.len() ==> r[j].line_idx < k
        }),
{
    lemma_hits_before(all, 0, Seq::empty(), k, m, since, until, match_full_line, strip, limit);
}

proof fn lemma_hits_before(
    all: Seq<Seq<u8>>,
    i: int,
    found: Seq<Hit>,
    k: int,
    m: Matcher,
    since: Option<u64>,
    until: Option<u64>,
    match_full_line: bool,
    strip: bool,
    limit: Option<u64>,
)
    requires
        0 <= i <= k < all.len() <= usize::MAX,
        stops_at(all[k], since, until),
        forall|j: int| 0 <= j < found.len() ==> (#[trigger] found[j]).line_idx < k,
    ensures
        ({
            let r = hits_from(all, i, found, m, since, until, match_full_line, strip, limit);
            forall|j: int| 0 <= j < r.len() ==> (#[trigger] r[j]).line_idx < k
        }),
    decreases all.len() - i,
{
    if i < k && !stops_at(all[i], since, until) && !is_full(found, limit) {
        if is_hit(all[i], m, since, until, match_full_line, strip) {
            let more = found.push(Hit { line_idx: i as usize, timestamp_ms: stamp_of(all[i]) });
            lemma_hits_before(
                all,
                i + 1,
                more,
                k,
                m,
                since,
                until,
                match_full_line,
                strip,
                limit,
            );
        } else {
            lemma_hits_before(
                all,
                i + 1,
                found,
                k,
                m,
                since,
                until,
                match_full_line,
                strip,
                limit,
            );
        }
    }
}

/// What is searched of any line: all behind its stamp, or all of it where that is asked
/// for, without colours where these are to go, and without its end.
pub proof fn stamps_and_colours_come_off_first(line: Seq<u8>, strip: bool)
    ensures
        searched(line, true, strip) == chomped(pty::strip_choice(strip, line)),
        pty::ms_prefix_of(line) is None ==> searched(line, false, strip) == chomped(
            pty::strip_choice(strip, line),
        ),
        pty::ms_prefix_of(line) matches Some(p) ==> searched(line, false, strip) == chomped(
            pty::strip_choice(strip, line.skip(p.1)),
        ),
{
}

} // verus!
