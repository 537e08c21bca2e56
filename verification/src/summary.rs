//! A health snapshot of a managed subprocess.

use vstd::prelude::*;
use vstd::slice::slice_subrange;
use vstd::string::*;

use crate::client::StatusReply;
use crate::ids;
use crate::ids::is_valid_id;
use crate::lines;
use crate::matcher;
use crate::matcher::Matcher;
use crate::pty;
use crate::pty::parse_ms_prefix;
use crate::tail;
use crate::tail::parse_time_spec;
use crate::text;
use crate::text::{
    chars_of,
    concat2,
    concat3,
    decimal_text,
    decode_lossy,
    quoted,
    same_text,
    signed_text,
    strip_prefix,
    zero_padded_text,
};
use crate::wait;
use crate::window;

verus! {

/// The span that counts as recent, where nothing else is asked for.
pub const DEFAULT_RECENT_WINDOW: &'static str = "60s";

/// What counts as an error, where nothing else is asked for.
pub const DEFAULT_ERROR_PATTERN: &'static str = "(?i)error|fatal";

/// What counts as a warning, where nothing else is asked for.
pub const DEFAULT_WARNING_PATTERN: &'static str = "(?i)warn";

/// What to look at.
pub struct SummaryOptions {
    pub id: String,
    pub json: bool,
    pub recent_window: Option<String>,
    pub error_pattern: Option<String>,
    pub warning_pattern: Option<String>,
}

/// Errors and warnings of late.
pub struct RecentStats {
    pub since_ms: u64,
    pub lines_scanned: u64,
    pub errors: u64,
    pub warnings: u64,
    /// `time-window`, or `tail-bytes` where the log has no stamps.
    pub mode: &'static str,
}

/// A health snapshot.
pub struct SummaryReport {
    pub schema_version: u32,
    pub id: String,
    pub name: Option<String>,
    pub project: Option<String>,
    pub state: String,
    pub child_pid: Option<u32>,
    pub exit_code: Option<i32>,
    pub started_at: Option<u64>,
    pub uptime_ms: u64,
    pub log_bytes: u64,
    pub log_lines: u64,
    pub segments: u64,
    pub last_line_age_ms: Option<u64>,
    pub tail_cursor: u64,
    pub recent: Option<RecentStats>,
}

// ---------------------------------------------------------------------
// Preparation
// ---------------------------------------------------------------------

/// A snapshot that is ready to be taken.
pub struct SummaryPlan {
    /// Since when lines count as recent.
    pub since_ms: u64,
    /// How long ago that is.
    pub window_ms: u64,
    pub errors: Matcher,
    pub warnings: Matcher,
}

/// An optional text, or a default.
pub open spec fn text_or(value: Option<String>, default: Seq<char>) -> Seq<char> {
    match value {
        Some(v) => v@,
        None => default,
    }
}

/// Why a snapshot cannot be taken, if it cannot.
pub open spec fn plan_error(o: SummaryOptions, now: nat) -> Option<Seq<char>> {
    match tail::time_point(text_or(o.recent_window, DEFAULT_RECENT_WINDOW@), now) {
        Err(e) => Some("--recent-window: "@ + e),
        Ok(_) => match matcher::regex_outcome(
            text_or(o.error_pattern, DEFAULT_ERROR_PATTERN@),
            false,
            false,
        ) {
            Err(e) => Some("--error-pattern: "@ + e),
            Ok(_) => match matcher::regex_outcome(
                text_or(o.warning_pattern, DEFAULT_WARNING_PATTERN@),
                false,
                false,
            ) {
                Err(e) => Some("--warning-pattern: "@ + e),
                Ok(_) => None,
            },
        },
    }
}

/// Whether a matcher is a plain one for a pattern.
pub open spec fn matches_plainly(m: Matcher, pattern: Seq<char>) -> bool {
    m.pattern() == pattern && !m.multi_line() && !m.ignore_case()
}

/// Checks the identifier.
pub fn check_id(o: &SummaryOptions) -> (r: Result<(), String>)
    ensures
        ids::valid_id(o.id@) ==> r is Ok,
        !ids::valid_id(o.id@) ==> (r matches Err(t) && t@ == "invalid id "@ + text::debug_text(
            o.id@,
        )),
{
    if is_valid_id(o.id.as_str()) {
        Ok(())
    } else {
        Err(concat2("invalid id ", quoted(o.id.as_str()).as_str()))
    }
}

/// Reads the span and compiles the patterns.
pub fn plan(o: &SummaryOptions, now: u64) -> (r: Result<SummaryPlan, String>)
    ensures
        match plan_error(*o, now as nat) {
            Some(e) => r matches Err(t) && t@ == e,
            None => r matches Ok(p) && p.since_ms == tail::time_point(
                text_or(o.recent_window, DEFAULT_RECENT_WINDOW@),
                now as nat,
            )->Ok_0 && p.window_ms == (if p.since_ms < now {
                now - p.since_ms
            } else {
                0
            }) && matches_plainly(p.errors, text_or(o.error_pattern, DEFAULT_ERROR_PATTERN@))
                && matches_plainly(
                p.warnings,
                text_or(o.warning_pattern, DEFAULT_WARNING_PATTERN@),
            ),
        },
{
    let window: &str = match &o.recent_window {
        Some(w) => w.as_str(),
        None => DEFAULT_RECENT_WINDOW,
    };
    let since_ms: u64 = match parse_time_spec(window, now) {
        Ok(t) => t,
        Err(e) => {
            return Err(concat2("--recent-window: ", e.as_str()));
        },
    };
    let window_ms: u64 = now.saturating_sub(since_ms);
    let error_pattern: &str = match &o.error_pattern {
        Some(p) => p.as_str(),
        None => DEFAULT_ERROR_PATTERN,
    };
    let warning_pattern: &str = match &o.warning_pattern {
        Some(p) => p.as_str(),
        None => DEFAULT_WARNING_PATTERN,
    };
    let errors = match Matcher::new(error_pattern, false, false) {
        Ok(m) => m,
        Err(e) => {
            return Err(concat2("--error-pattern: ", e.as_str()));
        },
    };
    let warnings = match Matcher::new(warning_pattern, false, false) {
        Ok(m) => m,
        Err(e) => {
            return Err(concat2("--warning-pattern: ", e.as_str()));
        },
    };
    Ok(SummaryPlan { since_ms, window_ms, errors, warnings })
}

// ---------------------------------------------------------------------
// Errors and warnings
// ---------------------------------------------------------------------

/// How much of the end of a stamped log is looked at.
pub const MAX_SCAN: usize = 1048576;

/// How much of the end of a log without stamps is looked at.
pub const UNSTAMPED_SCAN: usize = 65536;

/// The last bytes of a log.
pub open spec fn last_part(s: Seq<u8>, n: nat) -> Seq<u8> {
    if s.len() > n {
        s.skip(s.len() - n)
    } else {
        s
    }
}

/// What was counted in lines.
#[derive(Clone, Copy, PartialEq, Eq, Structural)]
pub struct Tally {
    pub scanned: u64,
    pub errors: u64,
    pub warnings: u64,
}

/// Counts in mathematical numbers.
pub struct TallyView {
    pub scanned: nat,
    pub errors: nat,
    pub warnings: nat,
}

/// The text of a line behind its stamp.
pub open spec fn body_text(line: Seq<u8>) -> Seq<char> {
    text::lossy_text(
        match pty::ms_prefix_of(line) {
            Some(p) => line.skip(p.1),
            None => line,
        },
    )
}

/// Whether a line counts as recent: unless its stamp is older.
pub open spec fn is_recent(line: Seq<u8>, since: u64) -> bool {
    pty::ms_prefix_of(line) matches Some(p) ==> p.0 >= since
}

/// How many recent lines there are, how many of them are errors, and how many
/// of the others are warnings.
pub open spec fn tally_of(
    all: Seq<Seq<u8>>,
    since: u64,
    errors: Matcher,
    warnings: Matcher,
) -> TallyView
    decreases all.len(),
{
    if all.len() == 0 {
        TallyView { scanned: 0, errors: 0, warnings: 0 }
    } else {
        let front = tally_of(all.drop_last(), since, errors, warnings);
        let line = all.last();
        if !is_recent(line, since) {
            front
        } else {
            let is_error = errors.hits(body_text(line));
            let is_warning = !is_error && warnings.hits(body_text(line));
            TallyView {
                scanned: front.scanned + 1,
                errors: front.errors + if is_error {
                    1nat
                } else {
                    0nat
                },
                warnings: front.warnings + if is_warning {
                    1nat
                } else {
                    0nat
                },
            }
        }
    }
}

/// The lines that are looked at: those at the end of the log, and fewer of them
/// where none carries a stamp.
pub open spec fn looked_at(s: Seq<u8>) -> Seq<Seq<u8>> {
    let all = lines::finished(last_part(s, MAX_SCAN as nat));
    if window::any_stamp(all) {
        all
    } else {
        lines::finished(last_part(s, UNSTAMPED_SCAN as nat))
    }
}

/// The last bytes of a log.
fn end_of<'a>(log: &'a [u8], n: usize) -> (r: &'a [u8])
    ensures
        r@ == last_part(log@, n as nat),
{
    let len: usize = log.len();
    if len > n {
        let part = slice_subrange(log, len - n, len);
        assert(part@ =~= log@.skip(len - n));
        part
    } else {
        log
    }
}

/// Counts the recent errors and warnings among finished lines, and tells
/// whether any line carries a stamp.
fn tally(part: &[u8], since_ms: u64, errors: &Matcher, warnings: &Matcher) -> (r: (Tally, bool))
    ensures
        ({
            let t = tally_of(lines::finished(part@), since_ms, *errors, *warnings);
            &&& r.0.scanned == t.scanned
            &&& r.0.errors == t.errors
            &&& r.0.warnings == t.warnings
            &&& r.1 == window::any_stamp(lines::finished(part@))
        }),
{
    let all = lines::split_finished(part);
    let ghost texts = lines::finished(part@);
    let mut scanned: u64 = 0;
    let mut error_count: u64 = 0;
    let mut warning_count: u64 = 0;
    let mut stamped = false;
    let mut i: usize = 0;
    assert(texts.take(0).len() == 0);
    while i < all.len()
        invariant
            i <= all@.len(),
            texts == lines::views(all@),
            scanned <= i,
            error_count <= i,
            warning_count <= i,
            ({
                let t = tally_of(texts.take(i as int), since_ms, *errors, *warnings);
                &&& scanned == t.scanned
                &&& error_count == t.errors
                &&& warning_count == t.warnings
            }),
            stamped == window::any_stamp(texts.take(i as int)),
        decreases all@.len() - i,
    {
        let line: &[u8] = all[i];
        let ghost before = texts.take(i as int);
        let ghost next = texts.take(i + 1);
        assert(texts[i as int] == line@);
        assert(next.drop_last() =~= before);
        assert(next.last() == line@);
        let prefix = parse_ms_prefix(line);
        proof {
            if window::any_stamp(before) {
                let k = choose|k: int|
                    0 <= k < before.len() && #[trigger] pty::ms_prefix_of(before[k]) is Some;
                assert(pty::ms_prefix_of(next[k]) is Some);
            }
            if pty::ms_prefix_of(line@) is Some {
                assert(pty::ms_prefix_of(next[i as int]) is Some);
            }
            if window::any_stamp(next) {
                let k = choose|k: int|
                    0 <= k < next.len() && #[trigger] pty::ms_prefix_of(next[k]) is Some;
                if k < i {
                    assert(pty::ms_prefix_of(before[k]) is Some);
                }
            }
        }
        let mut recent = true;
        let mut body: &[u8] = line;
        match prefix {
            Some((ts, off)) => {
                stamped = true;
                if ts < since_ms {
                    recent = false;
                }
                let behind = slice_subrange(line, off, line.len());
                assert(behind@ =~= line@.skip(off as int));
                body = behind;
            },
            None => {},
        }
        assert(recent == is_recent(line@, since_ms));
        if recent {
            scanned += 1;
            let shown = decode_lossy(body);
            if errors.is_match(shown.as_str()) {
                error_count += 1;
            } else if warnings.is_match(shown.as_str()) {
                warning_count += 1;
            }
        }
        i += 1;
    }
    assert(texts.take(texts.len() as int) =~= texts);
    (Tally { scanned, errors: error_count, warnings: warning_count }, stamped)
}

/// Whether counts are those at the end of a log.
pub open spec fn is_scan(
    r: RecentStats,
    log: Seq<u8>,
    since_ms: u64,
    window_dur_ms: u64,
    errors: Matcher,
    warnings: Matcher,
) -> bool {
    let t = tally_of(looked_at(log), since_ms, errors, warnings);
    &&& r.since_ms == window_dur_ms
    &&& r.lines_scanned == t.scanned
    &&& r.errors == t.errors
    &&& r.warnings == t.warnings
    &&& r.mode@ == if window::any_stamp(lines::finished(last_part(log, MAX_SCAN as nat))) {
        "time-window"@
    } else {
        "tail-bytes"@
    }
}

/// Counts the errors and warnings at the end of a log: those since a point in
/// time where the log has stamps, and those in its last bytes where it has
/// none. A log that could not be read has no counts.
pub fn scan_recent(
    log: Option<&[u8]>,
    since_ms: u64,
    window_dur_ms: u64,
    errors: &Matcher,
    warnings: &Matcher,
) -> (r: Option<RecentStats>)
    ensures
        match log {
            Some(bytes) => r matches Some(stats) && is_scan(
                stats,
                bytes@,
                since_ms,
                window_dur_ms,
                *errors,
                *warnings,
            ),
            None => r is None,
        },
{
    let bytes: &[u8] = match log {
        Some(b) => b,
        None => {
            return None;
        },
    };
    let (all, stamped) = tally(end_of(bytes, MAX_SCAN), since_ms, errors, warnings);
    if stamped {
        return Some(
            RecentStats {
                since_ms: window_dur_ms,
                lines_scanned: all.scanned,
                errors: all.errors,
                warnings: all.warnings,
                mode: "time-window",
            },
        );
    }
    let (few, _) = tally(end_of(bytes, UNSTAMPED_SCAN), since_ms, errors, warnings);
    Some(
        RecentStats {
            since_ms: window_dur_ms,
            lines_scanned: few.scanned,
            errors: few.errors,
            warnings: few.warnings,
            mode: "tail-bytes",
        },
    )
}

/// Errors and warnings are counted once each: together they are at most as many
/// as the lines that were looked at.
pub proof fn no_line_counts_twice(
    all: Seq<Seq<u8>>,
    since: u64,
    errors: Matcher,
    warnings: Matcher,
)
    ensures
        tally_of(all, since, errors, warnings).errors + tally_of(all, since, errors, warnings).warnings
            <= tally_of(all, since, errors, warnings).scanned <= all.len(),
    decreases all.len(),
{
    if all.len() > 0 {
        no_line_counts_twice(all.drop_last(), since, errors, warnings);
    }
}

/// Only the end of a log is looked at: reading just its last bytes gives the
/// same counts as reading all of it.
pub proof fn only_the_end_is_looked_at(s: Seq<u8>)
    ensures
        looked_at(last_part(s, MAX_SCAN as nat)) == looked_at(s),
{
    let e = last_part(s, MAX_SCAN as nat);
    assert(last_part(e, MAX_SCAN as nat) =~= e);
    assert(last_part(e, UNSTAMPED_SCAN as nat) =~= last_part(s, UNSTAMPED_SCAN as nat));
}

// ---------------------------------------------------------------------
// Segments
// ---------------------------------------------------------------------

/// Whether a file is the log or one of its rotated segments.
pub open spec fn is_segment(name: Seq<char>, base: Seq<char>) -> bool {
    name == base || (text::starts_with(name, base + "."@) && text::all_digits(
        name.skip((base + "."@).len() as int),
    ))
}

/// How many files are the log or one of its rotated segments.
pub open spec fn segments_in(names: Seq<String>, base: Seq<char>) -> nat
    decreases names.len(),
{
    if names.len() == 0 {
        0
    } else {
        segments_in(names.drop_last(), base) + if is_segment(names.last()@, base) {
            1nat
        } else {
            0nat
        }
    }
}

/// Counts the log and its rotated segments among the names in a directory.
pub fn count_segments(names: &Vec<String>, base: &str) -> (r: u64)
    ensures
        r == segments_in(names@, base@),
{
    let prefix = concat2(base, ".");
    let mut n: u64 = 0;
    let mut i: usize = 0;
    assert(names@.take(0).len() == 0);
    while i < names.len()
        invariant
            i <= names@.len(),
            prefix@ == base@ + "."@,
            n <= i,
            n == segments_in(names@.take(i as int), base@),
        decreases names@.len() - i,
    {
        let name: &str = names[i].as_str();
        assert(names@.take(i + 1).drop_last() =~= names@.take(i as int));
        assert(names@.take(i + 1).last()@ == name@);
        if same_text(name, base) {
            n += 1;
        } else {
            match strip_prefix(name, prefix.as_str()) {
                Some(rest) => {
                    let chars = chars_of(rest);
                    let digits: usize = text::count_digits(&chars);
                    proof {
                        text::digits_len_is_maximal(rest@);
                        assert(rest@.take(rest@.len() as int) =~= rest@);
                        if digits < rest@.len() {
                            assert(!text::is_digit(rest@[digits as int]));
                        }
                    }
                    if digits == chars.len() {
                        n += 1;
                    }
                },
                None => {},
            }
        }
        i += 1;
    }
    assert(names@.take(names@.len() as int) =~= names@);
    n
}

// ---------------------------------------------------------------------
// The report
// ---------------------------------------------------------------------

/// What a manager says of its counters.
pub struct CounterReply {
    pub line_count: Option<u64>,
    pub last_line_at_ms: Option<u64>,
}

/// What the metadata say.
pub struct MetaFacts {
    pub name: Option<String>,
    pub project: String,
    pub started_at: u64,
}

/// What is known of a subprocess at one moment. Counters are asked for only
/// where the manager answers at all.
pub struct SummaryFacts {
    pub id: String,
    pub status: Option<StatusReply>,
    pub counters: Option<CounterReply>,
    pub meta: Option<MetaFacts>,
    pub log_bytes: u64,
    pub segments: u64,
    /// The number of lines in the current file.
    pub counted_lines: u64,
    /// When the current file was last written to.
    pub modified_ms: Option<u64>,
    pub now_ms: u64,
    pub recent: Option<RecentStats>,
}

/// The counters, where the manager answers.
pub open spec fn live_counters(f: SummaryFacts) -> CounterReply {
    match (f.status, f.counters) {
        (Some(_), Some(c)) => c,
        _ => CounterReply { line_count: None, last_line_at_ms: None },
    }
}

/// How long ago a point in time is, and zero where it lies ahead.
pub open spec fn age(now: nat, then: nat) -> nat {
    if then < now {
        (now - then) as nat
    } else {
        0
    }
}

/// The state that is shown: `running` or `exited` where the manager says so,
/// and `unknown` otherwise.
pub open spec fn shown_state(status: Option<StatusReply>) -> Seq<char> {
    match status {
        Some(s) => match s.state {
            Some(t) => if t@ == "running"@ || t@ == "exited"@ {
                t@
            } else {
                "unknown"@
            },
            None => "unknown"@,
        },
        None => "unknown"@,
    }
}

/// An exit code is shown only of a subprocess that has ended, and the state is
/// always one of three.
pub proof fn exit_code_means_exited(r: SummaryReport, f: SummaryFacts)
    requires
        is_report(r, f),
    ensures
        r.exit_code is Some ==> r.state@ == "exited"@,
        r.state@ == "running"@ || r.state@ == "exited"@ || r.state@ == "unknown"@,
{
}

/// Whether a report says what is known.
pub open spec fn is_report(r: SummaryReport, f: SummaryFacts) -> bool {
    &&& r.schema_version == 1
    &&& r.id == f.id
    &&& r.name == match f.meta {
        Some(m) => m.name,
        None => None,
    }
    &&& r.project == match f.meta {
        Some(m) => Some(m.project),
        None => None,
    }
    &&& r.started_at == match f.meta {
        Some(m) => Some(m.started_at),
        None => None,
    }
    &&& r.state@ == shown_state(f.status)
    &&& r.child_pid == match f.status {
        Some(s) => match s.child_pid {
            Some(p) => Some(p as u32),
            None => None,
        },
        None => None,
    }
    &&& r.exit_code == if shown_state(f.status) == "exited"@ {
        wait::reply_code(f.status->0.code)
    } else {
        None
    }
    &&& r.uptime_ms == match f.meta {
        Some(m) => age(f.now_ms as nat, (m.started_at * 1000) as nat),
        None => 0,
    }
    &&& r.log_bytes == f.log_bytes
    &&& r.tail_cursor == f.log_bytes
    &&& r.segments == f.segments
    &&& r.log_lines == match live_counters(f).line_count {
        Some(n) => n,
        None => f.counted_lines,
    }
    &&& match live_counters(f).last_line_at_ms {
        Some(ms) if ms > 0 => r.last_line_age_ms == Some(age(f.now_ms as nat, ms as nat) as u64),
        _ => match f.modified_ms {
            Some(ms) => r.last_line_age_ms == Some(age(f.now_ms as nat, ms as nat) as u64),
            None => r.last_line_age_ms is None,
        },
    }
    &&& r.recent == f.recent
}

/// Puts a report together.
pub fn build_report(f: SummaryFacts) -> (r: SummaryReport)
    ensures
        is_report(r, f),
{
    let SummaryFacts {
        id,
        status,
        counters,
        meta,
        log_bytes,
        segments,
        counted_lines,
        modified_ms,
        now_ms,
        recent,
    } = f;
    let (line_count, last_line): (Option<u64>, Option<u64>) = match (&status, &counters) {
        (Some(_), Some(c)) => (c.line_count, c.last_line_at_ms),
        _ => (None, None),
    };
    let (state, child_pid, exit_code): (String, Option<u32>, Option<i32>) = match status {
        Some(s) => {
            let exited = match &s.state {
                Some(t) => same_text(t.as_str(), "exited"),
                None => false,
            };
            let state = match s.state {
                Some(t) => if exited || same_text(t.as_str(), "running") {
                    t
                } else {
                    "unknown".to_owned()
                },
                None => "unknown".to_owned(),
            };
            let child_pid: Option<u32> = match s.child_pid {
                Some(p) => Some(p as u32),
                None => None,
            };
            let exit_code: Option<i32> = match s.code {
                Some(c) => if exited {
                    Some(c as i32)
                } else {
                    None
                },
                None => None,
            };
            proof {
                reveal_strlit("unknown");
                reveal_strlit("exited");
                assert("unknown"@.len() != "exited"@.len());
            }
            (state, child_pid, exit_code)
        },
        None => {
            proof {
                reveal_strlit("unknown");
                reveal_strlit("exited");
                assert("unknown"@.len() != "exited"@.len());
            }
            ("unknown".to_owned(), None, None)
        },
    };
    let (name, project, started_at): (Option<String>, Option<String>, Option<u64>) = match meta {
        Some(m) => (m.name, Some(m.project), Some(m.started_at)),
        None => (None, None, None),
    };
    let log_lines: u64 = match line_count {
        Some(n) => n,
        None => counted_lines,
    };
    let from_file: Option<u64> = match modified_ms {
        Some(ms) => Some(now_ms.saturating_sub(ms)),
        None => None,
    };
    let last_line_age_ms: Option<u64> = match last_line {
        Some(ms) => if ms > 0 {
            Some(now_ms.saturating_sub(ms))
        } else {
            from_file
        },
        None => from_file,
    };
    let uptime_ms: u64 = match started_at {
        Some(s) => match s.checked_mul(1000) {
            Some(ms) => now_ms.saturating_sub(ms),
            None => 0,
        },
        None => 0,
    };
    SummaryReport {
        schema_version: 1,
        id,
        name,
        project,
        state,
        child_pid,
        exit_code,
        started_at,
        uptime_ms,
        log_bytes,
        log_lines,
        segments,
        last_line_age_ms,
        tail_cursor: log_bytes,
        recent,
    }
}

/// A span of time for people, in its two largest units.
pub open spec fn duration_text(ms: nat) -> Seq<char> {
    let s = ms / 1000;
    if s < 1 {
        text::decimal(ms) + "ms"@
    } else if s < 60 {
        text::decimal(s) + "."@ + text::zero_padded(ms % 1000, 3) + "s"@
    } else if s < 3600 {
        text::decimal(s / 60) + "m"@ + text::zero_padded(s % 60, 2) + "s"@
    } else if s < 86400 {
        text::decimal(s / 3600) + "h"@ + text::zero_padded((s % 3600) / 60, 2) + "m"@
    } else {
        text::decimal(s / 86400) + "d"@ + text::zero_padded((s % 86400) / 3600, 2) + "h"@
    }
}

/// Two numbers with their units behind them, the second one padded with zeros.
fn two_units(a: u64, a_unit: &str, b: u64, width: usize, b_unit: &str) -> (r: String)
    ensures
        r@ == text::decimal(a as nat) + a_unit@ + text::zero_padded(b as nat, width as nat)
            + b_unit@,
{
    let mut out = concat3(
        decimal_text(a).as_str(),
        a_unit,
        zero_padded_text(b, width).as_str(),
    );
    out.append(b_unit);
    out
}

/// Shows a span of time for people.
pub fn format_duration_ms(ms: u64) -> (r: String)
    ensures
        r@ == duration_text(ms as nat),
{
    let s: u64 = ms / 1000;
    if s < 1 {
        concat2(decimal_text(ms).as_str(), "ms")
    } else if s < 60 {
        two_units(s, ".", ms % 1000, 3, "s")
    } else if s < 3600 {
        two_units(s / 60, "m", s % 60, 2, "s")
    } else if s < 86400 {
        two_units(s / 3600, "h", (s % 3600) / 60, 2, "m")
    } else {
        two_units(s / 86400, "d", (s % 86400) / 3600, 2, "h")
    }
}

/// The lines that a report shows to people.
pub open spec fn human_text(r: SummaryReport) -> Seq<char> {
    let child = match r.child_pid {
        Some(p) => text::decimal(p as nat),
        None => "-"@,
    };
    let exit = match r.exit_code {
        Some(c) => " exit_code="@ + text::signed(c as int),
        None => ""@,
    };
    let last = match r.last_line_age_ms {
        Some(age) => "last line       "@ + duration_text(age as nat) + " ago\n"@,
        None => "last line       -\n"@,
    };
    let recent = match r.recent {
        Some(c) => "recent ("@ + duration_text(c.since_ms as nat) + ")  errors="@ + text::decimal(
            c.errors as nat,
        ) + "  warnings="@ + text::decimal(c.warnings as nat) + "  scanned="@ + text::decimal(
            c.lines_scanned as nat,
        ) + "  mode="@ + c.mode@ + "\n"@,
        None => ""@,
    };
    "id              "@ + r.id@ + "\nname            "@ + text_or(r.name, "-"@)
        + "\nproject         "@ + text_or(r.project, "-"@) + "\nstate           "@ + r.state@
        + "  child_pid="@ + child + exit + "\nuptime          "@ + duration_text(r.uptime_ms as nat)
        + "\nlog             "@ + text::decimal(r.log_bytes as nat) + " bytes, "@ + text::decimal(
        r.log_lines as nat,
    ) + " lines, "@ + text::decimal(r.segments as nat) + " segment(s)\n"@ + last
        + "tail cursor     "@ + text::decimal(r.tail_cursor as nat) + "\n"@ + recent
}

/// Shows a report to people.
pub fn print_human(r: &SummaryReport) -> (s: String)
    ensures
        s@ == human_text(*r),
{
    let mut out = "id              ".to_owned();
    out.append(r.id.as_str());
    out.append("\nname            ");
    match &r.name {
        Some(n) => out.append(n.as_str()),
        None => out.append("-"),
    }
    out.append("\nproject         ");
    match &r.project {
        Some(p) => out.append(p.as_str()),
        None => out.append("-"),
    }
    out.append("\nstate           ");
    out.append(r.state.as_str());
    out.append("  child_pid=");
    match r.child_pid {
        Some(p) => out.append(decimal_text(p as u64).as_str()),
        None => out.append("-"),
    }
    let exit = match r.exit_code {
        Some(c) => concat2(" exit_code=", signed_text(c as i64).as_str()),
        None => "".to_owned(),
    };
    out.append(exit.as_str());
    out.append("\nuptime          ");
    out.append(format_duration_ms(r.uptime_ms).as_str());
    out.append("\nlog             ");
    out.append(decimal_text(r.log_bytes).as_str());
    out.append(" bytes, ");
    out.append(decimal_text(r.log_lines).as_str());
    out.append(" lines, ");
    out.append(decimal_text(r.segments).as_str());
    out.append(" segment(s)\n");
    let last = match r.last_line_age_ms {
        Some(age) => concat3("last line       ", format_duration_ms(age).as_str(), " ago\n"),
        None => "last line       -\n".to_owned(),
    };
    out.append(last.as_str());
    out.append("tail cursor     ");
    out.append(decimal_text(r.tail_cursor).as_str());
    out.append("\n");
    let recent = match &r.recent {
        Some(c) => {
            let mut t = concat3("recent (", format_duration_ms(c.since_ms).as_str(), ")  errors=");
            t.append(decimal_text(c.errors).as_str());
            t.append("  warnings=");
            t.append(decimal_text(c.warnings).as_str());
            t.append("  scanned=");
            t.append(decimal_text(c.lines_scanned).as_str());
            t.append("  mode=");
            t.append(c.mode);
            t.append("\n");
            t
        },
        None => "".to_owned(),
    };
    out.append(recent.as_str());
    out
}

// ---------------------------------------------------------------------
// A whole snapshot
// ---------------------------------------------------------------------

/// What is looked at of a log: its size, its last bytes if they could be read,
/// the names of the files beside it and its own, the number of lines in it, and
/// when it was last written to.
pub struct LogFacts<'a> {
    pub bytes: u64,
    pub end: Option<&'a [u8]>,
    pub names: &'a Vec<String>,
    pub base: &'a str,
    pub counted_lines: u64,
    pub modified_ms: Option<u64>,
}

/// Whether counts are those of the recent errors and warnings at the end of a
/// log, by the patterns that are asked for.
pub open spec fn is_recent_stats(
    recent: RecentStats,
    o: SummaryOptions,
    end: Seq<u8>,
    now: u64,
    errors: Matcher,
    warnings: Matcher,
) -> bool {
    let since = tail::time_point(
        text_or(o.recent_window, DEFAULT_RECENT_WINDOW@),
        now as nat,
    )->Ok_0;
    &&& matches_plainly(errors, text_or(o.error_pattern, DEFAULT_ERROR_PATTERN@))
    &&& matches_plainly(warnings, text_or(o.warning_pattern, DEFAULT_WARNING_PATTERN@))
    &&& is_scan(recent, end, since as u64, age(now as nat, since) as u64, errors, warnings)
}

/// Whether a report is that of a snapshot that can be taken.
pub open spec fn is_snapshot(
    r: SummaryReport,
    o: SummaryOptions,
    status: Option<StatusReply>,
    counters: Option<CounterReply>,
    meta: Option<MetaFacts>,
    log: LogFacts<'_>,
    now: u64,
) -> bool {
    &&& match log.end {
        Some(end) => r.recent matches Some(recent) && exists|errors: Matcher, warnings: Matcher|
            #[trigger] is_recent_stats(recent, o, end@, now, errors, warnings),
        None => r.recent is None,
    }
    &&& is_report(
        r,
        SummaryFacts {
            id: o.id,
            status,
            counters,
            meta,
            log_bytes: log.bytes,
            segments: segments_in(log.names@, log.base@) as u64,
            counted_lines: log.counted_lines,
            modified_ms: log.modified_ms,
            now_ms: now,
            recent: r.recent,
        },
    )
}

/// Takes a snapshot, at a point in time. The log may be missing.
pub fn run(
    o: SummaryOptions,
    status: Option<StatusReply>,
    counters: Option<CounterReply>,
    meta: Option<MetaFacts>,
    log: Option<LogFacts<'_>>,
    now: u64,
) -> (r: Result<SummaryReport, String>)
    ensures
        if !ids::valid_id(o.id@) {
            r matches Err(t) && t@ == "invalid id "@ + text::debug_text(o.id@)
        } else {
            match log {
                None => r matches Err(t) && t@ == "no log for id "@ + text::debug_text(o.id@),
                Some(facts) => match plan_error(o, now as nat) {
                    Some(e) => r matches Err(t) && t@ == e,
                    None => r matches Ok(rep) && is_snapshot(
                        rep,
                        o,
                        status,
                        counters,
                        meta,
                        facts,
                        now,
                    ),
                },
            }
        },
{
    match check_id(&o) {
        Ok(_) => {},
        Err(e) => {
            return Err(e);
        },
    }
    let facts = match log {
        Some(f) => f,
        None => {
            return Err(concat2("no log for id ", quoted(o.id.as_str()).as_str()));
        },
    };
    let ready = match plan(&o, now) {
        Ok(p) => p,
        Err(e) => {
            return Err(e);
        },
    };
    let recent = scan_recent(
        facts.end,
        ready.since_ms,
        ready.window_ms,
        &ready.errors,
        &ready.warnings,
    );
    let segments: u64 = count_segments(facts.names, facts.base);
    let report = build_report(
        SummaryFacts {
            id: o.id,
            status,
            counters,
            meta,
            log_bytes: facts.bytes,
            segments,
            counted_lines: facts.counted_lines,
            modified_ms: facts.modified_ms,
            now_ms: now,
            recent,
        },
    );
    assert(facts.end matches Some(end) ==> is_recent_stats(
        report.recent->0,
        o,
        end@,
        now,
        ready.errors,
        ready.warnings,
    ));
    Ok(report)
}

// ---------------------------------------------------------------------
// Laws
// ---------------------------------------------------------------------

/// What is looked at of a line is all that is behind its stamp; a line without a
/// stamp always counts as recent, and one with a stamp from the start of the span on.
pub proof fn a_line_is_looked_at_whole(ms: u64, t: Seq<u8>, since: u64)
    ensures
        body_text(pty::ms_prefix_bytes(ms as nat) + t) == text::lossy_text(t),
        t.len() == 0 || t[0] != 91 ==> body_text(t) == text::lossy_text(t),
        is_recent(pty::ms_prefix_bytes(ms as nat) + t, since) <==> since <= ms,
        t.len() == 0 || t[0] != 91 ==> is_recent(t, since),
        pty::ms_prefix_of(t) is None ==> body_text(t) == text::lossy_text(t) && is_recent(t, since),
        pty::ms_prefix_of(t) matches Some(p) ==> body_text(t) == text::lossy_text(t.skip(p.1)) && (
        is_recent(t, since) <==> since <= p.0),
{
    pty::stamp_reads_back(ms, t);
    pty::other_lines_carry_no_stamp(t, 0);
}

/// Every recent line counts once: the errors are the recent lines that the error
/// pattern matches, and the warnings those of the others that the warning pattern
/// matches.
pub proof fn every_recent_line_counts(
    all: Seq<Seq<u8>>,
    since: u64,
    errors: Matcher,
    warnings: Matcher,
)
    ensures
        tally_of(all, since, errors, warnings).scanned == all.filter(
            |l: Seq<u8>| is_recent(l, since),
        ).len(),
        tally_of(all, since, errors, warnings).errors == all.filter(
            |l: Seq<u8>| is_recent(l, since) && errors.hits(body_text(l)),
        ).len(),
        tally_of(all, since, errors, warnings).warnings == all.filter(
            |l: Seq<u8>|
                is_recent(l, since) && !errors.hits(body_text(l)) && warnings.hits(body_text(l)),
        ).len(),
    decreases all.len(),
{
    reveal(Seq::filter);
    if all.len() > 0 {
        every_recent_line_counts(all.drop_last(), since, errors, warnings);
    }
}

/// The counts of two parts add up.
pub proof fn counts_add_up(
    a: Seq<Seq<u8>>,
    b: Seq<Seq<u8>>,
    since: u64,
    errors: Matcher,
    warnings: Matcher,
)
    ensures
        ({
            let x = tally_of(a, since, errors, warnings);
            let y = tally_of(b, since, errors, warnings);
            let z = tally_of(a + b, since, errors, warnings);
            z.scanned == x.scanned + y.scanned && z.errors == x.errors + y.errors && z.warnings
                == x.warnings + y.warnings
        }),
    decreases b.len(),
{
    if b.len() > 0 {
        counts_add_up(a, b.drop_last(), since, errors, warnings);
        assert((a + b).drop_last() =~= a + b.drop_last());
        assert((a + b).last() == b.last());
    } else {
        assert(a + b =~= a);
    }
}

/// The last megabyte of a log is looked at, and only its last 64 kilobytes where no
/// line of it carries a stamp.
pub proof fn the_end_is_looked_at(a: Seq<u8>, b: Seq<u8>)
    ensures
        last_part(a + b, b.len()) == b,
        forall|n: nat| a.len() <= n ==> #[trigger] last_part(a, n) == a,
        b.len() == 1024 * 1024 && window::any_stamp(lines::finished(b)) ==> looked_at(a + b)
            == lines::finished(b),
        a.len() <= 1024 * 1024 && window::any_stamp(lines::finished(a)) ==> looked_at(a)
            == lines::finished(a),
        b.len() == 64 * 1024 && !window::any_stamp(
            lines::finished(last_part(a + b, 1024 * 1024)),
        ) ==> looked_at(a + b) == lines::finished(b),
        a.len() <= 64 * 1024 ==> looked_at(a) == lines::finished(a),
{
    if a.len() > 0 {
        assert((a + b).skip(a.len() as int) =~= b);
    } else {
        assert(a + b =~= b);
    }
}

/// The counts of a scan are those of the lines that are looked at.
pub proof fn a_scan_counts_what_it_looks_at(
    r: RecentStats,
    log: Seq<u8>,
    since: u64,
    span: u64,
    errors: Matcher,
    warnings: Matcher,
)
    requires
        is_scan(r, log, since, span, errors, warnings),
    ensures
        r.since_ms == span,
        r.errors == looked_at(log).filter(
            |l: Seq<u8>| is_recent(l, since) && errors.hits(body_text(l)),
        ).len(),
        r.warnings == looked_at(log).filter(
            |l: Seq<u8>|
                is_recent(l, since) && !errors.hits(body_text(l)) && warnings.hits(body_text(l)),
        ).len(),
        r.lines_scanned == looked_at(log).filter(|l: Seq<u8>| is_recent(l, since)).len(),
        r.mode@ == "time-window"@ || r.mode@ == "tail-bytes"@,
        r.mode@ == "time-window"@ <==> window::any_stamp(
            lines::finished(last_part(log, 1024 * 1024)),
        ),
{
    every_recent_line_counts(looked_at(log), since, errors, warnings);
    reveal_strlit("time-window");
    reveal_strlit("tail-bytes");
    assert("time-window"@.len() != "tail-bytes"@.len());
}

/// A log has its own file and one for each number behind its name, and no other
/// file belongs to it.
pub proof fn segments_are_numbered_files(base: Seq<char>, n: nat, x: Seq<char>)
    ensures
        is_segment(base, base),
        is_segment(base + seq!['.'] + text::decimal(n), base),
        !text::all_digits(x) ==> !is_segment(base + seq!['.'] + x, base),
        x.len() > 0 && x[0] != '.' ==> !is_segment(base + x, base),
        x.len() < base.len() ==> !is_segment(x, base),
{
    reveal_strlit(".");
    let dot = base + "."@;
    assert("."@ =~= seq!['.']);
    text::decimal_is_digits(n);
    text::prefixes_come_first(dot, text::decimal(n));
    text::prefixes_come_first(dot, x);
    assert((dot + text::decimal(n)).skip(dot.len() as int) =~= text::decimal(n));
    assert((dot + x).skip(dot.len() as int) =~= x);
    assert((base + x).len() == base.len() + x.len());
    if x.len() > 0 && x[0] != '.' && text::starts_with(base + x, dot) {
        assert((base + x).take(dot.len() as int)[base.len() as int] == x[0]);
        assert(dot[base.len() as int] == '.');
    }
    assert(dot + x =~= base + seq!['.'] + x);
    assert((base + seq!['.'] + x).len() > base.len());
}

/// Every file of a log counts once.
pub proof fn every_segment_counts(names: Seq<String>, base: Seq<char>)
    ensures
        segments_in(names, base) == names.filter(|n: String| is_segment(n@, base)).len(),
    decreases names.len(),
{
    reveal(Seq::filter);
    if names.len() > 0 {
        every_segment_counts(names.drop_last(), base);
    }
}

/// A report says what is known: what the manager says of its subprocess, how long
/// ago things were, and how large the log is.
pub proof fn a_report_says_what_is_known(r: SummaryReport, f: SummaryFacts)
    requires
        is_report(r, f),
    ensures
        r.id == f.id,
        r.log_bytes == f.log_bytes,
        r.tail_cursor == f.log_bytes,
        r.segments == f.segments,
        r.recent == f.recent,
        f.status matches Some(s) && s.state matches Some(t) && (t@ == "running"@ || t@
            == "exited"@) ==> r.state@ == f.status->0.state->0@,
        f.status is None ==> r.state@ == "unknown"@ && r.child_pid is None && r.exit_code is None,
        f.status matches Some(s) && s.child_pid matches Some(p) && p <= u32::MAX ==> r.child_pid
            == Some(f.status->0.child_pid->0 as u32),
        f.status matches Some(s) && s.state matches Some(t) && t@ == "exited"@ && s.code is Some
            && i32::MIN <= s.code->0 <= i32::MAX ==> r.exit_code is Some && r.exit_code->0
            == f.status->0.code->0,
        f.meta matches Some(m) ==> r.name == f.meta->0.name && r.project == Some(
            f.meta->0.project,
        ) && r.started_at == Some(f.meta->0.started_at) && (m.started_at * 1000 <= f.now_ms
            ==> r.uptime_ms + m.started_at * 1000 == f.now_ms),
        f.meta is None ==> r.name is None && r.project is None && r.started_at is None
            && r.uptime_ms == 0,
        f.status is Some && f.counters is Some && f.counters->0.line_count is Some ==> r.log_lines
            == f.counters->0.line_count->0,
        f.status is None || f.counters is None ==> r.log_lines == f.counted_lines,
        f.status is Some && f.counters is Some && f.counters->0.last_line_at_ms is Some && 0
            < f.counters->0.last_line_at_ms->0 <= f.now_ms ==> r.last_line_age_ms is Some && r.last_line_age_ms->0
            + f.counters->0.last_line_at_ms->0 == f.now_ms,
        f.status is None && f.modified_ms is Some && f.modified_ms->0 <= f.now_ms
            ==> r.last_line_age_ms is Some && r.last_line_age_ms->0 + f.modified_ms->0
            == f.now_ms,
        f.status is None && f.modified_ms is None ==> r.last_line_age_ms is None,
        f.status matches Some(s) && !(s.state matches Some(t) && (t@ == "running"@ || t@
            == "exited"@)) ==> r.state@ == "unknown"@ && r.exit_code is None,
        f.status matches Some(s) && s.child_pid is None ==> r.child_pid is None,
        f.meta matches Some(m) && m.started_at * 1000 > f.now_ms ==> r.uptime_ms == 0,
        f.status is Some && f.counters is Some && f.counters->0.line_count is None ==> r.log_lines
            == f.counted_lines,
        f.status is Some && f.counters is Some && f.counters->0.last_line_at_ms is Some
            && f.counters->0.last_line_at_ms->0 > f.now_ms ==> r.last_line_age_ms == Some(0u64),
        (f.counters is None || f.counters->0.last_line_at_ms is None
            || f.counters->0.last_line_at_ms->0 == 0) && f.modified_ms is None
            ==> r.last_line_age_ms is None,
        (f.counters is None || f.counters->0.last_line_at_ms is None
            || f.counters->0.last_line_at_ms->0 == 0) && f.modified_ms is Some
            && f.modified_ms->0 <= f.now_ms ==> r.last_line_age_ms is Some && r.last_line_age_ms->0
            + f.modified_ms->0 == f.now_ms,
        r.schema_version == 1,
{
    reveal_strlit("unknown");
    reveal_strlit("exited");
    assert("unknown"@.len() != "exited"@.len());
}

/// Where nothing is asked for, the last minute counts, and the usual words are
/// errors and warnings.
pub proof fn the_usual_is_looked_for(v: String)
    ensures
        text_or(Some(v), DEFAULT_RECENT_WINDOW@) == v@,
        text_or(None, DEFAULT_RECENT_WINDOW@) == "60s"@,
        text_or(None, DEFAULT_ERROR_PATTERN@) == "(?i)error|fatal"@,
        text_or(None, DEFAULT_WARNING_PATTERN@) == "(?i)warn"@,
{
}

/// A duration is shown in its two largest units.
pub proof fn durations_are_shown_in_two_units(a: nat, b: nat, ms: nat)
    requires
        ms < 1000,
    ensures
        duration_text(ms) == text::decimal(ms) + "ms"@,
        0 < a < 60 ==> duration_text(a * 1000 + ms) == text::decimal(a) + "."@ + text::zero_padded(
            ms,
            3,
        ) + "s"@,
        0 < a < 60 && b < 60 ==> duration_text((a * 60 + b) * 1000 + ms) == text::decimal(a) + "m"@
            + text::zero_padded(b, 2) + "s"@,
        0 < a < 24 && b < 60 ==> duration_text((a * 3600 + b * 60) * 1000 + ms) == text::decimal(a)
            + "h"@ + text::zero_padded(b, 2) + "m"@,
        0 < a && b < 24 ==> duration_text((a * 86400 + b * 3600) * 1000 + ms) == text::decimal(a)
            + "d"@ + text::zero_padded(b, 2) + "h"@,
{
    assert(ms / 1000 == 0);
    if 0 < a < 60 {
        assert((a * 1000 + ms) / 1000 == a);
        assert((a * 1000 + ms) % 1000 == ms);
    }
    if 0 < a < 60 && b < 60 {
        let s = a * 60 + b;
        assert((s * 1000 + ms) / 1000 == s);
        assert(60 <= s < 3600 && s / 60 == a && s % 60 == b);
    }
    if 0 < a < 24 && b < 60 {
        let s = a * 3600 + b * 60;
        assert((s * 1000 + ms) / 1000 == s);
        assert(3600 <= s < 86400 && s / 3600 == a && (s % 3600) / 60 == b);
    }
    if 0 < a && b < 24 {
        let s = a * 86400 + b * 3600;
        assert((s * 1000 + ms) / 1000 == s);
        assert(86400 <= s && s / 86400 == a && (s % 86400) / 3600 == b);
    }
}

/// The text of a report says all of it: whose it is, its state, the size of the log
/// and what was counted of late.
pub proof fn a_report_is_shown_whole(r: SummaryReport)
    ensures
        text::occurs(human_text(r), "id              "@ + r.id@),
        r.name is Some ==> text::occurs(human_text(r), "\nname            "@ + r.name->0@),
        r.name is None ==> text::occurs(human_text(r), "\nname            "@ + "-"@),
        r.project is Some ==> text::occurs(human_text(r), "\nproject         "@ + r.project->0@),
        r.project is None ==> text::occurs(human_text(r), "\nproject         "@ + "-"@),
        text::occurs(human_text(r), "\nstate           "@ + r.state@),
        r.child_pid is Some ==> text::occurs(
            human_text(r),
            "  child_pid="@ + text::decimal(r.child_pid->0 as nat),
        ),
        r.child_pid is None ==> text::occurs(human_text(r), "  child_pid="@ + "-"@),
        r.exit_code is Some ==> text::occurs(
            human_text(r),
            " exit_code="@ + text::signed(r.exit_code->0 as int),
        ),
        text::occurs(human_text(r), "\nuptime          "@ + duration_text(r.uptime_ms as nat)),
        text::occurs(human_text(r), text::decimal(r.log_bytes as nat) + " bytes, "@),
        text::occurs(human_text(r), text::decimal(r.log_lines as nat) + " lines, "@),
        text::occurs(human_text(r), text::decimal(r.segments as nat) + " segment(s)\n"@),
        r.last_line_age_ms is Some ==> text::occurs(
            human_text(r),
            "last line       "@ + duration_text(r.last_line_age_ms->0 as nat) + " ago\n"@,
        ),
        r.last_line_age_ms is None ==> text::occurs(human_text(r), "last line       -\n"@),
        text::occurs(human_text(r), "tail cursor     "@ + text::decimal(r.tail_cursor as nat)),
        r.recent is Some ==> text::occurs(
            human_text(r),
            ")  errors="@ + text::decimal(r.recent->0.errors as nat),
        ) && text::occurs(
            human_text(r),
            "  warnings="@ + text::decimal(r.recent->0.warnings as nat),
        ) && text::occurs(
            human_text(r),
            "  scanned="@ + text::decimal(r.recent->0.lines_scanned as nat),
        ) && text::occurs(human_text(r), "  mode="@ + r.recent->0.mode@),
{
    let child = match r.child_pid {
        Some(p) => text::decimal(p as nat),
        None => "-"@,
    };
    let exit = match r.exit_code {
        Some(c) => " exit_code="@ + text::signed(c as int),
        None => ""@,
    };
    let last = match r.last_line_age_ms {
        Some(age) => "last line       "@ + duration_text(age as nat) + " ago\n"@,
        None => "last line       -\n"@,
    };
    let recent = match r.recent {
        Some(c) => "recent ("@ + duration_text(c.since_ms as nat) + ")  errors="@ + text::decimal(
            c.errors as nat,
        ) + "  warnings="@ + text::decimal(c.warnings as nat) + "  scanned="@ + text::decimal(
            c.lines_scanned as nat,
        ) + "  mode="@ + c.mode@ + "\n"@,
        None => ""@,
    };
    let s1 = "id              "@;
    let s2 = s1 + r.id@;
    text::longer_texts_hold_more(s1, r.id@);
    let s3 = s2 + "\nname            "@;
    text::longer_texts_hold_more(s2, "\nname            "@);
    let s4 = s3 + text_or(r.name, "-"@);
    text::longer_texts_hold_more(s3, text_or(r.name, "-"@));
    let s5 = s4 + "\nproject         "@;
    text::longer_texts_hold_more(s4, "\nproject         "@);
    let s6 = s5 + text_or(r.project, "-"@);
    text::longer_texts_hold_more(s5, text_or(r.project, "-"@));
    let s7 = s6 + "\nstate           "@;
    text::longer_texts_hold_more(s6, "\nstate           "@);
    let s8 = s7 + r.state@;
    text::longer_texts_hold_more(s7, r.state@);
    let s9 = s8 + "  child_pid="@;
    text::longer_texts_hold_more(s8, "  child_pid="@);
    let s10 = s9 + child;
    text::longer_texts_hold_more(s9, child);
    let s11 = s10 + exit;
    text::longer_texts_hold_more(s10, exit);
    let s12 = s11 + "\nuptime          "@;
    text::longer_texts_hold_more(s11, "\nuptime          "@);
    let s13 = s12 + duration_text(r.uptime_ms as nat);
    text::longer_texts_hold_more(s12, duration_text(r.uptime_ms as nat));
    let s14 = s13 + "\nlog             "@;
    text::longer_texts_hold_more(s13, "\nlog             "@);
    let s15 = s14 + text::decimal(r.log_bytes as nat);
    text::longer_texts_hold_more(s14, text::decimal(r.log_bytes as nat));
    let s16 = s15 + " bytes, "@;
    text::longer_texts_hold_more(s15, " bytes, "@);
    let s17 = s16 + text::decimal(r.log_lines as nat);
    text::longer_texts_hold_more(s16, text::decimal(r.log_lines as nat));
    let s18 = s17 + " lines, "@;
    text::longer_texts_hold_more(s17, " lines, "@);
    let s19 = s18 + text::decimal(r.segments as nat);
    text::longer_texts_hold_more(s18, text::decimal(r.segments as nat));
    let s20 = s19 + " segment(s)\n"@;
    text::longer_texts_hold_more(s19, " segment(s)\n"@);
    let s21 = s20 + last;
    text::longer_texts_hold_more(s20, last);
    let s22 = s21 + "tail cursor     "@;
    text::longer_texts_hold_more(s21, "tail cursor     "@);
    let s23 = s22 + text::decimal(r.tail_cursor as nat);
    text::longer_texts_hold_more(s22, text::decimal(r.tail_cursor as nat));
    let s24 = s23 + "\n"@;
    text::longer_texts_hold_more(s23, "\n"@);
    let s25 = s24 + recent;
    text::longer_texts_hold_more(s24, recent);
    assert(human_text(r) == s25);
    text::a_text_occurs_in_itself(Seq::empty(), s2);
    text::two_parts_stand_together(s2, "\nname            "@, text_or(r.name, "-"@));
    text::two_parts_stand_together(s4, "\nproject         "@, text_or(r.project, "-"@));
    text::two_parts_stand_together(s6, "\nstate           "@, r.state@);
    text::two_parts_stand_together(s8, "  child_pid="@, child);
    text::two_parts_stand_together(s11, "\nuptime          "@, duration_text(r.uptime_ms as nat));
    text::two_parts_stand_together(s14, text::decimal(r.log_bytes as nat), " bytes, "@);
    text::two_parts_stand_together(s16, text::decimal(r.log_lines as nat), " lines, "@);
    text::two_parts_stand_together(s18, text::decimal(r.segments as nat), " segment(s)\n"@);
    text::two_parts_stand_together(s21, "tail cursor     "@, text::decimal(r.tail_cursor as nat));
    text::a_text_occurs_in_itself(s10, exit);
    text::a_text_occurs_in_itself(s20, last);
    if r.recent is Some {
        let c = r.recent->0;
        let r2 = "recent ("@ + duration_text(c.since_ms as nat);
        let r3 = r2 + ")  errors="@;
        let r4 = r3 + text::decimal(c.errors as nat);
        let r5 = r4 + "  warnings="@;
        let r6 = r5 + text::decimal(c.warnings as nat);
        let r7 = r6 + "  scanned="@;
        let r8 = r7 + text::decimal(c.lines_scanned as nat);
        let r9 = r8 + "  mode="@;
        let r10 = r9 + c.mode@;
        text::two_parts_stand_together(r2, ")  errors="@, text::decimal(c.errors as nat));
        text::two_parts_stand_together(r4, "  warnings="@, text::decimal(c.warnings as nat));
        text::two_parts_stand_together(r6, "  scanned="@, text::decimal(c.lines_scanned as nat));
        text::two_parts_stand_together(r8, "  mode="@, c.mode@);
        text::longer_texts_hold_more(r4, "  warnings="@);
        text::longer_texts_hold_more(r5, text::decimal(c.warnings as nat));
        text::longer_texts_hold_more(r6, "  scanned="@);
        text::longer_texts_hold_more(r7, text::decimal(c.lines_scanned as nat));
        text::longer_texts_hold_more(r8, "  mode="@);
        text::longer_texts_hold_more(r9, c.mode@);
        text::longer_texts_hold_more(r10, "\n"@);
        assert(recent == r10 + "\n"@);
        text::longer_texts_hold_more_behind(s24, recent);
    }
}

/// A summary can be planned where its window can be read and its patterns compile.
pub proof fn summaries_need_a_window_and_patterns(o: SummaryOptions, now: nat)
    requires
        o.recent_window is Some,
        o.error_pattern is Some,
        o.warning_pattern is Some,
    ensures
        plan_error(o, now) is None <==> tail::time_point(o.recent_window->0@, now) is Ok
            && matcher::regex_outcome(o.error_pattern->0@, false, false) is Ok
            && matcher::regex_outcome(o.warning_pattern->0@, false, false) is Ok,
        tail::time_point(o.recent_window->0@, now) matches Err(e) ==> plan_error(o, now) == Some(
            "--recent-window: "@ + e,
        ),
{
}

/// A snapshot is the report of what was asked of the manager and found in the files,
/// with the recent lines that match the two patterns.
pub proof fn a_snapshot_is_made_of_its_parts(
    r: SummaryReport,
    o: SummaryOptions,
    status: Option<StatusReply>,
    counters: Option<CounterReply>,
    meta: Option<MetaFacts>,
    log: LogFacts<'_>,
    now: u64,
)
    requires
        is_snapshot(r, o, status, counters, meta, log, now),
        log.names@.len() <= u64::MAX,
    ensures
        r.id == o.id,
        r.log_bytes == log.bytes,
        r.segments == log.names@.filter(|n: String| is_segment(n@, log.base@)).len(),
        status is None ==> r.log_lines == log.counted_lines,
        r.recent is Some <==> log.end is Some,
        log.end is Some && o.error_pattern is Some && o.warning_pattern is Some && o.recent_window
            is Some ==> exists|errors: Matcher, warnings: Matcher|
            #![trigger errors.pattern(), warnings.pattern()]
            {
                let since = tail::time_point(o.recent_window->0@, now as nat)->Ok_0 as u64;
                &&& errors.pattern() == o.error_pattern->0@
                &&& warnings.pattern() == o.warning_pattern->0@
                &&& !errors.multi_line() && !errors.ignore_case()
                &&& !warnings.multi_line() && !warnings.ignore_case()
                &&& r.recent->0.errors == looked_at(log.end->0@).filter(
                    |l: Seq<u8>| is_recent(l, since) && errors.hits(body_text(l)),
                ).len()
                &&& r.recent->0.warnings == looked_at(log.end->0@).filter(
                    |l: Seq<u8>|
                        is_recent(l, since) && !errors.hits(body_text(l)) && warnings.hits(
                            body_text(l),
                        ),
                ).len()
            },
{
    every_segment_counts(log.names@, log.base@);
    lemma_filter_len(log.names@, log.base@);
    if log.end is Some {
        let end = log.end->0@;
        let (errors, warnings) = choose|errors: Matcher, warnings: Matcher| #[trigger]
            is_recent_stats(r.recent->0, o, end, now, errors, warnings);
        let since = tail::time_point(
            text_or(o.recent_window, DEFAULT_RECENT_WINDOW@),
            now as nat,
        )->Ok_0;
        a_scan_counts_what_it_looks_at(
            r.recent->0,
            end,
            since as u64,
            age(now as nat, since) as u64,
            errors,
            warnings,
        );
        assert(errors.pattern() == text_or(o.error_pattern, DEFAULT_ERROR_PATTERN@));
        assert(warnings.pattern() == text_or(o.warning_pattern, DEFAULT_WARNING_PATTERN@));
    }
}

proof fn lemma_filter_len(names: Seq<String>, base: Seq<char>)
    ensures
        segments_in(names, base) <= names.len(),
    decreases names.len(),
{
    if names.len() > 0 {
        lemma_filter_len(names.drop_last(), base);
    }
}

} // verus!
