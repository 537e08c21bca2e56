//! Waiting for a pattern to appear in a log.

use vstd::prelude::*;
use vstd::slice::slice_subrange;
use vstd::string::*;
use vstd::utf8::*;

use crate::client::StatusReply;
use crate::grep;
use crate::grep::PatternSource;
use crate::ids;
use crate::ids::is_valid_id;
use crate::lines;
use crate::lines::{find_from, NL};
use crate::matcher;
use crate::matcher::Matcher;
use crate::text;
use crate::text::{
    chars_of,
    concat2,
    concat3,
    count_digits,
    decimal_text,
    decode_lossy,
    digits_value,
    quoted,
    same_text,
    signed_text,
    trim,
    trim_end_matches,
};

verus! {

/// What to wait for, and for how long.
#[derive(Clone)]
pub struct WaitOptions {
    pub id: String,
    pub pattern: Option<String>,
    pub pattern_file: Option<String>,
    pub timeout: Option<String>,
    pub multiline: bool,
    pub json: bool,
}

// ---------------------------------------------------------------------
// Timeouts
// ---------------------------------------------------------------------

/// How many milliseconds a unit of a timeout stands for. Seconds are the
/// default.
pub open spec fn timeout_unit(unit: Seq<char>) -> Option<nat> {
    if unit == ""@ || unit == "s"@ {
        Some(1000)
    } else if unit == "ms"@ {
        Some(1)
    } else if unit == "m"@ {
        Some(60000)
    } else if unit == "h"@ {
        Some(3600000)
    } else {
        None
    }
}

/// How many milliseconds a timeout stands for. One that does not fit is as long
/// as can be.
pub open spec fn timeout_ms(s: Seq<char>) -> Result<nat, Seq<char>> {
    let t = text::trimmed(s);
    let k = text::digits_len(t) as int;
    let n = text::dec_value(t.take(k));
    let unit = text::trimmed(t.skip(k));
    if t.len() == 0 {
        Err("empty timeout"@)
    } else if k == 0 || n > u64::MAX {
        Err("invalid timeout: "@ + t)
    } else {
        match timeout_unit(unit) {
            None => Err("unknown timeout unit: "@ + unit),
            Some(m) => Ok(
                if n * m > u64::MAX {
                    u64::MAX as nat
                } else {
                    n * m
                },
            ),
        }
    }
}

/// Reads a timeout, in milliseconds: digits, then optionally `ms`, `s`, `m` or
/// `h`.
pub fn parse_timeout(s: &str) -> (r: Result<u64, String>)
    ensures
        match timeout_ms(s@) {
            Ok(n) => r == Ok::<u64, String>(n as u64),
            Err(e) => r matches Err(t) && t@ == e,
        },
{
    let t = trim(s);
    let chars = chars_of(t);
    let len: usize = chars.len();
    if len == 0 {
        return Err("empty timeout".to_owned());
    }
    let k: usize = count_digits(&chars);
    proof {
        text::digits_len_is_maximal(chars@);
    }
    if k == 0 {
        return Err(concat2("invalid timeout: ", t));
    }
    assert(chars@.subrange(0, k as int) =~= chars@.take(k as int));
    let n: u64 = match digits_value(&chars, 0, k, u64::MAX) {
        Some(n) => n,
        None => {
            return Err(concat2("invalid timeout: ", t));
        },
    };
    let rest = t.substring_char(k, len);
    assert(rest@ =~= t@.skip(k as int));
    let unit = trim(rest);
    let per_unit: u64 = if same_text(unit, "") || same_text(unit, "s") {
        1000
    } else if same_text(unit, "ms") {
        1
    } else if same_text(unit, "m") {
        60000
    } else if same_text(unit, "h") {
        3600000
    } else {
        return Err(concat2("unknown timeout unit: ", unit));
    };
    match n.checked_mul(per_unit) {
        Some(ms) => Ok(ms),
        None => Ok(u64::MAX),
    }
}

// ---------------------------------------------------------------------
// Preparation
// ---------------------------------------------------------------------

/// Why a wait failed: in machine-readable form, and for people.
pub struct WaitFailure {
    pub error: String,
    pub message: String,
}

/// What both forms of a failure say.
pub open spec fn failure_texts(f: WaitFailure) -> (Seq<char>, Seq<char>) {
    (f.error@, f.message@)
}

/// Checks the identifier and decides where the pattern comes from.
pub fn pattern_source(o: WaitOptions) -> (r: Result<PatternSource, WaitFailure>)
    ensures
        if !ids::valid_id(o.id@) {
            r matches Err(f) && failure_texts(f) == (
                "invalid id"@,
                "invalid id "@ + text::debug_text(o.id@),
            )
        } else {
            match grep::pattern_conflict(o.pattern is Some, o.pattern_file is Some) {
                Some(e) => r matches Err(f) && failure_texts(f) == (e, "wait: "@ + e),
                None => match o.pattern {
                    Some(p) => r == Ok::<PatternSource, WaitFailure>(PatternSource::Text(p)),
                    None => r == Ok::<PatternSource, WaitFailure>(
                        PatternSource::File(o.pattern_file->0),
                    ),
                },
            }
        },
{
    if !is_valid_id(o.id.as_str()) {
        return Err(
            WaitFailure {
                error: "invalid id".to_owned(),
                message: concat2("invalid id ", quoted(o.id.as_str()).as_str()),
            },
        );
    }
    match grep::pattern_source(o.pattern, o.pattern_file) {
        Ok(source) => Ok(source),
        Err(e) => {
            let message = concat2("wait: ", e.as_str());
            Err(WaitFailure { error: e, message })
        },
    }
}

/// The failure of reading a pattern file.
pub fn read_failure(path: &str, error: &str) -> (r: WaitFailure)
    ensures
        failure_texts(r) == (
            "read pattern-file: "@ + error@,
            "wait: read --pattern-file "@ + path@ + ": "@ + error@,
        ),
{
    let mut message = concat3("wait: read --pattern-file ", path, ": ");
    message.append(error);
    WaitFailure { error: concat2("read pattern-file: ", error), message }
}

/// A wait that is ready to run.
pub struct WaitPlan {
    pub matcher: Matcher,
    /// Search the whole text, and not line by line.
    pub multiline: bool,
    pub timeout_ms: Option<u64>,
}

/// Why a wait cannot run, if it cannot.
pub open spec fn plan_error(o: WaitOptions, pattern: Seq<char>) -> Option<Seq<char>> {
    match matcher::regex_outcome(pattern, o.multiline, false) {
        Err(e) => Some("bad regex: "@ + e),
        Ok(_) => match o.timeout {
            None => None,
            Some(t) => match timeout_ms(t@) {
                Err(e) => Some(e),
                Ok(_) => None,
            },
        },
    }
}

/// Compiles the pattern and reads the timeout.
pub fn plan(o: &WaitOptions, pattern: &str) -> (r: Result<WaitPlan, String>)
    ensures
        match plan_error(*o, pattern@) {
            Some(e) => r matches Err(t) && t@ == e,
            None => r matches Ok(p) && p.matcher.pattern() == pattern@ && p.matcher.multi_line()
                == o.multiline && !p.matcher.ignore_case() && p.multiline == o.multiline
                && match o.timeout {
                None => p.timeout_ms is None,
                Some(t) => p.timeout_ms == Some(timeout_ms(t@)->Ok_0 as u64),
            },
        },
{
    let matcher = match Matcher::new(pattern, o.multiline, false) {
        Ok(m) => m,
        Err(e) => {
            return Err(concat2("bad regex: ", e.as_str()));
        },
    };
    match &o.timeout {
        None => Ok(WaitPlan { matcher, multiline: o.multiline, timeout_ms: None }),
        Some(t) => match parse_timeout(t.as_str()) {
            Ok(ms) => Ok(WaitPlan { matcher, multiline: o.multiline, timeout_ms: Some(ms) }),
            Err(e) => Err(e),
        },
    }
}

// ---------------------------------------------------------------------
// Matching what has arrived
// ---------------------------------------------------------------------

/// A line without one carriage return at its end.
pub open spec fn without_cr(s: Seq<u8>) -> Seq<u8> {
    if s.len() > 0 && s.last() == 13u8 {
        s.drop_last()
    } else {
        s
    }
}

/// The text of the finished line that starts at `at`.
pub open spec fn line_text(s: Seq<u8>, at: int) -> Seq<char> {
    text::lossy_text(without_cr(s.subrange(at, at + lines::first_at(s.skip(at), NL))))
}

/// Whether a finished line starts at `at`.
pub open spec fn finished_at(s: Seq<u8>, at: int) -> bool {
    0 <= at < s.len() && lines::first_at(s.skip(at), NL) < s.len() - at
}

/// The first finished line from `at` on that matches, and where the search goes
/// on: behind the last line that was looked at.
pub open spec fn line_search(m: Matcher, s: Seq<u8>, at: int) -> (Option<Seq<char>>, int)
    decreases s.len() - at,
{
    if !finished_at(s, at) {
        (None, at)
    } else {
        let next = at + lines::first_at(s.skip(at), NL) + 1;
        if m.hits(line_text(s, at)) {
            (Some(line_text(s, at)), next)
        } else if next > at {
            line_search(m, s, next)
        } else {
            (None, at)
        }
    }
}

/// The start of the line that holds the byte before `at`.
pub open spec fn line_start(s: Seq<u8>, at: int) -> int
    decreases at,
{
    if at <= 0 {
        0
    } else if s[at - 1] == NL {
        at
    } else {
        line_start(s, at - 1)
    }
}

/// The first match in a whole text, extended to whole lines at both ends, and
/// without carriage returns at its end.
pub open spec fn text_search(m: Matcher, hay: Seq<char>) -> Option<Seq<char>> {
    match m.span(hay) {
        None => None,
        Some(span) => {
            let bytes = encode_utf8(hay);
            let from = line_start(bytes, span.0 as int);
            let to = span.1 + lines::first_at(bytes.skip(span.1 as int), NL);
            Some(text::strip_all_suffix(decode_utf8(bytes.subrange(from, to)), "\r"@))
        },
    }
}

/// Both ends of an ASCII byte in a UTF-8 string are ends of characters.
proof fn lemma_ascii_is_boundary(bytes: Seq<u8>, i: int)
    requires
        valid_utf8(bytes),
        0 <= i < bytes.len(),
        bytes[i] < 128,
    ensures
        is_char_boundary(bytes, i),
        is_char_boundary(bytes, i + 1),
    decreases bytes.len(),
{
    broadcast use vstd::utf8::utf8_byte_ranges_bitwise;

    let n = length_of_first_scalar(bytes);
    let rest = pop_first_scalar(bytes);
    assert(!is_continuation_byte(bytes[i]));
    is_char_boundary_iff_not_is_continuation_byte(bytes, i);
    if i >= n {
        assert(rest[i - n] == bytes[i]);
        lemma_ascii_is_boundary(rest, i - n);
    } else {
        reveal_with_fuel(is_char_boundary, 2);
        assert(i == 0);
        assert(n == 1);
    }
}

/// Looks for a match in what has arrived of a log. Line by line, only finished
/// lines are looked at, each once, from `*line_cursor` on. Otherwise the whole
/// text is searched.
pub fn find_match(
    matcher: &Matcher,
    accum: &[u8],
    multiline: bool,
    line_cursor: &mut usize,
) -> (r: Option<String>)
    ensures
        multiline ==> *final(line_cursor) == *old(line_cursor) && match text_search(
            *matcher,
            text::lossy_text(accum@),
        ) {
            Some(t) => r matches Some(s) && s@ == t,
            None => r is None,
        },
        !multiline ==> ({
            let found = line_search(*matcher, accum@, *old(line_cursor) as int);
            &&& *final(line_cursor) == found.1
            &&& match found.0 {
                Some(t) => r matches Some(s) && s@ == t,
                None => r is None,
            }
        }),
{
    if multiline {
        return find_in_text(matcher, decode_lossy(accum).as_str());
    }
    let ghost want = line_search(*matcher, accum@, *line_cursor as int);
    loop
        invariant
            !multiline,
            want == line_search(*matcher, accum@, *line_cursor as int),
            want == line_search(*matcher, accum@, *old(line_cursor) as int),
        decreases accum@.len() - *line_cursor,
    {
        let at: usize = *line_cursor;
        if at >= accum.len() {
            return None;
        }
        let end: usize = find_from(accum, NL, at);
        if end >= accum.len() {
            return None;
        }
        let mut line = slice_subrange(accum, at, end);
        let n: usize = line.len();
        if n > 0 && line[n - 1] == 13 {
            let shorter = slice_subrange(line, 0, n - 1);
            assert(shorter@ =~= line@.drop_last());
            line = shorter;
        }
        assert(line@ == without_cr(accum@.subrange(at as int, end as int)));
        let found = decode_lossy(line);
        *line_cursor = end + 1;
        if matcher.is_match(found.as_str()) {
            return Some(found);
        }
    }
}

/// Searches a whole text for a match.
fn find_in_text(matcher: &Matcher, hay: &str) -> (r: Option<String>)
    ensures
        match text_search(*matcher, hay@) {
            Some(t) => r matches Some(s) && s@ == t,
            None => r is None,
        },
{
    let (start, end): (usize, usize) = match matcher.find(hay) {
        Some(m) => m,
        None => {
            return None;
        },
    };
    let bytes = hay.as_bytes();
    let mut from: usize = start;
    while from > 0 && bytes[from - 1] != NL
        invariant
            from <= start <= bytes@.len(),
            line_start(bytes@, start as int) == line_start(bytes@, from as int),
        decreases from,
    {
        from -= 1;
    }
    let to: usize = find_from(bytes, NL, end);
    proof {
        encode_utf8_valid_utf8(hay@);
        lines::first_at_is_first(bytes@.skip(end as int), NL);
        is_char_boundary_start_end_of_seq(bytes@);
        if from > 0 {
            lemma_ascii_is_boundary(bytes@, from - 1);
        }
        if to < bytes@.len() {
            assert(bytes@[to as int] == bytes@.skip(end as int)[to - end]);
            lemma_ascii_is_boundary(bytes@, to as int);
        }
    }
    let (front, _) = hay.split_at(to);
    proof {
        let fb = bytes@.subrange(0, to as int);
        valid_utf8_split(bytes@, to as int);
        is_char_boundary_start_end_of_seq(fb);
        if from > 0 {
            assert(fb[from - 1] == bytes@[from - 1]);
            lemma_ascii_is_boundary(fb, from - 1);
        }
    }
    let (_, line) = front.split_at(from);
    proof {
        assert(encode_utf8(line@) =~= bytes@.subrange(from as int, to as int));
        encode_utf8_decode_utf8(line@);
    }
    Some(trim_end_matches(line, "\r").to_owned())
}

// ---------------------------------------------------------------------
// Decisions
// ---------------------------------------------------------------------

/// How a child ended, as far as is known.
#[derive(Clone, Copy, PartialEq, Eq, Structural)]
pub struct ChildExit {
    pub code: Option<i32>,
}

/// The exit code that a status reply carries.
pub open spec fn reply_code(code: Option<i64>) -> Option<i32> {
    match code {
        Some(c) => Some(c as i32),
        None => None,
    }
}

/// Whether a child has ended: its manager's pid file is gone, or its manager
/// says so.
pub open spec fn child_exit(pid_file: bool, reply: Option<StatusReply>) -> Option<ChildExit> {
    if !pid_file {
        Some(ChildExit { code: None })
    } else {
        match reply {
            Some(s) => if s.state matches Some(t) && t@ == "exited"@ {
                Some(ChildExit { code: reply_code(s.code) })
            } else {
                None
            },
            None => None,
        }
    }
}

/// Decides whether a child has ended. A manager that does not answer counts as
/// running.
pub fn check_child_exited(pid_file: bool, reply: &Option<StatusReply>) -> (r: Option<ChildExit>)
    ensures
        r == child_exit(pid_file, *reply),
{
    if !pid_file {
        return Some(ChildExit { code: None });
    }
    match reply {
        Some(s) => {
            let exited = match &s.state {
                Some(t) => same_text(t.as_str(), "exited"),
                None => false,
            };
            if exited {
                match s.code {
                    Some(c) => Some(ChildExit { code: Some(c as i32) }),
                    None => Some(ChildExit { code: None }),
                }
            } else {
                None
            }
        },
        None => None,
    }
}

/// How a wait ends, or what it does next.
pub enum WaitStep {
    /// The pattern matched this line.
    Matched(String),
    /// The time is up.
    TimedOut,
    /// The child ended before the pattern matched.
    Exited(ChildExit),
    /// Nothing yet: look whether the child has ended.
    LookAtChild,
}

/// What has been looked at, and what for.
pub struct Waiter {
    matcher: Matcher,
    multiline: bool,
    timeout_ms: Option<u64>,
    line_cursor: usize,
}

/// What a search finds in a log.
pub open spec fn search(m: Matcher, multiline: bool, s: Seq<u8>, at: int) -> Option<Seq<char>> {
    if multiline {
        text_search(m, text::lossy_text(s))
    } else {
        line_search(m, s, at).0
    }
}

/// Where a search goes on.
pub open spec fn search_end(m: Matcher, multiline: bool, s: Seq<u8>, at: int) -> int {
    if multiline {
        at
    } else {
        line_search(m, s, at).1
    }
}

impl Waiter {
    /// The pattern.
    pub closed spec fn matcher(&self) -> Matcher {
        self.matcher
    }

    /// Whether the whole text is searched, and not line by line.
    pub closed spec fn multiline(&self) -> bool {
        self.multiline
    }

    /// How long is waited.
    pub closed spec fn timeout_ms(&self) -> Option<u64> {
        self.timeout_ms
    }

    /// Where the search goes on.
    pub closed spec fn line_cursor(&self) -> usize {
        self.line_cursor
    }

    /// Whether two waiters wait for the same thing.
    pub open spec fn same_wait(&self, other: &Waiter) -> bool {
        &&& self.matcher() == other.matcher()
        &&& self.multiline() == other.multiline()
        &&& self.timeout_ms() == other.timeout_ms()
    }

    /// A waiter that has looked at nothing yet.
    pub fn new(plan: WaitPlan) -> (r: Self)
        ensures
            r.matcher() == plan.matcher,
            r.multiline() == plan.multiline,
            r.timeout_ms() == plan.timeout_ms,
            r.line_cursor() == 0,
    {
        Waiter {
            matcher: plan.matcher,
            multiline: plan.multiline,
            timeout_ms: plan.timeout_ms,
            line_cursor: 0,
        }
    }

    /// What to do once everything that is there has been read: a match comes
    /// first, then the timeout.
    pub fn after_read(&mut self, accum: &[u8], elapsed_ms: u64) -> (r: WaitStep)
        ensures
            final(self).same_wait(old(self)),
            final(self).line_cursor() == search_end(
                old(self).matcher(),
                old(self).multiline(),
                accum@,
                old(self).line_cursor() as int,
            ),
            match search(
                old(self).matcher(),
                old(self).multiline(),
                accum@,
                old(self).line_cursor() as int,
            ) {
                Some(t) => r matches WaitStep::Matched(s) && s@ == t,
                None => if old(self).timeout_ms() matches Some(ms) && elapsed_ms >= ms {
                    r is TimedOut
                } else {
                    r is LookAtChild
                },
            },
    {
        match find_match(&self.matcher, accum, self.multiline, &mut self.line_cursor) {
            Some(line) => WaitStep::Matched(line),
            None => match self.timeout_ms {
                Some(ms) => {
                    if elapsed_ms >= ms {
                        WaitStep::TimedOut
                    } else {
                        WaitStep::LookAtChild
                    }
                },
                None => WaitStep::LookAtChild,
            },
        }
    }

    /// What to do once the child has ended and the rest of the log has been
    /// read: a match in it still counts.
    pub fn after_exit(&mut self, accum: &[u8], exit: ChildExit) -> (r: WaitStep)
        ensures
            final(self).same_wait(old(self)),
            final(self).line_cursor() == search_end(
                old(self).matcher(),
                old(self).multiline(),
                accum@,
                old(self).line_cursor() as int,
            ),
            match search(
                old(self).matcher(),
                old(self).multiline(),
                accum@,
                old(self).line_cursor() as int,
            ) {
                Some(t) => r matches WaitStep::Matched(s) && s@ == t,
                None => r == WaitStep::Exited(exit),
            },
    {
        match find_match(&self.matcher, accum, self.multiline, &mut self.line_cursor) {
            Some(line) => WaitStep::Matched(line),
            None => WaitStep::Exited(exit),
        }
    }
}

/// The exit code of a wait that ended: zero for a match, one for a timeout, and
/// two where the child ended first.
pub open spec fn exit_code_of(step: WaitStep) -> Option<u8> {
    match step {
        WaitStep::Matched(_) => Some(0),
        WaitStep::TimedOut => Some(1),
        WaitStep::Exited(_) => Some(2),
        WaitStep::LookAtChild => None,
    }
}

/// The exit code of a wait that ended.
pub fn exit_code(step: &WaitStep) -> (r: Option<u8>)
    ensures
        r == exit_code_of(*step),
{
    match step {
        WaitStep::Matched(_) => Some(0),
        WaitStep::TimedOut => Some(1),
        WaitStep::Exited(_) => Some(2),
        WaitStep::LookAtChild => None,
    }
}

/// What is said of a wait that ended: the line that matched, or why none did.
pub open spec fn outcome_text(step: WaitStep, elapsed_ms: nat) -> Seq<char> {
    match step {
        WaitStep::Matched(line) => line@,
        WaitStep::TimedOut => "timed out after "@ + text::decimal(elapsed_ms) + " ms"@,
        WaitStep::Exited(info) => match info.code {
            Some(c) => "process exited (code "@ + text::signed(c as int)
                + ") before pattern matched"@,
            None => "process exited before pattern matched"@,
        },
        WaitStep::LookAtChild => ""@,
    }
}

/// What is said of a wait that ended.
pub fn outcome(step: &WaitStep, elapsed_ms: u64) -> (r: String)
    ensures
        r@ == outcome_text(*step, elapsed_ms as nat),
{
    match step {
        WaitStep::Matched(line) => line.as_str().to_owned(),
        WaitStep::TimedOut => concat3(
            "timed out after ",
            decimal_text(elapsed_ms).as_str(),
            " ms",
        ),
        WaitStep::Exited(info) => match info.code {
            Some(c) => concat3(
                "process exited (code ",
                signed_text(c as i64).as_str(),
                ") before pattern matched",
            ),
            None => "process exited before pattern matched".to_owned(),
        },
        WaitStep::LookAtChild => "".to_owned(),
    }
}

// ---------------------------------------------------------------------
// Laws
// ---------------------------------------------------------------------

/// Whether a line starts at `p`, for a search that starts at `at`.
pub open spec fn starts_line(s: Seq<u8>, at: int, p: int) -> bool {
    p == at || (at < p && s[p - 1] == NL)
}

/// A search line by line never goes back, and passes finished lines only. Of
/// those that it passes only the last one can match, and where it does, that is
/// the line it found. It stops without a line only where no finished line is
/// left.
pub proof fn line_search_is_exhaustive(m: Matcher, s: Seq<u8>, at: int)
    requires
        0 <= at <= s.len(),
    ensures
        at <= line_search(m, s, at).1 <= s.len(),
        line_search(m, s, at).0 is None ==> !finished_at(s, line_search(m, s, at).1),
        line_search(m, s, at).0 matches Some(t) ==> m.hits(t),
        forall|p: int|
            at <= p < line_search(m, s, at).1 && #[trigger] starts_line(s, at, p) ==> finished_at(
                s,
                p,
            ) && (m.hits(line_text(s, p)) ==> line_search(m, s, at) == (
                Some(line_text(s, p)),
                p + lines::first_at(s.skip(p), NL) + 1,
            )),
    decreases s.len() - at,
{
    if finished_at(s, at) {
        let first = lines::first_at(s.skip(at), NL);
        lines::first_at_is_first(s.skip(at), NL);
        let next = at + first + 1;
        let found = line_search(m, s, at);
        if !m.hits(line_text(s, at)) {
            line_search_is_exhaustive(m, s, next);
        }
        assert forall|p: int| at <= p < found.1 && #[trigger] starts_line(s, at, p) implies finished_at(
            s,
            p,
        ) && (m.hits(line_text(s, p)) ==> found == (
            Some(line_text(s, p)),
            p + lines::first_at(s.skip(p), NL) + 1,
        )) by {
            if at < p < next {
                assert(s[p - 1] == s.skip(at)[p - 1 - at]);
            } else if p >= next {
                assert(starts_line(s, next, p));
            }
        }
    }
}

/// A search that found nothing goes on where it stopped: looking again at a log
/// that has grown, from the cursor, gives the same as looking at all of it at
/// once. So an unfinished line that looked like a match is judged only once it
/// is finished.
pub proof fn line_search_resumes(m: Matcher, s: Seq<u8>, more: Seq<u8>, at: int)
    requires
        0 <= at <= s.len(),
        line_search(m, s, at).0 is None,
    ensures
        line_search(m, s + more, line_search(m, s, at).1) == line_search(m, s + more, at),
    decreases s.len() - at,
{
    if finished_at(s, at) {
        let rest = s.skip(at);
        let all = s + more;
        lines::first_at_is_first(rest, NL);
        let k = lines::first_at(rest, NL);
        let next = at + k + 1;
        assert(all.skip(at) =~= rest + more);
        assert forall|j: int| 0 <= j < k implies all.skip(at)[j] != NL by {
            assert(all.skip(at)[j] == rest[j]);
        }
        assert(all.skip(at)[k] == rest[k]);
        lines::first_at_unique(all.skip(at), NL, k);
        assert(all.subrange(at, at + k) =~= s.subrange(at, at + k));
        line_search_resumes(m, s, more, next);
    }
}

/// The text that is matched of a finished line is the line itself, without its end.
pub proof fn a_line_is_matched_whole(before: Seq<u8>, t: Seq<u8>, rest: Seq<u8>)
    requires
        !t.contains(10u8),
    ensures
        t.len() == 0 || t.last() != 13 ==> line_text(t.push(10u8) + rest, 0) == text::lossy_text(
            t,
        ),
        line_text(t + seq![13u8, 10u8] + rest, 0) == text::lossy_text(t),
        t.len() == 0 || t.last() != 13 ==> line_text(
            before + t.push(10u8) + rest,
            before.len() as int,
        ) == text::lossy_text(t),
        line_text(before + (t + seq![13u8, 10u8]) + rest, before.len() as int)
            == text::lossy_text(t),
        finished_at(before + t.push(10u8) + rest, before.len() as int),
        !finished_at(before + t, before.len() as int),
{
    let none = Seq::<u8>::empty();
    lemma_line_text(none, t, rest);
    lemma_line_text(none, t.push(13u8), rest);
    lemma_line_text(before, t, rest);
    lemma_line_text(before, t.push(13u8), rest);
    assert(none + t.push(10u8) + rest =~= t.push(10u8) + rest);
    assert(none + t.push(13u8).push(10u8) + rest =~= t + seq![13u8, 10u8] + rest);
    assert(before + t.push(13u8).push(10u8) + rest =~= before + (t + seq![13u8, 10u8]) + rest);
    assert(t.push(13u8).drop_last() =~= t);
    let s = before + t;
    assert(s.skip(before.len() as int) =~= t);
    assert forall|j: int| 0 <= j < t.len() implies t[j] != NL by {
        assert(t.contains(t[j]));
    }
    lines::first_at_unique(t, NL, t.len() as int);
}

proof fn lemma_line_text(before: Seq<u8>, t: Seq<u8>, rest: Seq<u8>)
    requires
        forall|j: int| 0 <= j < t.len() && t[j] == 10u8 ==> false,
    ensures
        line_text(before + t.push(10u8) + rest, before.len() as int) == text::lossy_text(
            without_cr(t),
        ),
        finished_at(before + t.push(10u8) + rest, before.len() as int),
        lines::first_at((before + t.push(10u8) + rest).skip(before.len() as int), NL) == t.len(),
{
    let s = before + t.push(10u8) + rest;
    let at = before.len() as int;
    assert(s.skip(at) =~= t.push(10u8) + rest);
    assert forall|j: int| 0 <= j < t.len() implies (t.push(10u8) + rest)[j] != NL by {
        assert((t.push(10u8) + rest)[j] == t[j]);
    }
    assert((t.push(10u8) + rest)[t.len() as int] == 10u8);
    lines::first_at_unique(t.push(10u8) + rest, NL, t.len() as int);
    assert(s.subrange(at, at + t.len()) =~= t);
}

/// Waiting line by line: a finished line that matches is found, with all of its
/// text, and the search goes on behind one that does not; without a finished line
/// nothing is found.
pub proof fn the_first_matching_line_is_found(
    m: Matcher,
    before: Seq<u8>,
    t: Seq<u8>,
    rest: Seq<u8>,
)
    requires
        !t.contains(10u8),
        t.len() == 0 || t.last() != 13,
    ensures
        ({
            let s = before + t.push(10u8) + rest;
            let at = before.len() as int;
            let behind = (before.len() + t.len() + 1) as int;
            &&& m.hits(text::lossy_text(t)) ==> line_search(m, s, at) == (
                Some(text::lossy_text(t)),
                behind,
            )
            &&& !m.hits(text::lossy_text(t)) ==> line_search(m, s, at) == line_search(
                m,
                s,
                behind,
            )
            &&& m.hits(text::lossy_text(t)) ==> search(m, false, s, at) == Some(
                text::lossy_text(t),
            ) && search_end(m, false, s, at) == behind
        }),
        line_search(m, before + t, before.len() as int) == (None::<Seq<char>>, before.len() as int),
        search(m, true, t, before.len() as int) == text_search(m, text::lossy_text(t)),
        search_end(m, true, t, before.len() as int) == before.len(),
{
    a_line_is_matched_whole(before, t, rest);
    assert forall|j: int| 0 <= j < t.len() && t[j] == 10u8 implies false by {
        assert(t.contains(t[j]));
    }
    lemma_line_text(before, t, rest);
}

/// Waiting for a text over several lines: what is found of a match is the lines in
/// which it lies, whole.
pub proof fn the_line_of_a_match_is_found(
    m: Matcher,
    hay: Seq<char>,
    before: Seq<u8>,
    line: Seq<u8>,
    behind: Seq<u8>,
)
    requires
        encode_utf8(hay) == before + line + behind,
        before.len() == 0 || before.last() == 10u8,
        behind.len() == 0 || behind[0] == 10u8,
        m.span(hay) matches Some(span) && before.len() <= span.0 <= span.1 <= before.len()
            + line.len() && !line.take(span.0 - before.len()).contains(10u8) && !line.skip(
            span.1 - before.len(),
        ).contains(10u8),
    ensures
        text_search(m, hay) == Some(text::strip_all_suffix(decode_utf8(line), "\r"@)),
{
    let bytes = encode_utf8(hay);
    let span = m.span(hay)->0;
    let a = span.0 as int;
    let b = span.1 as int;
    let head = line.take(a - before.len());
    let end = line.skip(b - before.len());
    assert forall|j: int| before.len() <= j < a implies bytes[j] != NL by {
        assert(head[j - before.len()] == bytes[j]);
        assert(head.contains(head[j - before.len()]));
    }
    lemma_line_start(bytes, before.len() as int, a);
    let rest = bytes.skip(b);
    let k = before.len() + line.len() - b;
    assert forall|j: int| 0 <= j < k implies rest[j] != NL by {
        assert(rest[j] == end[j]);
        assert(end.contains(end[j]));
    }
    if behind.len() > 0 {
        assert(rest[k] == behind[0]);
    }
    lines::first_at_unique(rest, NL, k);
    assert(bytes.subrange(before.len() as int, (before.len() + line.len()) as int) =~= line);
}

proof fn lemma_line_start(s: Seq<u8>, start: int, at: int)
    requires
        0 <= start <= at <= s.len(),
        start == 0 || s[start - 1] == 10u8,
        forall|j: int| start <= j < at ==> s[j] != 10u8,
    ensures
        line_start(s, at) == start,
    decreases at - start,
{
    if start < at {
        lemma_line_start(s, start, at - 1);
    }
}

/// Nothing is found where nothing matches.
pub proof fn no_match_no_line(m: Matcher, hay: Seq<char>)
    ensures
        m.span(hay) is None <==> text_search(m, hay) is None,
{
}

/// A timeout is read: seconds, unless a unit says otherwise.
pub proof fn timeouts_are_read(n: u64)
    ensures
        timeout_ms(text::decimal(n as nat)) == Ok::<nat, Seq<char>>(at_most(n as nat * 1000)),
        timeout_ms(text::decimal(n as nat) + "s"@) == Ok::<nat, Seq<char>>(
            at_most(n as nat * 1000),
        ),
        timeout_ms(text::decimal(n as nat) + "ms"@) == Ok::<nat, Seq<char>>(n as nat),
        timeout_ms(text::decimal(n as nat) + "m"@) == Ok::<nat, Seq<char>>(
            at_most(n as nat * 60 * 1000),
        ),
        timeout_ms(text::decimal(n as nat) + "h"@) == Ok::<nat, Seq<char>>(
            at_most(n as nat * 60 * 60 * 1000),
        ),
        timeout_ms(text::decimal(n as nat) + "d"@) is Err,
        timeout_ms(Seq::empty()) is Err,
        timeout_ms("s"@) is Err,
{
    reveal_strlit("s");
    reveal_strlit("ms");
    reveal_strlit("m");
    reveal_strlit("h");
    reveal_strlit("d");
    reveal_strlit("");
    let none = Seq::<char>::empty();
    let d = text::decimal(n as nat);
    assert(d + none =~= d);
    assert(none =~= ""@);
    assert("s"@[0] == 's' && "m"@[0] == 'm' && "h"@[0] == 'h' && "d"@[0] == 'd');
    assert("ms"@.len() == 2 && "s"@.len() == 1 && "m"@.len() == 1);
    lemma_timeout(n, none);
    lemma_timeout(n, "s"@);
    lemma_timeout(n, "ms"@);
    lemma_timeout(n, "m"@);
    lemma_timeout(n, "h"@);
    lemma_timeout(n, "d"@);
    let k = n as nat;
    assert(k * 1 == k && k * 60 * 1000 == k * 60000 && k * 60 * 60 * 1000 == k * 3600000);
    assert(timeout_unit("ms"@) == Some(1nat));
    assert(at_most(k) == k);
    assert(timeout_unit("m"@) == Some(60000nat));
    assert(timeout_unit("h"@) == Some(3600000nat));
    assert(timeout_unit("d"@) is None);
    text::trimming_takes_the_blanks_off(none, none, none);
    text::trimming_takes_the_blanks_off(none, "s"@, none);
    assert(none + none + none =~= none);
    assert(none + "s"@ + none =~= "s"@);
    text::leading_digits_end_at_another_character(none, "s"@);
    assert(none + "s"@ =~= "s"@);
}

/// No more than fits.
pub open spec fn at_most(ms: nat) -> nat {
    if ms > u64::MAX {
        u64::MAX as nat
    } else {
        ms
    }
}

proof fn lemma_timeout(n: u64, unit: Seq<char>)
    requires
        unit.len() > 0 ==> !text::is_space(unit[0]) && !text::is_space(unit.last()) && !('0'
            <= unit[0] <= '9'),
    ensures
        match timeout_unit(unit) {
            Some(m) => timeout_ms(text::decimal(n as nat) + unit) == Ok::<nat, Seq<char>>(
                at_most(n as nat * m),
            ),
            None => timeout_ms(text::decimal(n as nat) + unit) is Err,
        },
{
    let none = Seq::<char>::empty();
    let s = text::decimal(n as nat) + unit;
    text::numbers_and_units_come_apart(none, n as nat, unit, none);
    assert(none + s + none =~= s);
}

/// A subprocess has ended where its manager is gone or says so, and the code is the
/// one that the manager gives; it runs otherwise.
pub proof fn an_end_is_seen(s: StatusReply)
    ensures
        child_exit(false, None) == Some(ChildExit { code: None }),
        child_exit(false, Some(s)) == Some(ChildExit { code: None }),
        child_exit(true, None) is None,
        s.state matches Some(t) && t@ == "exited"@ ==> (child_exit(true, Some(s)) matches Some(e)
            && (s.code is None ==> e.code is None) && (s.code is Some && i32::MIN
            <= s.code->0 <= i32::MAX ==> e.code is Some && e.code->0 == s.code->0)),
        !(s.state matches Some(t) && t@ == "exited"@) ==> child_exit(true, Some(s)) is None,
{
}

/// A wait that ends has its own code for each way to end: a match, a timeout, and
/// the end of the subprocess.
pub proof fn exit_codes_tell_the_end(step: WaitStep)
    ensures
        step is Matched <==> exit_code_of(step) == Some(0u8),
        step is TimedOut <==> exit_code_of(step) == Some(1u8),
        step is Exited <==> exit_code_of(step) == Some(2u8),
        step is LookAtChild <==> exit_code_of(step) is None,
        step matches WaitStep::Matched(line) ==> outcome_text(step, 0) == line@,
{
}

/// A number with any other unit is no time to wait, and white space around it changes
/// nothing.
pub proof fn other_units_are_no_timeouts(n: u64, unit: Seq<char>, a: Seq<char>, b: Seq<char>)
    requires
        unit.len() > 0,
        !text::is_space(unit[0]),
        !text::is_space(unit.last()),
        !('0' <= unit[0] <= '9'),
        forall|i: int| 0 <= i < a.len() ==> text::is_space(#[trigger] a[i]),
        forall|i: int| 0 <= i < b.len() ==> text::is_space(#[trigger] b[i]),
    ensures
        unit != "s"@ && unit != "ms"@ && unit != "m"@ && unit != "h"@ ==> timeout_ms(
            text::decimal(n as nat) + unit,
        ) == Err::<nat, Seq<char>>("unknown timeout unit: "@ + unit),
        timeout_ms(a + (text::decimal(n as nat) + unit) + b) == timeout_ms(
            text::decimal(n as nat) + unit,
        ),
        timeout_ms(a + unit + b) == Err::<nat, Seq<char>>("invalid timeout: "@ + unit),
        timeout_ms(a + b) == Err::<nat, Seq<char>>("empty timeout"@),
{
    let none = Seq::<char>::empty();
    let s = text::decimal(n as nat) + unit;
    reveal_strlit("");
    text::numbers_and_units_come_apart(none, n as nat, unit, none);
    text::numbers_and_units_come_apart(a, n as nat, unit, b);
    assert(none + s + none =~= s);
    text::trimming_takes_the_blanks_off(a, unit, b);
    text::trimming_takes_the_blanks_off(a, none, b);
    assert(a + none + b =~= a + b);
}

/// A wait can be planned where its pattern compiles and its time can be read.
pub proof fn waits_need_a_pattern_and_a_time(o: WaitOptions, pattern: Seq<char>)
    ensures
        plan_error(o, pattern) is None <==> matcher::regex_outcome(pattern, o.multiline, false)
            is Ok && (o.timeout is None || timeout_ms(o.timeout->0@) is Ok),
        matcher::regex_outcome(pattern, o.multiline, false) matches Err(e) ==> plan_error(
            o,
            pattern,
        ) == Some("bad regex: "@ + e),
        matcher::regex_outcome(pattern, o.multiline, false) is Ok && o.timeout is Some ==> (
        timeout_ms(o.timeout->0@) matches Err(e) ==> plan_error(o, pattern) == Some(e)),
{
}

/// The end of a wait is told with what there is to tell: the line, the time, or the
/// exit code.
pub proof fn ends_are_told(line: String, ms: nat, code: i32)
    ensures
        outcome_text(WaitStep::Matched(line), ms) == line@,
        outcome_text(WaitStep::TimedOut, ms) == "timed out after "@ + text::decimal(ms) + " ms"@,
        outcome_text(WaitStep::Exited(ChildExit { code: Some(code) }), ms)
            == "process exited (code "@ + text::signed(code as int) + ") before pattern matched"@,
        outcome_text(WaitStep::Exited(ChildExit { code: None }), ms)
            == "process exited before pattern matched"@,
{
}

} // verus!
