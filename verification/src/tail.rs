//! Bounded reads of a log.

use vstd::prelude::*;
use vstd::slice::slice_subrange;
use vstd::string::*;
use vstd::utf8::*;

use crate::ids;
use crate::ids::is_valid_id;
use crate::lines;
use crate::lines::{append_bytes, count_newlines, find_from, split_pieces, NL};
use crate::pty;
use crate::pty::{clock_ms, strip_if};
use crate::segments;
use crate::text;
use crate::text::{
    chars_of,
    concat2,
    concat3,
    count_digits,
    decimal_text,
    decode_lossy,
    digits_value,
    quoted,
    same_text,
    strip_suffix,
    to_upper,
    trim,
    trim_end_matches,
};
use crate::window;
use crate::window::{read_window, remove_stamps};

verus! {

/// What to read of a log, and how to show it.
pub struct TailOptions {
    pub id: String,
    pub follow: bool,
    pub strip_ansi: bool,
    pub lines: Option<u64>,
    pub bytes: Option<String>,
    pub head: Option<u64>,
    pub reverse: bool,
    pub cursor: Option<u64>,
    pub json: bool,
    /// Start of a span of time, such as `30s`, `5m`, a number of milliseconds
    /// or `now`.
    pub since: Option<String>,
    /// End of a span of time.
    pub until: Option<String>,
    /// Keep the stamps in front of the lines of a span of time, and of a number of
    /// lines or bytes.
    pub keep_timestamps: bool,
}

// ---------------------------------------------------------------------
// Options
// ---------------------------------------------------------------------

/// Why options do not go together, if they do not.
pub open spec fn flag_conflict(
    lines: bool,
    bytes: bool,
    head: bool,
    reverse: bool,
    follow: bool,
    cursor: bool,
    json: bool,
    time_window: bool,
) -> Option<Seq<char>> {
    if head && (lines || bytes || reverse || follow) {
        Some("--head is mutually exclusive with --lines/--bytes/--reverse/--follow"@)
    } else if reverse && follow {
        Some("--reverse and --follow can't combine"@)
    } else if reverse && !lines && !bytes {
        Some("--reverse requires --lines N or --bytes N (so the slice is bounded)"@)
    } else if lines && bytes {
        Some("--lines and --bytes are mutually exclusive"@)
    } else if cursor && (lines || bytes || head || reverse) {
        Some(
            "--cursor / --since-cursor is mutually exclusive with --lines/--bytes/--head/--reverse"@,
        )
    } else if json && follow {
        Some("--json and --follow can't combine (use repeated --cursor reads instead)"@)
    } else if time_window && (lines || bytes || head || reverse || cursor || follow) {
        Some(
            "--since / --until is mutually exclusive with --lines/--bytes/--head/--reverse/--cursor/--follow"@,
        )
    } else {
        None
    }
}

/// Checks that options go together.
pub fn validate_flag_combinations(
    lines: Option<u64>,
    has_bytes: bool,
    head: Option<u64>,
    reverse: bool,
    follow: bool,
    cursor: Option<u64>,
    json: bool,
    has_time_window: bool,
) -> (r: Result<(), String>)
    ensures
        match flag_conflict(
            lines is Some,
            has_bytes,
            head is Some,
            reverse,
            follow,
            cursor is Some,
            json,
            has_time_window,
        ) {
            Some(e) => r matches Err(t) && t@ == e,
            None => r is Ok,
        },
{
    if head.is_some() && (lines.is_some() || has_bytes || reverse || follow) {
        return Err(
            "--head is mutually exclusive with --lines/--bytes/--reverse/--follow".to_owned(),
        );
    }
    if reverse && follow {
        return Err("--reverse and --follow can't combine".to_owned());
    }
    if reverse && lines.is_none() && !has_bytes {
        return Err(
            "--reverse requires --lines N or --bytes N (so the slice is bounded)".to_owned(),
        );
    }
    if lines.is_some() && has_bytes {
        return Err("--lines and --bytes are mutually exclusive".to_owned());
    }
    if cursor.is_some() && (lines.is_some() || has_bytes || head.is_some() || reverse) {
        return Err(
            "--cursor / --since-cursor is mutually exclusive with --lines/--bytes/--head/--reverse".to_owned(),
        );
    }
    if json && follow {
        return Err(
            "--json and --follow can't combine (use repeated --cursor reads instead)".to_owned(),
        );
    }
    if has_time_window && (lines.is_some() || has_bytes || head.is_some() || reverse
        || cursor.is_some() || follow) {
        return Err(
            "--since / --until is mutually exclusive with --lines/--bytes/--head/--reverse/--cursor/--follow".to_owned(),
        );
    }
    Ok(())
}

// ---------------------------------------------------------------------
// Numbers with units
// ---------------------------------------------------------------------

/// How many bytes a unit stands for, in upper case and without a trailing `I`.
pub open spec fn byte_unit(unit: Seq<char>) -> Option<nat> {
    if unit == ""@ || unit == "B"@ {
        Some(1)
    } else if unit == "K"@ {
        Some(1024)
    } else if unit == "M"@ {
        Some(1048576)
    } else if unit == "G"@ {
        Some(1073741824)
    } else {
        None
    }
}

/// A text without the `I` at its end, if it has one.
pub open spec fn without_i(s: Seq<char>) -> Seq<char> {
    if text::ends_with(s, "I"@) {
        s.take(s.len() - "I"@.len())
    } else {
        s
    }
}

/// What a number of bytes with an optional unit stands for.
pub open spec fn byte_count(s: Seq<char>) -> Result<nat, Seq<char>> {
    let t = text::trimmed(s);
    let k = text::digits_len(t) as int;
    let n = text::dec_value(t.take(k));
    let unit = t.skip(k);
    if t.len() == 0 {
        Err("empty value"@)
    } else if k == 0 {
        Err("missing number in "@ + text::debug_text(t))
    } else if n > u64::MAX {
        Err("invalid integer in "@ + text::debug_text(t))
    } else {
        match byte_unit(without_i(text::upper(text::trimmed(unit)))) {
            None => Err("unknown unit "@ + text::debug_text(unit)),
            Some(m) => if n * m > u64::MAX {
                Err("byte count overflow: "@ + t)
            } else {
                Ok(n * m)
            },
        }
    }
}

/// Reads a number of bytes: digits, then optionally `B`, `K`, `M` or `G` (in
/// either case, with an `i` behind it if one likes), each 1024 times the one
/// before.
pub fn parse_bytes_suffix(s: &str) -> (r: Result<u64, String>)
    ensures
        match byte_count(s@) {
            Ok(n) => r == Ok::<u64, String>(n as u64),
            Err(e) => r matches Err(t) && t@ == e,
        },
{
    let t = trim(s);
    let chars = chars_of(t);
    let len: usize = chars.len();
    if len == 0 {
        return Err("empty value".to_owned());
    }
    let k: usize = count_digits(&chars);
    proof {
        text::digits_len_is_maximal(chars@);
    }
    if k == 0 {
        return Err(concat2("missing number in ", quoted(t).as_str()));
    }
    assert(chars@.subrange(0, k as int) =~= chars@.take(k as int));
    let n: u64 = match digits_value(&chars, 0, k, u64::MAX) {
        Some(n) => n,
        None => {
            return Err(concat2("invalid integer in ", quoted(t).as_str()));
        },
    };
    let unit_raw = t.substring_char(k, len);
    assert(unit_raw@ =~= t@.skip(k as int));
    let upper = to_upper(trim(unit_raw));
    let unit: &str = match strip_suffix(upper.as_str(), "I") {
        Some(front) => front,
        None => upper.as_str(),
    };
    let mult: u64 = if same_text(unit, "") || same_text(unit, "B") {
        1
    } else if same_text(unit, "K") {
        1024
    } else if same_text(unit, "M") {
        1048576
    } else if same_text(unit, "G") {
        1073741824
    } else {
        return Err(concat2("unknown unit ", quoted(unit_raw).as_str()));
    };
    match n.checked_mul(mult) {
        Some(v) => Ok(v),
        None => Err(concat2("byte count overflow: ", t)),
    }
}

/// The wall clock in milliseconds since the Unix epoch.
pub fn now_ms() -> (ms: u64) {
    clock_ms()
}

/// How many milliseconds a unit of time stands for.
pub open spec fn time_unit(unit: Seq<char>) -> Option<nat> {
    if unit == "ms"@ {
        Some(1)
    } else if unit == "s"@ {
        Some(1000)
    } else if unit == "m"@ {
        Some(60000)
    } else if unit == "h"@ {
        Some(3600000)
    } else if unit == "d"@ {
        Some(86400000)
    } else {
        None
    }
}

/// What a time specification stands for: `now`, a number of milliseconds since
/// the epoch, or a span before now. A span longer than the time since the epoch
/// reaches back to the epoch.
pub open spec fn time_point(input: Seq<char>, now: nat) -> Result<nat, Seq<char>> {
    let s = text::trimmed(text::strip_all_suffix(text::trimmed(input), " ago"@));
    let k = text::digits_len(s) as int;
    let n = text::dec_value(s.take(k));
    let unit = text::trimmed(s.skip(k));
    if s.len() == 0 {
        Err("empty time spec"@)
    } else if text::upper(s) == "NOW"@ {
        Ok(now)
    } else if k == 0 {
        Err("invalid time spec "@ + text::debug_text(input))
    } else if n > u64::MAX {
        Err("invalid integer in time spec "@ + text::debug_text(input))
    } else if unit == ""@ {
        Ok(n)
    } else {
        match time_unit(unit) {
            None => Err("unknown time unit "@ + text::debug_text(unit)),
            Some(m) => Ok(
                if n * m > now {
                    0
                } else {
                    (now - n * m) as nat
                },
            ),
        }
    }
}

/// Reads a time specification.
pub fn parse_time_spec(input: &str, now_ms: u64) -> (r: Result<u64, String>)
    ensures
        match time_point(input@, now_ms as nat) {
            Ok(n) => r == Ok::<u64, String>(n as u64),
            Err(e) => r matches Err(t) && t@ == e,
        },
{
    let s = trim(trim_end_matches(trim(input), " ago"));
    let chars = chars_of(s);
    let len: usize = chars.len();
    if len == 0 {
        return Err("empty time spec".to_owned());
    }
    if same_text(to_upper(s).as_str(), "NOW") {
        return Ok(now_ms);
    }
    let k: usize = count_digits(&chars);
    proof {
        text::digits_len_is_maximal(chars@);
    }
    if k == 0 {
        return Err(concat2("invalid time spec ", quoted(input).as_str()));
    }
    assert(chars@.subrange(0, k as int) =~= chars@.take(k as int));
    let n: u64 = match digits_value(&chars, 0, k, u64::MAX) {
        Some(n) => n,
        None => {
            return Err(concat2("invalid integer in time spec ", quoted(input).as_str()));
        },
    };
    let rest = s.substring_char(k, len);
    assert(rest@ =~= s@.skip(k as int));
    let unit = trim(rest);
    if same_text(unit, "") {
        return Ok(n);
    }
    let per_unit: u64 = if same_text(unit, "ms") {
        1
    } else if same_text(unit, "s") {
        1000
    } else if same_text(unit, "m") {
        60000
    } else if same_text(unit, "h") {
        3600000
    } else if same_text(unit, "d") {
        86400000
    } else {
        return Err(concat2("unknown time unit ", quoted(unit).as_str()));
    };
    match n.checked_mul(per_unit) {
        Some(delta) => Ok(now_ms.saturating_sub(delta)),
        None => Ok(0),
    }
}

// ---------------------------------------------------------------------
// Where a bounded read starts and ends
// ---------------------------------------------------------------------

/// The position behind the `n`-th line feed from the end, if there are that
/// many.
pub open spec fn nth_back(s: Seq<u8>, n: nat) -> Option<int>
    decreases s.len(),
{
    if s.len() == 0 {
        None
    } else if s.last() == NL {
        if n <= 1 {
            Some(s.len() as int)
        } else {
            nth_back(s.drop_last(), (n - 1) as nat)
        }
    } else {
        nth_back(s.drop_last(), n)
    }
}

/// A byte string without the line feed at its end, if it has one.
pub open spec fn without_last_nl(s: Seq<u8>) -> Seq<u8> {
    if s.len() > 0 && s.last() == NL {
        s.drop_last()
    } else {
        s
    }
}

/// Where the last `n` lines start. A line feed at the very end ends the last
/// line and starts no other.
pub open spec fn last_lines_start(s: Seq<u8>, n: nat) -> int {
    if n == 0 {
        s.len() as int
    } else {
        match nth_back(without_last_nl(s), n) {
            Some(p) => p,
            None => 0,
        }
    }
}

/// How many lines a byte string shows, an unfinished one included.
pub open spec fn lines_in(s: Seq<u8>) -> nat {
    if s.len() == 0 {
        0
    } else {
        lines::newlines(without_last_nl(s)) + 1
    }
}

/// How far the start of a read has to move forward to stand at the start of a
/// line, where one starts in `rest` at all. `prev` is the byte before.
pub open spec fn align_offset(prev: u8, rest: Seq<u8>) -> int {
    let k = lines::first_at(rest, NL);
    if prev == NL || k >= rest.len() {
        0
    } else {
        k + 1
    }
}

/// Where the last `n` bytes start, moved forward to the start of a line.
pub open spec fn last_bytes_start(s: Seq<u8>, n: nat) -> int {
    if s.len() <= n {
        0
    } else {
        let raw = s.len() - n;
        raw + align_offset(s[raw - 1], s.skip(raw))
    }
}

/// Where the first `n` lines end.
pub open spec fn head_len(s: Seq<u8>, n: nat) -> int
    decreases s.len(),
{
    let k = lines::first_at(s, NL);
    if n == 0 {
        0
    } else if 0 <= k < s.len() {
        k + 1 + head_len(s.skip(k + 1), (n - 1) as nat)
    } else {
        s.len() as int
    }
}

/// Looks for the `need`-th line feed from the end of a chunk: the position
/// behind it, or how many are left to find before the chunk.
pub fn scan_back(chunk: &[u8], need: u64) -> (r: (Option<usize>, u64))
    requires
        need > 0,
    ensures
        match nth_back(chunk@, need as nat) {
            Some(p) => r.0 matches Some(q) && q == p && 0 < p <= chunk@.len(),
            None => r.0 is None && r.1 == need - lines::newlines(chunk@) && r.1 > 0,
        },
{
    let mut left: u64 = need;
    let mut i: usize = chunk.len();
    assert(chunk@.take(i as int) =~= chunk@);
    while i > 0
        invariant
            0 <= i <= chunk@.len(),
            left > 0,
            nth_back(chunk@, need as nat) == nth_back(chunk@.take(i as int), left as nat),
            left + lines::newlines(chunk@) == need + lines::newlines(chunk@.take(i as int)),
        decreases i,
    {
        assert(chunk@.take(i as int).drop_last() =~= chunk@.take(i - 1));
        assert(chunk@.take(i as int).last() == chunk@[i - 1]);
        if chunk[i - 1] == NL {
            if left == 1 {
                return (Some(i), 0);
            }
            left -= 1;
        }
        i -= 1;
    }
    (None, left)
}

/// Where to start in the part of a log behind the byte `prev` so that the
/// first line is whole.
pub fn align_forward(prev: u8, rest: &[u8]) -> (r: usize)
    ensures
        r == align_offset(prev, rest@),
        r <= rest@.len(),
{
    assert(rest@.skip(0) =~= rest@);
    let k: usize = find_from(rest, NL, 0);
    if prev == NL || k >= rest.len() {
        0
    } else {
        k + 1
    }
}

/// How much of a chunk belongs to the next `need` lines, and how many lines
/// are left behind it.
pub fn head_chunk(chunk: &[u8], need: u64) -> (r: (usize, u64))
    ensures
        r.0 == head_len(chunk@, need as nat),
        r.0 <= chunk@.len(),
        r.1 == need - lines::newlines(chunk@.take(r.0 as int)),
{
    let mut left: u64 = need;
    let mut start: usize = 0;
    assert(chunk@.skip(0) =~= chunk@);
    assert(chunk@.take(0) =~= Seq::<u8>::empty());
    while left > 0 && start < chunk.len()
        invariant
            start <= chunk@.len(),
            head_len(chunk@, need as nat) == start + head_len(chunk@.skip(start as int), left as nat),
            left == need - lines::newlines(chunk@.take(start as int)),
        decreases chunk@.len() - start,
    {
        let ghost rest = chunk@.skip(start as int);
        let k: usize = find_from(chunk, NL, start);
        proof {
            lines::first_at_is_first(rest, NL);
        }
        let ghost rel = k - start;
        if k == chunk.len() {
            proof {
                assert(chunk@.take(k as int) =~= chunk@.take(start as int) + rest);
                lines::count_adds(chunk@.take(start as int), rest, NL);
                lines::count_none(rest, NL);
            }
            return (k, left);
        }
        proof {
            let line = rest.take(rel + 1);
            assert(chunk@.take(k + 1) =~= chunk@.take(start as int) + line);
            lines::count_adds(chunk@.take(start as int), line, NL);
            assert(line.drop_last() =~= rest.take(rel));
            lines::count_none(rest.take(rel), NL);
            assert(rest.skip(rel + 1) =~= chunk@.skip(k + 1));
        }
        left -= 1;
        start = k + 1;
    }
    (start, left)
}

/// How much of a log is looked at in one step from its end.
pub const BACK_CHUNK: usize = 4096;

/// The position from which the last `n` lines of a log are read.
pub fn seek_to_last_n_lines(log: &[u8], n: u64) -> (r: usize)
    ensures
        r == last_lines_start(log@, n as nat),
        r <= log@.len(),
{
    let len: usize = log.len();
    if n == 0 || len == 0 {
        return len;
    }
    let mut pos: usize = if log[len - 1] == NL {
        len - 1
    } else {
        len
    };
    let ghost body = without_last_nl(log@);
    assert(body =~= log@.take(pos as int));
    let mut left: u64 = n;
    while pos > 0
        invariant
            pos <= log@.len(),
            len == log@.len(),
            left > 0,
            n > 0,
            body == without_last_nl(log@),
            nth_back(body, n as nat) == nth_back(log@.take(pos as int), left as nat),
        decreases pos,
    {
        let read: usize = if pos < BACK_CHUNK {
            pos
        } else {
            BACK_CHUNK
        };
        let start: usize = pos - read;
        let chunk = slice_subrange(log, start, pos);
        assert(log@.take(pos as int) =~= log@.take(start as int) + chunk@);
        proof {
            nth_back_over_cut(log@.take(start as int), chunk@, left as nat);
        }
        let (found, more) = scan_back(chunk, left);
        match found {
            Some(p) => {
                return start + p;
            },
            None => {},
        }
        left = more;
        pos = start;
    }
    assert(log@.take(0).len() == 0);
    0
}

/// The position from which roughly the last `n` bytes of a log are read, so
/// that the first line is whole.
pub fn seek_to_last_n_bytes(log: &[u8], n: u64) -> (r: usize)
    ensures
        r == last_bytes_start(log@, n as nat),
        r <= log@.len(),
{
    let len: usize = log.len();
    if len as u64 <= n {
        return 0;
    }
    let raw: usize = len - n as usize;
    let rest = slice_subrange(log, raw, len);
    assert(rest@ =~= log@.skip(raw as int));
    raw + align_forward(log[raw - 1], rest)
}

/// Searching from the end goes on in the part before a cut with what is left
/// to find there.
pub proof fn nth_back_over_cut(a: Seq<u8>, b: Seq<u8>, n: nat)
    requires
        n > 0,
    ensures
        nth_back(a + b, n) == match nth_back(b, n) {
            Some(p) => Some(a.len() + p),
            None => nth_back(a, (n - lines::newlines(b)) as nat),
        },
        nth_back(b, n) is None ==> lines::newlines(b) < n,
    decreases b.len(),
{
    if b.len() == 0 {
        assert(a + b =~= a);
    } else {
        assert((a + b).drop_last() =~= a + b.drop_last());
        assert((a + b).last() == b.last());
        if b.last() == NL {
            if n > 1 {
                nth_back_over_cut(a, b.drop_last(), (n - 1) as nat);
            }
        } else {
            nth_back_over_cut(a, b.drop_last(), n);
        }
    }
}

proof fn lemma_nth_back(s: Seq<u8>, n: nat)
    requires
        n > 0,
    ensures
        match nth_back(s, n) {
            Some(p) => 0 < p <= s.len() && s[p - 1] == NL && lines::newlines(s.skip(p)) == n - 1,
            None => lines::newlines(s) < n,
        },
    decreases s.len(),
{
    if s.len() > 0 {
        let front = s.drop_last();
        if s.last() == NL && n == 1 {
            assert(s.skip(s.len() as int) =~= Seq::<u8>::empty());
        } else {
            let m = if s.last() == NL {
                (n - 1) as nat
            } else {
                n
            };
            lemma_nth_back(front, m);
            match nth_back(front, m) {
                Some(p) => {
                    assert(s.skip(p).drop_last() =~= front.skip(p));
                    assert(s.skip(p).last() == s.last());
                    assert(front[p - 1] == s[p - 1]);
                },
                None => {},
            }
        }
    }
}

/// Reading the last `n` lines starts at the start of a line, and shows exactly
/// `n` lines, or all of them where there are fewer.
pub proof fn last_lines_are_whole(s: Seq<u8>, n: nat)
    ensures
        0 <= last_lines_start(s, n) <= s.len(),
        n > 0 ==> last_lines_start(s, n) == 0 || s[last_lines_start(s, n) - 1] == NL,
        lines_in(s.skip(last_lines_start(s, n))) == if n < lines_in(s) {
            n
        } else {
            lines_in(s)
        },
{
    let p = last_lines_start(s, n);
    if n == 0 {
        assert(s.skip(s.len() as int).len() == 0);
    } else if s.len() == 0 {
        assert(s.skip(0) =~= s);
    } else {
        let body = without_last_nl(s);
        lemma_nth_back(body, n);
        match nth_back(body, n) {
            Some(q) => {
                let all = lines::newlines(body);
                assert(body =~= body.take(q) + body.skip(q));
                lines::count_adds(body.take(q), body.skip(q), NL);
                assert(body.take(q).last() == NL);
                let tail = s.skip(q);
                if s.last() == NL {
                    assert(tail.last() == NL);
                    assert(without_last_nl(tail) =~= body.skip(q));
                } else {
                    assert(q < s.len()) by {
                        assert(s.last() == s[s.len() - 1]);
                    }
                    assert(tail.last() == s.last());
                    assert(without_last_nl(tail) =~= body.skip(q));
                }
            },
            None => {
                assert(s.skip(0) =~= s);
            },
        }
    }
}

/// Reading roughly the last `n` bytes shows at most `n` bytes, and starts at
/// the start of a line wherever a line starts among them.
pub proof fn last_bytes_are_aligned(s: Seq<u8>, n: nat)
    ensures
        0 <= last_bytes_start(s, n) <= s.len(),
        s.len() - last_bytes_start(s, n) <= n,
        ({
            let p = last_bytes_start(s, n);
            p == 0 || s[p - 1] == NL || lines::newlines(s.skip(s.len() - n)) == 0
        }),
{
    if s.len() > n {
        let raw = s.len() - n;
        let rest = s.skip(raw);
        lines::first_at_is_first(rest, NL);
        let k = lines::first_at(rest, NL);
        if k < rest.len() {
            assert(s[raw + k] == rest[k]);
        } else {
            lines::count_none(rest, NL);
        }
    }
}

/// The first `n` lines are the start of the log: exactly `n` finished lines,
/// or the whole log where it has fewer.
pub proof fn head_is_the_first_lines(s: Seq<u8>, n: nat)
    ensures
        0 <= head_len(s, n) <= s.len(),
        lines::newlines(s) >= n ==> lines::newlines(s.take(head_len(s, n))) == n && (n > 0
            ==> s[head_len(s, n) - 1] == NL),
        lines::newlines(s) < n ==> head_len(s, n) == s.len(),
    decreases s.len(),
{
    lines::first_at_is_first(s, NL);
    let k = lines::first_at(s, NL);
    if n == 0 {
        assert(s.take(0) =~= Seq::<u8>::empty());
    } else if k < s.len() {
        let line = s.take(k + 1);
        let rest = s.skip(k + 1);
        head_is_the_first_lines(rest, (n - 1) as nat);
        assert(s =~= line + rest);
        lines::count_adds(line, rest, NL);
        assert(line.drop_last() =~= s.take(k));
        lines::count_none(s.take(k), NL);
        let m = head_len(rest, (n - 1) as nat);
        assert(s.take(k + 1 + m) =~= line + rest.take(m));
        lines::count_adds(line, rest.take(m), NL);
        if m > 0 {
            assert(s[k + m] == rest[m - 1]);
        }
    } else {
        lines::count_none(s, NL);
    }
}

/// The first lines of a log that is read in chunks are the first lines of each
/// chunk in turn, with what is left to read behind the one before.
pub proof fn head_over_cut(a: Seq<u8>, b: Seq<u8>, n: nat)
    requires
        lines::newlines(a) < n,
    ensures
        head_len(a + b, n) == a.len() + head_len(b, (n - lines::newlines(a)) as nat),
    decreases a.len(),
{
    lines::first_at_is_first(a, NL);
    let k = lines::first_at(a, NL);
    if k < a.len() {
        let line = a.take(k + 1);
        let rest = a.skip(k + 1);
        assert(a =~= line + rest);
        lines::count_adds(line, rest, NL);
        assert(line.drop_last() =~= a.take(k));
        lines::count_none(a.take(k), NL);
        head_over_cut(rest, b, (n - 1) as nat);
        assert forall|j: int| 0 <= j < k implies (a + b)[j] != NL by {
            assert((a + b)[j] == a[j]);
        }
        lines::first_at_unique(a + b, NL, k);
        assert((a + b).skip(k + 1) =~= rest + b);
    } else {
        lines::count_none(a, NL);
        lines::first_at_is_first(b, NL);
        let kb = lines::first_at(b, NL);
        assert forall|j: int| 0 <= j < a.len() + kb implies (a + b)[j] != NL by {
            if j < a.len() {
                assert((a + b)[j] == a[j]);
            } else {
                assert((a + b)[j] == b[j - a.len()]);
            }
        }
        if kb < b.len() {
            assert((a + b)[a.len() + kb] == b[kb]);
        }
        lines::first_at_unique(a + b, NL, a.len() + kb);
        if kb < b.len() {
            assert((a + b).skip(a.len() + kb + 1) =~= b.skip(kb + 1));
        }
    }
}

// ---------------------------------------------------------------------
// Lines in reverse
// ---------------------------------------------------------------------

/// A byte string without the line feeds at its end.
pub open spec fn without_end_nls(s: Seq<u8>) -> Seq<u8>
    decreases s.len(),
{
    if s.len() > 0 && s.last() == NL {
        without_end_nls(s.drop_last())
    } else {
        s
    }
}

/// The lines of a byte string in reverse order. A line feed at the very end
/// stays there; where there is none, the result does not end with one either.
pub open spec fn reversed(s: Seq<u8>) -> Seq<u8> {
    if s.len() == 0 {
        Seq::empty()
    } else {
        let back = lines::joined(lines::pieces(without_last_nl(s)).reverse());
        if s.last() == NL {
            back.push(NL)
        } else {
            without_end_nls(back)
        }
    }
}

/// Reverses the order of the lines.
pub fn reverse_lines(bytes: &[u8]) -> (r: Vec<u8>)
    ensures
        r@ == reversed(bytes@),
{
    let len: usize = bytes.len();
    let mut out: Vec<u8> = Vec::new();
    if len == 0 {
        return out;
    }
    let trailing_nl = bytes[len - 1] == NL;
    let body = if trailing_nl {
        slice_subrange(bytes, 0, len - 1)
    } else {
        bytes
    };
    assert(body@ =~= without_last_nl(bytes@));
    let parts = split_pieces(body);
    let ghost back = lines::pieces(body@).reverse();
    let n: usize = parts.len();
    proof {
        lines::pieces_join_back(body@);
        assert(lines::views(parts@).len() == n);
        assert(back.take(0) =~= Seq::<Seq<u8>>::empty());
    }
    let mut i: usize = 0;
    while i < n
        invariant
            i <= n,
            n == parts.len(),
            n == back.len(),
            lines::views(parts@) == lines::pieces(body@),
            back == lines::pieces(body@).reverse(),
            out@ == lines::joined(back.take(i as int)),
        decreases n - i,
    {
        let ghost before = out@;
        if i > 0 {
            out.push(NL);
        }
        let part = parts[n - 1 - i];
        assert(lines::views(parts@)[n - 1 - i] == part@);
        assert(back[i as int] == part@);
        append_bytes(&mut out, part);
        proof {
            lemma_joined_push(back.take(i as int), part@);
            assert(back.take(i + 1) =~= back.take(i as int).push(part@));
            if i > 0 {
                assert(out@ =~= before.push(NL) + part@);
            } else {
                assert(out@ =~= part@);
            }
        }
        i += 1;
    }
    assert(back.take(n as int) =~= back);
    if trailing_nl {
        out.push(NL);
        return out;
    }
    let ghost all = out@;
    while out.len() > 0 && out[out.len() - 1] == NL
        invariant
            without_end_nls(out@) == without_end_nls(all),
        decreases out.len(),
    {
        let ghost before = out@;
        out.pop();
        assert(out@ =~= before.drop_last());
    }
    out
}

proof fn lemma_joined_push(parts: Seq<Seq<u8>>, p: Seq<u8>)
    ensures
        lines::joined(parts.push(p)) == if parts.len() == 0 {
            p
        } else {
            lines::joined(parts).push(NL) + p
        },
    decreases parts.len(),
{
    let all = parts.push(p);
    if parts.len() > 0 {
        assert(all.drop_first() =~= parts.drop_first().push(p));
        lemma_joined_push(parts.drop_first(), p);
        assert(all[0] == parts[0]);
        if parts.len() > 1 {
            assert(lines::joined(all) =~= lines::joined(parts).push(NL) + p);
        }
    }
}

proof fn lemma_joined_last(parts: Seq<Seq<u8>>)
    requires
        parts.len() > 0,
        parts.last().len() > 0,
    ensures
        lines::joined(parts).len() > 0,
        lines::joined(parts).last() == parts.last().last(),
{
    let front = parts.drop_last();
    assert(parts =~= front.push(parts.last()));
    lemma_joined_push(front, parts.last());
}

proof fn lemma_no_end_nl(s: Seq<u8>)
    ensures
        without_end_nls(s).len() == 0 || without_end_nls(s).last() != NL,
    decreases s.len(),
{
    if s.len() > 0 && s.last() == NL {
        lemma_no_end_nl(s.drop_last());
    }
}

/// Reversing the lines keeps whether there is a line feed at the very end.
pub proof fn reverse_keeps_the_end(s: Seq<u8>)
    ensures
        s.len() > 0 && s.last() == NL ==> reversed(s).len() > 0 && reversed(s).last() == NL,
        s.len() > 0 && s.last() != NL ==> reversed(s).len() == 0 || reversed(s).last() != NL,
        s.len() == 0 ==> reversed(s).len() == 0,
{
    if s.len() > 0 && s.last() != NL {
        lemma_no_end_nl(lines::joined(lines::pieces(without_last_nl(s)).reverse()));
    }
}

/// Reversing the lines twice gives back the same bytes. Left out are byte
/// strings that start with an empty line and end with an unfinished one.
pub proof fn reverse_twice_is_the_same(s: Seq<u8>)
    requires
        s.len() > 0 ==> s.last() == NL || s[0] != NL,
    ensures
        reversed(reversed(s)) == s,
{
    if s.len() == 0 {
        assert(reversed(s) =~= s);
    } else {
        let body = without_last_nl(s);
        let parts = lines::pieces(body);
        let back = parts.reverse();
        let r = reversed(s);
        lines::pieces_join_back(body);
        assert forall|i: int| 0 <= i < back.len() implies lines::newlines(#[trigger] back[i]) == 0 by {
            assert(back[i] == parts[parts.len() - 1 - i]);
        }
        lines::joined_cut_back(back);
        assert(back.reverse() =~= parts);
        if s.last() == NL {
            assert(without_last_nl(r) =~= lines::joined(back));
            assert(reversed(r) =~= body.push(NL));
            assert(body.push(NL) =~= s);
        } else {
            lines::first_at_is_first(body, NL);
            let first = parts[0];
            assert(first.len() > 0);
            assert(back.last() == first);
            lemma_joined_last(back);
            assert(first.last() != NL) by {
                lines::no_newline_inside(first);
            }
            assert(without_last_nl(r) == r);
            assert(reversed(r) =~= s);
        }
    }
}

// ---------------------------------------------------------------------
// What a read covers
// ---------------------------------------------------------------------

/// Which part of a log is read.
pub enum Selection {
    /// From a byte offset to the end.
    Cursor(u64),
    /// The first lines.
    Head(u64),
    /// The last lines.
    LastLines(u64),
    /// Roughly the last bytes.
    LastBytes(u64),
    /// Everything.
    All,
}

/// Whether a selection starts behind the end of the log.
pub open spec fn is_stale(sel: Selection, s: Seq<u8>) -> bool {
    sel matches Selection::Cursor(p) && p > s.len()
}

/// The start and the end of the part that a selection covers.
pub open spec fn bounds_of(sel: Selection, s: Seq<u8>) -> (int, int) {
    match sel {
        Selection::Cursor(p) => (p as int, s.len() as int),
        Selection::Head(n) => (0, head_len(s, n as nat)),
        Selection::LastLines(n) => (last_lines_start(s, n as nat), s.len() as int),
        Selection::LastBytes(n) => (last_bytes_start(s, n as nat), s.len() as int),
        Selection::All => (0, s.len() as int),
    }
}

/// The bytes that a selection covers.
pub open spec fn covered(sel: Selection, s: Seq<u8>) -> Seq<u8> {
    s.subrange(bounds_of(sel, s).0, bounds_of(sel, s).1)
}

/// The bytes that a read shows: the covered ones, stripped if asked to, and
/// then in reverse order of lines if asked to.
pub open spec fn shown(sel: Selection, s: Seq<u8>, strip: bool, reverse: bool) -> Seq<u8> {
    let bytes = pty::strip_choice(strip, covered(sel, s));
    if reverse {
        reversed(bytes)
    } else {
        bytes
    }
}

/// Whether a selection covers a number of lines or bytes at an end of the log.
pub open spec fn is_bounded(sel: Selection) -> bool {
    sel is Head || sel is LastLines || sel is LastBytes
}

/// Whether a line starts at a position.
pub open spec fn line_starts_at(s: Seq<u8>, p: int) -> bool {
    p == 0 || s[p - 1] == NL
}

/// The bytes of a plain read. Of a number of lines or bytes, each line is without
/// its stamp unless stamps are kept; the rest of a line that started earlier, a
/// read from an offset and a read of everything are as they are in the log.
pub open spec fn plain_part(sel: Selection, s: Seq<u8>, keep_timestamps: bool) -> Seq<u8> {
    if is_bounded(sel) && !keep_timestamps && line_starts_at(s, bounds_of(sel, s).0) {
        window::every_line(covered(sel, s))
    } else {
        covered(sel, s)
    }
}

/// The bytes that a plain read shows: stripped if asked to, and then in reverse
/// order of lines if asked to.
pub open spec fn plain_shown(
    sel: Selection,
    s: Seq<u8>,
    keep_timestamps: bool,
    strip: bool,
    reverse: bool,
) -> Seq<u8> {
    let bytes = pty::strip_choice(strip, plain_part(sel, s, keep_timestamps));
    if reverse {
        reversed(bytes)
    } else {
        bytes
    }
}

/// The selection that options ask for.
pub open spec fn selection_of(
    cursor: Option<u64>,
    head: Option<u64>,
    lines: Option<u64>,
    bytes: Option<u64>,
) -> Selection {
    match (cursor, head, lines, bytes) {
        (Some(p), _, _, _) => Selection::Cursor(p),
        (None, Some(n), _, _) => Selection::Head(n),
        (None, None, Some(n), _) => Selection::LastLines(n),
        (None, None, None, Some(n)) => Selection::LastBytes(n),
        (None, None, None, None) => Selection::All,
    }
}

/// The selection that options ask for.
pub fn select(
    cursor: Option<u64>,
    head: Option<u64>,
    lines: Option<u64>,
    bytes: Option<u64>,
) -> (r: Selection)
    ensures
        r == selection_of(cursor, head, lines, bytes),
{
    match (cursor, head, lines, bytes) {
        (Some(p), _, _, _) => Selection::Cursor(p),
        (None, Some(n), _, _) => Selection::Head(n),
        (None, None, Some(n), _) => Selection::LastLines(n),
        (None, None, None, Some(n)) => Selection::LastBytes(n),
        (None, None, None, None) => Selection::All,
    }
}

/// The start and the end of the part of a log that a selection covers.
pub fn bounds(sel: &Selection, log: &[u8]) -> (r: (usize, usize))
    requires
        !is_stale(*sel, log@),
    ensures
        r.0 == bounds_of(*sel, log@).0,
        r.1 == bounds_of(*sel, log@).1,
        r.0 <= r.1 <= log@.len(),
{
    let len: usize = log.len();
    match sel {
        Selection::Cursor(p) => (*p as usize, len),
        Selection::Head(n) => {
            let (end, _left) = head_chunk(log, *n);
            (0, end)
        },
        Selection::LastLines(n) => (seek_to_last_n_lines(log, *n), len),
        Selection::LastBytes(n) => (seek_to_last_n_bytes(log, *n), len),
        Selection::All => (0, len),
    }
}

/// The bytes that a read shows.
pub fn show(sel: &Selection, log: &[u8], strip: bool, reverse: bool) -> (r: Vec<u8>)
    requires
        !is_stale(*sel, log@),
    ensures
        r@ == shown(*sel, log@, strip, reverse),
{
    let (from, to) = bounds(sel, log);
    let part = slice_subrange(log, from, to);
    let bytes = strip_if(strip, vstd::slice::slice_to_vec(part));
    if reverse {
        reverse_lines(bytes.as_slice())
    } else {
        bytes
    }
}

/// The bytes of a plain read.
pub fn read_plain(sel: &Selection, log: &[u8], keep_timestamps: bool) -> (r: Vec<u8>)
    requires
        !is_stale(*sel, log@),
    ensures
        r@ == plain_part(*sel, log@, keep_timestamps),
{
    let (from, to) = bounds(sel, log);
    let part = slice_subrange(log, from, to);
    let bounded = match sel {
        Selection::Head(_) | Selection::LastLines(_) | Selection::LastBytes(_) => true,
        _ => false,
    };
    if bounded && !keep_timestamps && (from == 0 || log[from - 1] == NL) {
        remove_stamps(part)
    } else {
        vstd::slice::slice_to_vec(part)
    }
}

/// The bytes that a plain read shows.
pub fn show_plain(
    sel: &Selection,
    log: &[u8],
    keep_timestamps: bool,
    strip: bool,
    reverse: bool,
) -> (r: Vec<u8>)
    requires
        !is_stale(*sel, log@),
    ensures
        r@ == plain_shown(*sel, log@, keep_timestamps, strip, reverse),
{
    let bytes = strip_if(strip, read_plain(sel, log, keep_timestamps));
    if reverse {
        reverse_lines(bytes.as_slice())
    } else {
        bytes
    }
}

/// The first `n` lines of a log, with the stamps that they have.
pub fn emit_head_n_lines(log: &[u8], n: u64, strip: bool) -> (r: Vec<u8>)
    ensures
        r@ == shown(Selection::Head(n), log@, strip, false),
{
    show(&Selection::Head(n), log, strip, false)
}

/// The last lines, or roughly the last bytes, of a log, newest line first, with
/// the stamps that they have.
pub fn emit_reverse_bounded(
    log: &[u8],
    lines: Option<u64>,
    bytes_n: Option<u64>,
    strip: bool,
) -> (r: Vec<u8>)
    ensures
        r@ == shown(selection_of(None, None, lines, bytes_n), log@, strip, true),
{
    show(&select(None, None, lines, bytes_n), log, strip, true)
}

/// A stamped log in two parts: what was written up to a line's end, and the rest.
proof fn lemma_stamped_parts(a: Seq<u8>, b: Seq<u8>, stamps: Seq<u64>) -> (left: Seq<u64>)
    requires
        pty::starts_in(true, a + b) <= stamps.len(),
        a.len() == 0 || a.last() == NL,
    ensures
        pty::starts_in(true, a) <= stamps.len(),
        pty::starts_in(true, b) <= left.len(),
        pty::stamped(true, a + b, stamps) == pty::stamped(true, a, stamps) + pty::stamped(
            true,
            b,
            left,
        ),
        lines::newlines(pty::stamped(true, a, stamps)) == lines::newlines(a),
        lines::newlines(pty::stamped(true, b, left)) == lines::newlines(b),
        window::every_line(pty::stamped(true, a, stamps)) == a,
        window::every_line(pty::stamped(true, b, left)) == b,
{
    let left = stamps.skip(pty::starts_in(true, a) as int);
    segments::lemma_starts_add(true, a, b);
    segments::stamping_is_chunk_independent(true, a, b, stamps);
    window::stamps_come_off(a, stamps);
    window::stamps_come_off(b, left);
    window::every_line_keeps_the_lines(pty::stamped(true, a, stamps));
    window::every_line_keeps_the_lines(pty::stamped(true, b, left));
    left
}

/// The first lines of a stamped log are shown as they were written.
#[verifier::rlimit(40)]
pub proof fn first_lines_are_shown_as_written(s: Seq<u8>, stamps: Seq<u64>, n: u64)
    requires
        pty::starts_in(true, s) <= stamps.len(),
    ensures
        plain_part(Selection::Head(n), pty::stamped(true, s, stamps), false) == covered(
            Selection::Head(n),
            s,
        ),
{
    let t = pty::stamped(true, s, stamps);
    let m = head_len(s, n as nat);
    head_is_the_first_lines(s, n as nat);
    window::stamps_come_off(s, stamps);
    window::every_line_keeps_the_lines(t);
    if n == 0 {
        window::stamps_come_off(Seq::empty(), stamps);
        assert(t.subrange(0, 0) =~= pty::stamped(true, Seq::<u8>::empty(), stamps));
        assert(s.subrange(0, 0) =~= Seq::<u8>::empty());
    } else if lines::newlines(s) < n {
        head_is_the_first_lines(t, n as nat);
        assert(t.subrange(0, t.len() as int) =~= t);
        assert(s.subrange(0, s.len() as int) =~= s);
    } else {
        let a = s.take(m);
        let b = s.skip(m);
        assert(s =~= a + b);
        assert(a.last() == s[m - 1]);
        let left = lemma_stamped_parts(a, b, stamps);
        let ta = pty::stamped(true, a, stamps);
        let tb = pty::stamped(true, b, left);
        segments::lemma_stamped_end(true, a, stamps);
        let front = ta.drop_last();
        let rest = seq![NL] + tb;
        assert(t =~= front + rest);
        head_over_cut(front, rest, n as nat);
        lines::first_at_unique(rest, NL, 0);
        assert(head_len(rest, 1) == 1 + head_len(rest.skip(1), 0));
        assert(t.subrange(0, ta.len() as int) =~= ta);
        assert(s.subrange(0, m) =~= a);
    }
}

proof fn lemma_too_few(s: Seq<u8>, n: nat)
    requires
        lines::newlines(s) < n,
    ensures
        nth_back(s, n) is None,
{
    lemma_nth_back(s, n);
    match nth_back(s, n) {
        Some(p) => {
            assert(s =~= s.take(p) + s.skip(p));
            lines::count_adds(s.take(p), s.skip(p), NL);
            assert(s.take(p).last() == NL);
        },
        None => {},
    }
}

/// The last lines start behind a line's end that has that many lines behind it.
proof fn lemma_last_lines_cut(a: Seq<u8>, b: Seq<u8>, n: nat)
    requires
        a.len() > 0,
        a.last() == NL,
        b.len() > 0,
        lines_in(b) == n,
    ensures
        last_lines_start(a + b, n) == a.len(),
{
    let end = without_last_nl(b);
    assert((a + b).last() == b.last());
    assert(without_last_nl(a + b) =~= a + end);
    lemma_too_few(end, n);
    nth_back_over_cut(a, end, n);
}

/// The last lines of a stamped log are shown as they were written.
#[verifier::rlimit(40)]
pub proof fn last_lines_are_shown_as_written(s: Seq<u8>, stamps: Seq<u64>, n: u64)
    requires
        pty::starts_in(true, s) <= stamps.len(),
    ensures
        plain_part(Selection::LastLines(n), pty::stamped(true, s, stamps), false) == covered(
            Selection::LastLines(n),
            s,
        ),
{
    let t = pty::stamped(true, s, stamps);
    let p = last_lines_start(s, n as nat);
    last_lines_are_whole(s, n as nat);
    let a = s.take(p);
    let b = s.skip(p);
    assert(s =~= a + b);
    assert(s.subrange(p, s.len() as int) =~= b);
    if n == 0 {
        let none = t.subrange(t.len() as int, t.len() as int);
        assert(none =~= Seq::<u8>::empty());
        assert(window::every_line(none) =~= Seq::<u8>::empty());
        assert(b =~= none);
    } else if p == 0 {
        assert(b =~= s);
        window::stamps_come_off(s, stamps);
        assert(last_lines_start(t, n as nat) == 0) by {
            if s.len() > 0 {
                lemma_nth_back(without_last_nl(s), n as nat);
                window::every_line_keeps_the_lines(t);
                segments::lemma_stamped_end(true, s, stamps);
                lemma_too_few(without_last_nl(t), n as nat);
            }
        }
        assert(t.subrange(0, t.len() as int) =~= t);
    } else {
        assert(a.last() == s[p - 1]);
        let left = lemma_stamped_parts(a, b, stamps);
        let ta = pty::stamped(true, a, stamps);
        let tb = pty::stamped(true, b, left);
        lemma_nth_back(without_last_nl(s), n as nat);
        assert(p < s.len()) by {
            assert(s.last() == s[s.len() - 1]);
        }
        assert(b.len() > 0);
        segments::lemma_stamped_end(true, a, stamps);
        segments::lemma_stamped_end(true, b, left);
        assert(without_last_nl(s).skip(p) =~= without_last_nl(b));
        assert(lines_in(b) == n);
        assert(lines_in(tb) == n);
        lemma_last_lines_cut(ta, tb, n as nat);
        assert(t.subrange(ta.len() as int, t.len() as int) =~= tb);
    }
}

/// Why a read cannot start at a byte offset, if it cannot.
pub open spec fn stale_text(pos: nat, len: nat) -> Seq<char> {
    "cursor "@ + text::decimal(pos) + " past EOF ("@ + text::decimal(len)
        + "); log was rotated or truncated"@
}

/// Checks that a byte offset lies in a log of `len` bytes.
pub fn check_cursor(pos: u64, len: u64) -> (r: Result<(), String>)
    ensures
        pos <= len ==> r is Ok,
        pos > len ==> (r matches Err(t) && t@ == stale_text(pos as nat, len as nat)),
{
    if pos > len {
        let mut out = concat3("cursor ", decimal_text(pos).as_str(), " past EOF (");
        out.append(decimal_text(len).as_str());
        out.append("); log was rotated or truncated");
        Err(out)
    } else {
        Ok(())
    }
}

// ---------------------------------------------------------------------
// Envelopes
// ---------------------------------------------------------------------

/// The answer to a read in machine-readable form.
pub struct TailEnvelope {
    /// Where the read started.
    pub cursor_start: u64,
    /// Where the next read goes on.
    pub cursor: u64,
    /// Whether the read started behind the end of the log, so that nothing was
    /// read.
    pub cursor_stale: bool,
    /// Why nothing was read, where that is so.
    pub stale_reason: Option<&'static str>,
    pub lines_emitted: u64,
    pub bytes_emitted: u64,
    pub content: String,
}

/// Why nothing is read behind the end of a log.
pub open spec fn stale_reason_text() -> Seq<char> {
    "cursor past EOF (rotation or truncation)"@
}

/// What an envelope says of a read.
pub open spec fn is_envelope(
    e: TailEnvelope,
    sel: Selection,
    s: Seq<u8>,
    strip: bool,
    reverse: bool,
) -> bool {
    if is_stale(sel, s) {
        &&& sel == Selection::Cursor(e.cursor_start)
        &&& e.cursor == s.len()
        &&& e.cursor_stale
        &&& e.stale_reason matches Some(t) && t@ == stale_reason_text()
        &&& e.lines_emitted == 0
        &&& e.bytes_emitted == 0
        &&& e.content@.len() == 0
    } else {
        &&& e.cursor_start == bounds_of(sel, s).0
        &&& e.cursor == bounds_of(sel, s).1
        &&& !e.cursor_stale
        &&& e.stale_reason is None
        &&& e.lines_emitted == lines::newlines(shown(sel, s, strip, reverse))
        &&& e.bytes_emitted == shown(sel, s, strip, reverse).len()
        &&& e.content@ == text::lossy_text(shown(sel, s, strip, reverse))
        &&& valid_utf8(shown(sel, s, strip, reverse)) ==> e.content@ == decode_utf8(
            shown(sel, s, strip, reverse),
        )
    }
}

/// Reads a part of a log into an envelope.
pub fn emit_json(log: &[u8], sel: &Selection, strip: bool, reverse: bool) -> (r: TailEnvelope)
    ensures
        is_envelope(r, *sel, log@, strip, reverse),
{
    let len: u64 = log.len() as u64;
    match sel {
        Selection::Cursor(p) => {
            if *p > len {
                return TailEnvelope {
                    cursor_start: *p,
                    cursor: len,
                    cursor_stale: true,
                    stale_reason: Some("cursor past EOF (rotation or truncation)"),
                    lines_emitted: 0,
                    bytes_emitted: 0,
                    content: String::new(),
                };
            }
        },
        _ => {},
    }
    let (from, to) = bounds(sel, log);
    let content = show(sel, log, strip, reverse);
    TailEnvelope {
        cursor_start: from as u64,
        cursor: to as u64,
        cursor_stale: false,
        stale_reason: None,
        lines_emitted: count_newlines(content.as_slice()),
        bytes_emitted: content.len() as u64,
        content: decode_lossy(content.as_slice()),
    }
}

/// Polling by cursor loses nothing and repeats nothing: what a read from a
/// cursor shows, and what the next read shows from the cursor it returned after
/// the log has grown, are together what one read of the grown log shows.
pub proof fn polling_is_seamless(
    first: TailEnvelope,
    log: Seq<u8>,
    more: Seq<u8>,
    pos: u64,
    strip: bool,
)
    requires
        pos <= log.len(),
        is_envelope(first, Selection::Cursor(pos), log, strip, false),
    ensures
        first.cursor == log.len(),
        covered(Selection::Cursor(pos), log) + covered(
            Selection::Cursor(first.cursor),
            log + more,
        ) == covered(Selection::Cursor(pos), log + more),
        covered(Selection::Cursor(first.cursor), log + more) == more,
{
    let all = log + more;
    assert(covered(Selection::Cursor(first.cursor), all) =~= more);
    assert(covered(Selection::Cursor(pos), log) + more =~= covered(Selection::Cursor(pos), all));
}

/// A cursor behind the end of the log is answered with the end of the log,
/// from which the next read goes on with what is written since.
pub proof fn stale_cursor_recovers(
    first: TailEnvelope,
    log: Seq<u8>,
    more: Seq<u8>,
    pos: u64,
    strip: bool,
)
    requires
        pos > log.len(),
        is_envelope(first, Selection::Cursor(pos), log, strip, false),
    ensures
        first.cursor_stale,
        !is_stale(Selection::Cursor(first.cursor), log + more),
        covered(Selection::Cursor(first.cursor), log + more) == more,
{
    assert(covered(Selection::Cursor(first.cursor), log + more) =~= more);
}

/// The answer to a read of a span of time.
pub struct WindowReport {
    pub lines_emitted: u64,
    /// The lines of the span, stripped if that was asked for.
    pub content: Vec<u8>,
}

/// What is said where a span of time is asked of a log without stamps.
pub open spec fn unstamped_text(flags: Seq<char>) -> Seq<char> {
    flags + " require timestamped logs; spawn with --timestamps (or AGENT_TERM_TIMESTAMPS=1)"@
}

/// What is said where a span of time is asked of a log without stamps.
pub fn unstamped_error(flags: &str) -> (r: String)
    ensures
        r@ == unstamped_text(flags@),
{
    concat2(
        flags,
        " require timestamped logs; spawn with --timestamps (or AGENT_TERM_TIMESTAMPS=1)",
    )
}

/// Reads the lines of a span of time.
pub fn emit_time_window(
    log: &[u8],
    since: Option<u64>,
    until: Option<u64>,
    strip: bool,
    keep_timestamps: bool,
) -> (r: Result<WindowReport, String>)
    ensures
        ({
            let w = window::window_of(lines::finished(log@), since, until, keep_timestamps);
            if w.stamped {
                r matches Ok(rep) && rep.lines_emitted == w.count && rep.content@
                    == pty::strip_choice(strip, w.bytes)
            } else {
                r matches Err(t) && t@ == unstamped_text("--since/--until"@)
            }
        }),
{
    let w = read_window(log, since, until, keep_timestamps);
    if !w.stamped {
        return Err(unstamped_error("--since/--until"));
    }
    Ok(WindowReport { lines_emitted: w.count, content: strip_if(strip, w.bytes) })
}

// ---------------------------------------------------------------------
// From options to a read
// ---------------------------------------------------------------------

/// The characters of an optional string.
pub open spec fn opt_text(value: Option<String>) -> Option<Seq<char>> {
    match value {
        Some(v) => Some(v@),
        None => None,
    }
}

/// What an optional time specification stands for. An error names the flag.
pub open spec fn time_option(flag: Seq<char>, value: Option<Seq<char>>, now: nat) -> Result<
    Option<u64>,
    Seq<char>,
> {
    match value {
        None => Ok(None),
        Some(v) => match time_point(v, now) {
            Ok(n) => Ok(Some(n as u64)),
            Err(e) => Err(flag + e),
        },
    }
}

/// Reads an optional time specification.
pub fn parse_time_option(flag: &str, value: &Option<String>, now: u64) -> (r: Result<
    Option<u64>,
    String,
>)
    ensures
        match time_option(flag@, opt_text(*value), now as nat) {
            Ok(n) => r == Ok::<Option<u64>, String>(n),
            Err(e) => r matches Err(t) && t@ == e,
        },
{
    match value {
        None => Ok(None),
        Some(v) => match parse_time_spec(v.as_str(), now) {
            Ok(n) => Ok(Some(n)),
            Err(e) => Err(concat2(flag, e.as_str())),
        },
    }
}

/// How a log is to be read.
pub enum TailRead {
    /// The lines of a span of time.
    Window(Option<u64>, Option<u64>),
    /// A selection, into an envelope.
    Json(Selection),
    /// A selection, as bytes.
    Plain(Selection),
}

/// What options ask for, or why they cannot be met.
pub open spec fn tail_plan(o: TailOptions, now: nat) -> Result<TailRead, Seq<char>> {
    if !ids::valid_id(o.id@) {
        Err("invalid id "@ + text::debug_text(o.id@))
    } else {
        match flag_conflict(
            o.lines is Some,
            o.bytes is Some,
            o.head is Some,
            o.reverse,
            o.follow,
            o.cursor is Some,
            o.json,
            o.since is Some || o.until is Some,
        ) {
            Some(e) => Err("tail: "@ + e),
            None => match time_option("tail: --since: "@, opt_text(o.since), now) {
                Err(e) => Err(e),
                Ok(since) => match time_option("tail: --until: "@, opt_text(o.until), now) {
                    Err(e) => Err(e),
                    Ok(until) => match o.bytes {
                        Some(b) => match byte_count(b@) {
                            Err(e) => Err("tail: --bytes: "@ + e),
                            Ok(n) => Ok(tail_read(o, since, until, Some(n as u64))),
                        },
                        None => Ok(tail_read(o, since, until, None)),
                    },
                },
            },
        }
    }
}

/// How a log is read, where all options can be met.
pub open spec fn tail_read(
    o: TailOptions,
    since: Option<u64>,
    until: Option<u64>,
    bytes: Option<u64>,
) -> TailRead {
    let sel = selection_of(o.cursor, o.head, o.lines, bytes);
    if since is Some || until is Some {
        TailRead::Window(since, until)
    } else if o.json {
        TailRead::Json(sel)
    } else {
        TailRead::Plain(sel)
    }
}

/// Works out what options ask for. The errors come in the order in which the
/// options are looked at.
pub fn plan(o: &TailOptions, now: u64) -> (r: Result<TailRead, String>)
    ensures
        match tail_plan(*o, now as nat) {
            Ok(p) => r == Ok::<TailRead, String>(p),
            Err(e) => r matches Err(t) && t@ == e,
        },
{
    if !is_valid_id(o.id.as_str()) {
        return Err(concat2("invalid id ", quoted(o.id.as_str()).as_str()));
    }
    match validate_flag_combinations(
        o.lines,
        o.bytes.is_some(),
        o.head,
        o.reverse,
        o.follow,
        o.cursor,
        o.json,
        o.since.is_some() || o.until.is_some(),
    ) {
        Ok(_) => {},
        Err(e) => {
            return Err(concat2("tail: ", e.as_str()));
        },
    }
    let since: Option<u64> = match parse_time_option("tail: --since: ", &o.since, now) {
        Ok(t) => t,
        Err(e) => {
            return Err(e);
        },
    };
    let until: Option<u64> = match parse_time_option("tail: --until: ", &o.until, now) {
        Ok(t) => t,
        Err(e) => {
            return Err(e);
        },
    };
    let bytes: Option<u64> = match &o.bytes {
        Some(b) => match parse_bytes_suffix(b.as_str()) {
            Ok(n) => Some(n),
            Err(e) => {
                return Err(concat2("tail: --bytes: ", e.as_str()));
            },
        },
        None => None,
    };
    if since.is_some() || until.is_some() {
        return Ok(TailRead::Window(since, until));
    }
    let sel = select(o.cursor, o.head, o.lines, bytes);
    if o.json {
        Ok(TailRead::Json(sel))
    } else {
        Ok(TailRead::Plain(sel))
    }
}

/// Whether a followed log has to be opened anew: it is shorter than what was
/// already read of it, so it was rotated or truncated.
pub fn follow_reopens(pos: Option<u64>, len: Option<u64>) -> (r: bool)
    ensures
        r == (pos matches Some(p) && len matches Some(l) && p > l),
{
    match (pos, len) {
        (Some(p), Some(l)) => p > l,
        _ => false,
    }
}

/// What a read gives.
pub enum TailOutcome {
    /// The lines of a span of time, and the span.
    Window(WindowReport, Option<u64>, Option<u64>),
    /// An envelope.
    Json(TailEnvelope),
    /// Bytes.
    Plain(Vec<u8>),
}

/// Whether an outcome is that of a read that can be met.
pub open spec fn is_outcome(
    r: Result<TailOutcome, String>,
    o: TailOptions,
    read: TailRead,
    log: Seq<u8>,
) -> bool {
    match read {
        TailRead::Window(since, until) => {
            let w = window::window_of(lines::finished(log), since, until, o.keep_timestamps);
            if w.stamped {
                r matches Ok(TailOutcome::Window(rep, s, u)) && s == since && u == until
                    && rep.lines_emitted == w.count && rep.content@ == pty::strip_choice(
                    o.strip_ansi,
                    w.bytes,
                )
            } else {
                r matches Err(t) && t@ == "tail: "@ + unstamped_text("--since/--until"@)
            }
        },
        TailRead::Json(sel) => r matches Ok(TailOutcome::Json(e)) && is_envelope(
            e,
            sel,
            log,
            o.strip_ansi,
            o.reverse,
        ),
        TailRead::Plain(sel) => if is_stale(sel, log) {
            r matches Err(t) && t@ == "tail: "@ + stale_text(
                (sel->Cursor_0) as nat,
                log.len(),
            )
        } else {
            r matches Ok(TailOutcome::Plain(b)) && b@ == plain_shown(
                sel,
                log,
                o.keep_timestamps,
                o.strip_ansi,
                o.reverse,
            )
        },
    }
}

/// Reads a log as options ask for, at a point in time. The log may be missing.
pub fn run(o: &TailOptions, log: Option<&[u8]>, now: u64) -> (r: Result<TailOutcome, String>)
    ensures
        match tail_plan(*o, now as nat) {
            Err(e) => r matches Err(t) && t@ == e,
            Ok(read) => match log {
                None => r matches Err(t) && t@ == "no log for id "@ + text::debug_text(o.id@),
                Some(bytes) => is_outcome(r, *o, read, bytes@),
            },
        },
{
    let read = match plan(o, now) {
        Ok(read) => read,
        Err(e) => {
            return Err(e);
        },
    };
    let bytes: &[u8] = match log {
        Some(b) => b,
        None => {
            return Err(concat2("no log for id ", quoted(o.id.as_str()).as_str()));
        },
    };
    match read {
        TailRead::Window(since, until) => match emit_time_window(
            bytes,
            since,
            until,
            o.strip_ansi,
            o.keep_timestamps,
        ) {
            Ok(report) => Ok(TailOutcome::Window(report, since, until)),
            Err(e) => Err(concat2("tail: ", e.as_str())),
        },
        TailRead::Json(sel) => Ok(
            TailOutcome::Json(emit_json(bytes, &sel, o.strip_ansi, o.reverse)),
        ),
        TailRead::Plain(sel) => {
            match &sel {
                Selection::Cursor(pos) => {
                    match check_cursor(*pos, bytes.len() as u64) {
                        Ok(_) => {},
                        Err(e) => {
                            return Err(concat2("tail: ", e.as_str()));
                        },
                    }
                },
                _ => {},
            }
            Ok(
                TailOutcome::Plain(
                    show_plain(&sel, bytes, o.keep_timestamps, o.strip_ansi, o.reverse),
                ),
            )
        },
    }
}

// ---------------------------------------------------------------------
// Laws
// ---------------------------------------------------------------------

/// A read of the last `n` bytes leaves out no whole line of them: it starts at the
/// first position among them at which a line starts, and at the first of them where
/// none does.
pub proof fn last_bytes_start_at_the_first_line(s: Seq<u8>, n: nat)
    ensures
        s.len() <= n ==> last_bytes_start(s, n) == 0,
        s.len() > n ==> ({
            let raw = s.len() - n;
            let p = last_bytes_start(s, n);
            &&& raw <= p <= s.len()
            &&& forall|q: int| raw <= q < p ==> #[trigger] s[q - 1] != 10u8
            &&& forall|q: int| raw <= q <= s.len() && #[trigger] s[q - 1] == 10u8 ==> s[p - 1]
                == 10u8
            &&& s[p - 1] != 10u8 ==> p == raw
        }),
{
    if s.len() > n {
        let raw = s.len() - n;
        let rest = s.skip(raw);
        alignment_finds_the_next_line(s[raw - 1], rest);
        let p = last_bytes_start(s, n);
        let k = p - raw;
        assert forall|q: int| raw <= q < p implies #[trigger] s[q - 1] != 10u8 by {
            if q > raw {
                assert(rest[q - 1 - raw] == s[q - 1]);
            }
        }
        assert forall|q: int| raw <= q <= s.len() && #[trigger] s[q - 1] == 10u8 implies s[p - 1]
            == 10u8 by {
            if q > raw {
                assert(rest[q - 1 - raw] == s[q - 1]);
            }
            if k > 0 {
                assert(s[p - 1] == rest[k - 1]);
            }
        }
        if k > 0 {
            assert(s[p - 1] == rest[k - 1]);
        }
    }
}

/// Moving forward stops at the first line that starts, and goes nowhere where none
/// does.
pub proof fn alignment_finds_the_next_line(prev: u8, rest: Seq<u8>)
    ensures
        0 <= align_offset(prev, rest) <= rest.len(),
        prev == 10u8 ==> align_offset(prev, rest) == 0,
        prev != 10u8 && rest.contains(10u8) ==> align_offset(prev, rest) > 0 && rest[align_offset(
            prev,
            rest,
        ) - 1] == 10u8,
        forall|j: int| 0 <= j < align_offset(prev, rest) - 1 ==> #[trigger] rest[j] != 10u8,
        !rest.contains(10u8) ==> align_offset(prev, rest) == 0,
{
    lines::first_at_is_first(rest, NL);
}

/// The first lines of a log are as many of its lines as are asked for, or all.
pub proof fn first_lines_are_those_lines(s: Seq<u8>, n: nat)
    ensures
        ({
            let all = lines::all_lines(s);
            let m = if n < all.len() {
                n
            } else {
                all.len()
            };
            0 <= head_len(s, n) <= s.len() && s.take(head_len(s, n)) == all.take(
                m as int,
            ).flatten()
        }),
    decreases s.len(),
{
    head_is_the_first_lines(s, n);
    lines::first_at_is_first(s, NL);
    let k = lines::first_at(s, NL);
    let all = lines::all_lines(s);
    if n == 0 {
        assert(all.take(0) =~= Seq::<Seq<u8>>::empty());
        assert(s.take(0) =~= Seq::<u8>::empty());
    } else if k < s.len() {
        let t = s.take(k);
        let rest = s.skip(k + 1);
        let m = head_len(rest, (n - 1) as nat);
        assert(s =~= t.push(10u8) + rest);
        lines::first_line_comes_first(t, rest);
        first_lines_are_those_lines(rest, (n - 1) as nat);
        let more = lines::all_lines(rest);
        let c = if n < all.len() {
            n
        } else {
            all.len()
        };
        assert(all.take(c as int) =~= seq![t.push(10u8)] + more.take(c - 1));
        assert((seq![t.push(10u8)] + more.take(c - 1)).drop_first() =~= more.take(c - 1));
        assert(s.take(k + 1 + m) =~= t.push(10u8) + rest.take(m));
    } else {
        lines::first_line_comes_first(s, Seq::empty());
        lines::lines_end_with_a_line_feed(s);
        assert(s.take(s.len() as int) =~= s);
        assert(all.take(all.len() as int) =~= all);
    }
}

proof fn lemma_line_number(s: Seq<u8>)
    ensures
        lines::all_lines(s).len() == lines_in(s),
{
    lines::finished_and_unfinished_are_all(s);
    lines::only_a_line_feed_ends_a_line(s);
    if s.len() > 0 && s.last() == NL {
        lines::count_is_the_number(s.drop_last(), s.last(), NL);
        assert(s.drop_last().push(s.last()) =~= s);
    }
}

/// The last lines of a log are as many of its lines as are asked for, or all.
pub proof fn last_lines_are_those_lines(s: Seq<u8>, n: nat)
    ensures
        ({
            let all = lines::all_lines(s);
            let m = if n < all.len() {
                n
            } else {
                all.len()
            };
            0 <= last_lines_start(s, n) <= s.len() && s.skip(last_lines_start(s, n)) == all.skip(
                all.len() - m,
            ).flatten()
        }),
{
    let p = last_lines_start(s, n);
    last_lines_are_whole(s, n);
    let a = s.take(p);
    let b = s.skip(p);
    assert(s =~= a + b);
    let all = lines::all_lines(s);
    lemma_line_number(s);
    lemma_line_number(b);
    if n == 0 {
        assert(all.skip(all.len() as int) =~= Seq::<Seq<u8>>::empty());
        assert(b =~= Seq::<u8>::empty());
    } else {
        if p > 0 {
            assert(a.last() == s[p - 1]);
        }
        lines::lines_go_on_behind_a_line(a, b);
        lines::lines_end_with_a_line_feed(b);
        assert(all.skip(lines::all_lines(a).len() as int) =~= lines::all_lines(b));
    }
}

/// Reversing puts the lines in the opposite order, and keeps each as it is.
pub proof fn reversing_reverses_the_lines(parts: Seq<Seq<u8>>)
    requires
        parts.len() > 0,
        forall|i: int| 0 <= i < parts.len() ==> !(#[trigger] parts[i]).contains(10u8),
    ensures
        reversed(lines::joined(parts).push(10u8)) == lines::joined(parts.reverse()).push(10u8),
        parts[0].len() > 0 && parts.last().len() > 0 ==> reversed(lines::joined(parts))
            == lines::joined(parts.reverse()),
{
    assert forall|i: int| 0 <= i < parts.len() implies lines::newlines(#[trigger] parts[i])
        == 0 by {
        assert forall|j: int| 0 <= j < parts[i].len() implies parts[i][j] != NL by {
            assert(parts[i].contains(parts[i][j]));
        }
        lines::count_none(parts[i], NL);
    }
    lines::joined_cut_back(parts);
    let s = lines::joined(parts);
    assert(without_last_nl(s.push(10u8)) =~= s);
    if parts[0].len() > 0 && parts.last().len() > 0 {
        lemma_joined_last(parts);
        lines::no_newline_inside(parts.last());
        assert(s.last() != NL) by {
            assert(parts.last() == parts[parts.len() - 1]);
            assert(parts.last().last() == parts.last()[parts.last().len() - 1]);
        }
        let back = parts.reverse();
        assert(back.last() == parts[0]);
        lemma_joined_last(back);
        lines::no_newline_inside(parts[0]);
        assert(parts[0].last() == parts[0][parts[0].len() - 1]);
        assert(lines::joined(back).last() != NL);
    }
}

/// A number of bytes is read with its unit: `K`, `M` and `G` in either case stand
/// for 1024, 1024 times that and 1024 times that again, an `i` behind one changes
/// nothing, and nothing else is a unit.
pub proof fn sizes_are_read(n: u64, c: char)
    ensures
        byte_count(text::decimal(n as nat)) == Ok::<nat, Seq<char>>(n as nat),
        ({
            let factor: nat = if c == 'B' || c == 'b' {
                1
            } else if c == 'K' || c == 'k' {
                1024
            } else if c == 'M' || c == 'm' {
                1024 * 1024
            } else if c == 'G' || c == 'g' {
                1024 * 1024 * 1024
            } else {
                0
            };
            let plain = byte_count(text::decimal(n as nat).push(c));
            let binary = byte_count(text::decimal(n as nat) + seq![c, 'i']);
            &&& factor > 0 && n * factor <= u64::MAX ==> plain == Ok::<nat, Seq<char>>(
                n as nat * factor,
            ) && binary == Ok::<nat, Seq<char>>(n as nat * factor)
            &&& factor > 0 && n * factor > u64::MAX ==> plain is Err && binary is Err
            &&& factor == 0 && '!' <= c <= '~' && !('0' <= c <= '9') && c != 'i' && c != 'I'
                ==> plain is Err && binary is Err
        }),
        byte_count(Seq::empty()) is Err,
        !('0' <= c <= '9') ==> byte_count(seq![c]) is Err,
{
    reveal_strlit("");
    reveal_strlit("B");
    reveal_strlit("K");
    reveal_strlit("M");
    reveal_strlit("G");
    reveal_strlit("I");
    let d = text::decimal(n as nat);
    let none = Seq::<char>::empty();
    text::white_space_cannot_be_seen(c);
    text::white_space_cannot_be_seen('i');
    assert(none + (d + none) + none =~= d);
    assert(d + none =~= d);
    text::numbers_and_units_come_apart(none, n as nat, none, none);
    assert(text::upper(none) =~= none);
    assert(!text::ends_with(none, "I"@));
    assert(none =~= ""@);
    if !('0' <= c <= '9') {
        lemma_digits_first(seq![c]);
    }
    lemma_digits_first(none);
    assert(text::trim_front(none) =~= none);
    assert(text::trimmed(none) =~= none);
    assert(without_i(none) == none);
    assert(byte_unit(none) == Some(1nat));
    assert(text::trimmed(d) == d);
    assert(d.take(d.len() as int) =~= d);
    assert(d.skip(d.len() as int) =~= none);
    assert(byte_count(d) == Ok::<nat, Seq<char>>(n as nat));
    if '!' <= c <= '~' && !('0' <= c <= '9') {
        let one = seq![c];
        let two = seq![c, 'i'];
        text::numbers_and_units_come_apart(none, n as nat, one, none);
        text::numbers_and_units_come_apart(none, n as nat, two, none);
        assert(none + (d + one) + none =~= d.push(c));
        assert(none + (d + two) + none =~= d + two);
        assert(d + one =~= d.push(c));
        text::trimming_takes_the_blanks_off(none, one, none);
        assert(none + one + none =~= one);
        assert(text::upper(one) =~= seq![text::upper_char(c)]);
        assert(text::upper(two) =~= seq![text::upper_char(c), 'I']);
        assert(text::upper(two).skip(1) =~= "I"@);
        assert(text::upper(two).take(1) =~= seq![text::upper_char(c)]);
        assert(text::upper(one).skip(0) =~= text::upper(one));
        let u = text::upper_char(c);
        assert(u == 'K' ==> seq![u] =~= "K"@);
        assert(u == 'M' ==> seq![u] =~= "M"@);
        assert(u == 'G' ==> seq![u] =~= "G"@);
        assert(u == 'B' ==> seq![u] =~= "B"@);
        assert(seq![u][0] == u);
        assert("K"@[0] == 'K' && "M"@[0] == 'M' && "G"@[0] == 'G' && "B"@[0] == 'B' && "I"@[0]
            == 'I');
        if c != 'i' && c != 'I' {
            assert(text::upper(one)[0] == u && u != 'I');
            assert(!text::ends_with(text::upper(one), "I"@)) by {
                assert(text::upper(one).skip(0)[0] == u);
            }
        }
    }
}

proof fn lemma_digits_first(s: Seq<char>)
    requires
        s.len() <= 1,
        s.len() == 1 ==> !('0' <= s[0] <= '9'),
    ensures
        text::digits_len(text::trimmed(s)) == 0,
{
    if s.len() == 1 && text::is_space(s[0]) {
        text::trimming_takes_the_blanks_off(s, Seq::empty(), Seq::empty());
        assert(s + Seq::<char>::empty() + Seq::<char>::empty() =~= s);
    } else {
        text::trimming_takes_the_blanks_off(Seq::empty(), s, Seq::empty());
        assert(Seq::<char>::empty() + s + Seq::<char>::empty() =~= s);
    }
}

/// A point in time is read: a bare number stands for itself, a number with a unit
/// for that long ago, as far back as the epoch, and `now` for now.
pub proof fn times_are_read(n: u64, now: nat)
    ensures
        time_point(text::decimal(n as nat), now) == Ok::<nat, Seq<char>>(n as nat),
        time_point("now"@, now) == Ok::<nat, Seq<char>>(now),
        time_point(text::decimal(n as nat) + "ms"@, now) == Ok::<nat, Seq<char>>(before(now, n as nat)),
        time_point(text::decimal(n as nat) + "s"@, now) == Ok::<nat, Seq<char>>(
            before(now, n as nat * 1000),
        ),
        time_point(text::decimal(n as nat) + "m"@, now) == Ok::<nat, Seq<char>>(
            before(now, n as nat * 60 * 1000),
        ),
        time_point(text::decimal(n as nat) + "h"@, now) == Ok::<nat, Seq<char>>(
            before(now, n as nat * 60 * 60 * 1000),
        ),
        time_point(text::decimal(n as nat) + "d"@, now) == Ok::<nat, Seq<char>>(
            before(now, n as nat * 24 * 60 * 60 * 1000),
        ),
        time_point(Seq::empty(), now) is Err,
{
    reveal_strlit("now");
    reveal_strlit("NOW");
    reveal_strlit("ms");
    reveal_strlit("s");
    reveal_strlit("m");
    reveal_strlit("h");
    reveal_strlit("d");
    reveal_strlit("");
    reveal_strlit(" ago");
    let none = Seq::<char>::empty();
    lemma_time_with_unit(n, none, now);
    lemma_time_with_unit(n, "ms"@, now);
    lemma_time_with_unit(n, "s"@, now);
    lemma_time_with_unit(n, "m"@, now);
    lemma_time_with_unit(n, "h"@, now);
    lemma_time_with_unit(n, "d"@, now);
    assert(text::decimal(n as nat) + none =~= text::decimal(n as nat));
    assert(none =~= ""@);
    assert("ms"@.len() == 2 && "s"@.len() == 1 && "m"@.len() == 1);
    assert("s"@[0] == 's' && "m"@[0] == 'm' && "h"@[0] == 'h' && "d"@[0] == 'd');
    let k = n as nat;
    assert(k * 1 == k && k * 60 * 1000 == k * 60000 && k * 60 * 60 * 1000 == k * 3600000);
    assert(k * 24 * 60 * 60 * 1000 == k * 86400000);
    assert(time_unit("ms"@) == Some(1nat));
    assert(time_unit("s"@) == Some(1000nat));
    assert(time_unit("m"@) == Some(60000nat));
    assert(time_unit("h"@) == Some(3600000nat));
    assert(time_unit("d"@) == Some(86400000nat));
    lemma_no_ago("now"@);
    text::white_space_cannot_be_seen('n');
    text::white_space_cannot_be_seen('w');
    text::trimming_takes_the_blanks_off(none, "now"@, none);
    assert(none + "now"@ + none =~= "now"@);
    assert(text::upper("now"@) =~= "NOW"@);
    text::trimming_takes_the_blanks_off(none, none, none);
    assert(none + none + none =~= none);
    assert(text::strip_all_suffix(none, " ago"@) == none);
}

/// So long before a point in time, and no further back than the epoch.
pub open spec fn before(now: nat, span: nat) -> nat {
    if span <= now {
        (now - span) as nat
    } else {
        0
    }
}

proof fn lemma_no_ago(s: Seq<char>)
    requires
        s.len() > 0,
        s.last() != 'o',
    ensures
        text::strip_all_suffix(s, " ago"@) == s,
{
    reveal_strlit(" ago");
    if text::ends_with(s, " ago"@) {
        assert(s.skip(s.len() - 4)[3] == 'o');
        assert(s.skip(s.len() - 4)[3] == s[s.len() - 1]);
    }
}

proof fn lemma_time_with_unit(n: u64, unit: Seq<char>, now: nat)
    requires
        unit.len() > 0 ==> !text::is_space(unit[0]) && !text::is_space(unit.last()) && !('0'
            <= unit[0] <= '9') && unit.last() != 'o',
    ensures
        unit == ""@ ==> time_point(text::decimal(n as nat) + unit, now) == Ok::<nat, Seq<char>>(
            n as nat,
        ),
        unit.len() > 0 && time_unit(unit) is Some ==> time_point(
            text::decimal(n as nat) + unit,
            now,
        ) == Ok::<nat, Seq<char>>(before(now, n as nat * time_unit(unit)->0)),
        time_point(text::decimal(n as nat) + unit + " ago"@, now) == time_point(
            text::decimal(n as nat) + unit,
            now,
        ) || time_point(text::decimal(n as nat) + unit, now) is Err,
{
    reveal_strlit("");
    reveal_strlit("NOW");
    reveal_strlit(" ago");
    let none = Seq::<char>::empty();
    let d = text::decimal(n as nat);
    let s = d + unit;
    text::numbers_and_units_come_apart(none, n as nat, unit, none);
    assert(none + s + none =~= s);
    text::decimal_is_the_shortest_text(n as nat);
    assert(s.last() != 'o') by {
        if unit.len() > 0 {
            assert(s.last() == unit.last());
        } else {
            assert(s.last() == d[d.len() - 1]);
        }
    }
    lemma_no_ago(s);
    assert(text::upper(s)[0] == s[0]) by {
        assert(s[0] == d[0]);
    }
    assert("NOW"@[0] == 'N');
    // With " ago" behind it.
    let long = s + " ago"@;
    assert(long.len() == s.len() + 4);
    text::white_space_cannot_be_seen(long[0]);
    text::white_space_cannot_be_seen('o');
    assert(long[0] == d[0]);
    assert(long.last() == " ago"@[3]);
    text::trimming_takes_the_blanks_off(none, long, none);
    assert(none + long + none =~= long);
    text::every_copy_comes_off(s, " ago"@);
}

/// A span of time may say ` ago` or not.
pub proof fn ago_changes_nothing(n: u64, now: nat)
    ensures
        time_point(text::decimal(n as nat) + "s"@ + " ago"@, now) == time_point(
            text::decimal(n as nat) + "s"@,
            now,
        ),
        time_point(text::decimal(n as nat) + "m"@ + " ago"@, now) == time_point(
            text::decimal(n as nat) + "m"@,
            now,
        ),
        time_point(text::decimal(n as nat) + "h"@ + " ago"@, now) == time_point(
            text::decimal(n as nat) + "h"@,
            now,
        ),
        time_point(text::decimal(n as nat) + "d"@ + " ago"@, now) == time_point(
            text::decimal(n as nat) + "d"@,
            now,
        ),
{
    reveal_strlit("s");
    reveal_strlit("m");
    reveal_strlit("h");
    reveal_strlit("d");
    times_are_read(n, now);
    lemma_time_with_unit(n, "s"@, now);
    lemma_time_with_unit(n, "m"@, now);
    lemma_time_with_unit(n, "h"@, now);
    lemma_time_with_unit(n, "d"@, now);
}

/// What a selection covers: a cursor everything behind it, no selection the whole
/// log, and the others the first or the last lines, or the last bytes.
pub proof fn selections_cover_what_they_name(a: Seq<u8>, b: Seq<u8>, n: u64)
    requires
        (a + b).len() <= u64::MAX,
    ensures
        covered(Selection::Cursor(a.len() as u64), a + b) == b,
        covered(Selection::All, b) == b,
        covered(Selection::Head(n), b) == b.take(head_len(b, n as nat)),
        covered(Selection::LastLines(n), b) == b.skip(last_lines_start(b, n as nat)),
        covered(Selection::LastBytes(n), b) == b.skip(last_bytes_start(b, n as nat)),
        is_stale(Selection::Cursor(n), b) <==> n > b.len(),
        !is_stale(Selection::All, b) && !is_stale(Selection::Head(n), b) && !is_stale(
            Selection::LastLines(n),
            b,
        ) && !is_stale(Selection::LastBytes(n), b),
{
    head_is_the_first_lines(b, n as nat);
    last_lines_are_whole(b, n as nat);
    last_bytes_are_aligned(b, n as nat);
    assert(covered(Selection::Cursor(a.len() as u64), a + b) =~= b);
    assert(covered(Selection::All, b) =~= b);
    assert(covered(Selection::Head(n), b) =~= b.take(head_len(b, n as nat)));
    assert(covered(Selection::LastLines(n), b) =~= b.skip(last_lines_start(b, n as nat)));
    assert(covered(Selection::LastBytes(n), b) =~= b.skip(last_bytes_start(b, n as nat)));
}

/// A read shows what it covers: as it is, stripped, or with its lines reversed.
pub proof fn reads_show_what_they_cover(sel: Selection, s: Seq<u8>, keep: bool)
    ensures
        shown(sel, s, false, false) == covered(sel, s),
        shown(sel, s, true, false) == pty::strip_choice(true, covered(sel, s)),
        shown(sel, s, false, true) == reversed(covered(sel, s)),
        shown(sel, s, true, true) == reversed(pty::strip_choice(true, covered(sel, s))),
        plain_shown(sel, s, true, false, false) == covered(sel, s),
        sel is Cursor || sel is All ==> plain_shown(sel, s, keep, false, false) == covered(sel, s),
        plain_shown(sel, s, keep, true, false) == pty::strip_choice(
            true,
            plain_shown(sel, s, keep, false, false),
        ),
        plain_shown(sel, s, keep, false, true) == reversed(
            plain_shown(sel, s, keep, false, false),
        ),
        plain_shown(sel, s, keep, true, true) == reversed(
            plain_shown(sel, s, keep, true, false),
        ),
{
}

/// A plain read of a number of lines or bytes takes the stamp off every line that it
/// shows, and no plain read adds or drops a line.
pub proof fn plain_reads_keep_every_line(s: Seq<u8>, sel: Selection, keep: bool, n: u64)
    requires
        !is_stale(sel, s),
    ensures
        lines::newlines(plain_shown(sel, s, keep, false, false)) == lines::newlines(
            covered(sel, s),
        ),
        plain_shown(Selection::Head(n), s, false, false, false) == window::every_line(
            covered(Selection::Head(n), s),
        ),
        plain_shown(Selection::LastLines(n), s, false, false, false) == window::every_line(
            covered(Selection::LastLines(n), s),
        ),
        last_bytes_start(s, n as nat) == 0 || s[last_bytes_start(s, n as nat) - 1] == 10u8
            ==> plain_shown(Selection::LastBytes(n), s, false, false, false)
            == window::every_line(covered(Selection::LastBytes(n), s)),
        last_bytes_start(s, n as nat) > 0 && s[last_bytes_start(s, n as nat) - 1] != 10u8
            ==> plain_shown(Selection::LastBytes(n), s, false, false, false) == covered(
            Selection::LastBytes(n),
            s,
        ),
{
    window::every_line_keeps_the_lines(covered(sel, s));
    last_lines_are_whole(s, n as nat);
    if n == 0 {
        let none = covered(Selection::LastLines(n), s);
        assert(none =~= Seq::<u8>::empty());
        window::stamps_come_off_line_by_line(none, none);
        window::only_the_stamp_comes_off(0, none, false);
    }
}

/// An envelope says where the read started and where the next one goes on, how much
/// it holds, and holds it; one that starts behind the end says so and holds nothing.
pub proof fn envelopes_tell_the_read(
    e: TailEnvelope,
    sel: Selection,
    s: Seq<u8>,
    strip: bool,
    reverse: bool,
)
    requires
        is_envelope(e, sel, s, strip, reverse),
        s.len() <= u64::MAX,
    ensures
        sel matches Selection::Cursor(p) && p > s.len() ==> e.cursor_stale && e.cursor_start
            == sel->Cursor_0 && e.cursor == s.len() && e.content@.len() == 0 && e.lines_emitted == 0
            && e.bytes_emitted == 0 && (e.stale_reason matches Some(t) && t@
            == "cursor past EOF (rotation or truncation)"@),
        !(sel matches Selection::Cursor(p) && p > s.len()) ==> ({
            let bytes = shown(sel, s, strip, reverse);
            &&& !e.cursor_stale
            &&& e.stale_reason is None
            &&& s.subrange(e.cursor_start as int, e.cursor as int) == covered(sel, s)
            &&& e.bytes_emitted == bytes.len()
            &&& e.lines_emitted == bytes.filter(|b: u8| b == 10u8).len()
            &&& e.content@ == text::lossy_text(bytes)
            &&& valid_utf8(bytes) ==> e.content@ == decode_utf8(bytes)
        }),
        sel matches Selection::Cursor(p) && p <= s.len() ==> e.cursor_start == sel->Cursor_0
            && e.cursor == s.len(),
        sel is Head ==> e.cursor_start == 0,
        sel is LastLines || sel is LastBytes || sel is All ==> e.cursor == s.len(),
{
    lines::count_is_the_number(shown(sel, s, strip, reverse), 0, 10u8);
}

/// Options go together unless they ask for two parts of a log at once, or for
/// something that has no end in reverse or in an envelope.
pub proof fn options_go_together(
    lines: bool,
    bytes: bool,
    head: bool,
    reverse: bool,
    follow: bool,
    cursor: bool,
    json: bool,
    time_window: bool,
)
    ensures
        flag_conflict(lines, bytes, head, reverse, follow, cursor, json, time_window) is None
            <==> ({
            // At most one part of the log is asked for.
            &&& !(lines && bytes) && !(lines && head) && !(lines && cursor) && !(lines
                && time_window)
            &&& !(bytes && head) && !(bytes && cursor) && !(bytes && time_window)
            &&& !(head && cursor) && !(head && time_window) && !(cursor && time_window)
            // What is reversed is the end of the log, and stands still.
            &&& reverse ==> (lines || bytes) && !follow
            // What is followed is plain and has no end of its own.
            &&& follow ==> !head && !json && !time_window
        }),
{
}

/// The part that is read is the one that is asked for.
pub proof fn the_part_asked_for_is_selected(n: u64, o: TailOptions, now: nat)
    requires
        now <= u64::MAX,
    ensures
        selection_of(Some(n), None, None, None) == Selection::Cursor(n),
        selection_of(None, Some(n), None, None) == Selection::Head(n),
        selection_of(None, None, Some(n), None) == Selection::LastLines(n),
        selection_of(None, None, None, Some(n)) == Selection::LastBytes(n),
        selection_of(None, None, None, None) == Selection::All,
        ids::valid_id(o.id@) && o.since is None && o.until is None && o.bytes is None
            && flag_conflict(
            o.lines is Some,
            false,
            o.head is Some,
            o.reverse,
            o.follow,
            o.cursor is Some,
            o.json,
            false,
        ) is None ==> tail_plan(o, now) == Ok::<TailRead, Seq<char>>(
            if o.json {
                TailRead::Json(selection_of(o.cursor, o.head, o.lines, None))
            } else {
                TailRead::Plain(selection_of(o.cursor, o.head, o.lines, None))
            },
        ),
        !ids::valid_id(o.id@) ==> tail_plan(o, now) is Err,
        tail_plan(o, now) matches Ok(r) ==> (r is Window <==> o.since is Some || o.until is Some),
        tail_plan(o, now) matches Ok(TailRead::Window(since, until)) ==> (since is Some <==> o.since
            is Some) && (until is Some <==> o.until is Some) && (o.since matches Some(t) ==> Ok::<
            nat,
            Seq<char>,
        >(since->0 as nat) == time_point(t@, now)) && (o.until matches Some(t) ==> Ok::<
            nat,
            Seq<char>,
        >(until->0 as nat) == time_point(t@, now)),
        tail_plan(o, now) matches Ok(TailRead::Plain(Selection::LastBytes(b))) ==> o.bytes is Some
            && byte_count(o.bytes->0@) == Ok::<nat, Seq<char>>(b as nat),
{
    if o.since is Some {
        lemma_time_fits(o.since->0@, now);
    }
    if o.until is Some {
        lemma_time_fits(o.until->0@, now);
    }
}

proof fn lemma_time_fits(t: Seq<char>, now: nat)
    ensures
        now <= u64::MAX ==> (time_point(t, now) matches Ok(n) ==> n <= u64::MAX),
{
}

/// White space around a number of bytes or a time changes nothing.
pub proof fn blanks_around_change_nothing(a: Seq<char>, x: Seq<char>, b: Seq<char>, now: nat)
    requires
        forall|i: int| 0 <= i < a.len() ==> text::is_space(#[trigger] a[i]),
        forall|i: int| 0 <= i < b.len() ==> text::is_space(#[trigger] b[i]),
        x.len() > 0 ==> !text::is_space(x[0]) && !text::is_space(x.last()),
    ensures
        byte_count(a + x + b) == byte_count(x),
        time_point(a + x + b, now) is Ok <==> time_point(x, now) is Ok,
        time_point(x, now) is Ok ==> time_point(a + x + b, now) == time_point(x, now),
{
    let none = Seq::<char>::empty();
    text::trimming_takes_the_blanks_off(a, x, b);
    text::trimming_takes_the_blanks_off(none, x, none);
    assert(none + x + none =~= x);
}

/// A number with any other unit is no time.
pub proof fn other_units_are_no_times(n: u64, unit: Seq<char>, now: nat)
    requires
        unit.len() > 0,
        !text::is_space(unit.last()),
        !('0' <= unit[0] <= '9'),
        !unit.contains(' '),
        !text::is_space(unit[0]),
        unit != "ms"@ && unit != "s"@ && unit != "m"@ && unit != "h"@ && unit != "d"@,
    ensures
        time_point(text::decimal(n as nat) + unit, now) is Err,
{
    let none = Seq::<char>::empty();
    let d = text::decimal(n as nat);
    let s = d + unit;
    text::numbers_and_units_come_apart(none, n as nat, unit, none);
    assert(none + s + none =~= s);
    text::decimal_is_the_shortest_text(n as nat);
    reveal_strlit(" ago");
    reveal_strlit("NOW");
    reveal_strlit("");
    if text::ends_with(s, " ago"@) {
        assert(s.skip(s.len() - 4)[0] == ' ');
        if s.len() - 4 < d.len() {
            assert(s[s.len() - 4] == d[s.len() - 4]);
        } else {
            assert(unit[s.len() - 4 - d.len()] == ' ');
        }
    }
    assert(text::strip_all_suffix(s, " ago"@) == s);
    text::upper_case_changes_small_letters(s);
    assert(s[0] == d[0]);
    assert(text::upper(s)[0] == s[0]);
    assert("NOW"@[0] == 'N');
}

/// A time option that is not given bounds nothing; one that is given bounds at the
/// time it names, and one that cannot be read says so behind its flag.
pub proof fn time_options_bound(flag: Seq<char>, v: Seq<char>, now: nat, n: u64)
    ensures
        time_option(flag, None, now) == Ok::<Option<u64>, Seq<char>>(None),
        time_point(v, now) == Ok::<nat, Seq<char>>(n as nat) ==> time_option(flag, Some(v), now)
            == Ok::<Option<u64>, Seq<char>>(Some(n)),
        time_point(v, now) matches Err(e) ==> time_option(flag, Some(v), now) == Err::<
            Option<u64>,
            Seq<char>,
        >(flag + e),
{
}

/// What is wrong with options that do not go together is said of the first such
/// thing.
pub proof fn conflicts_are_named(
    lines: bool,
    bytes: bool,
    reverse: bool,
    follow: bool,
    json: bool,
)
    ensures
        lines || bytes || reverse || follow ==> flag_conflict(
            lines,
            bytes,
            true,
            reverse,
            follow,
            false,
            json,
            false,
        ) == Some("--head is mutually exclusive with --lines/--bytes/--reverse/--follow"@),
        flag_conflict(lines, bytes, false, true, true, false, json, false) == Some(
            "--reverse and --follow can't combine"@,
        ),
        flag_conflict(false, false, false, true, false, false, json, false) == Some(
            "--reverse requires --lines N or --bytes N (so the slice is bounded)"@,
        ),
        flag_conflict(true, true, false, reverse, false, false, json, false) == Some(
            "--lines and --bytes are mutually exclusive"@,
        ),
        lines != bytes ==> flag_conflict(lines, bytes, false, reverse, false, true, json, false)
            == Some(
            "--cursor / --since-cursor is mutually exclusive with --lines/--bytes/--head/--reverse"@,
        ),
        flag_conflict(false, false, false, false, true, false, true, false) == Some(
            "--json and --follow can't combine (use repeated --cursor reads instead)"@,
        ),
        lines != bytes || follow ==> !(lines && bytes) ==> flag_conflict(
            lines,
            bytes,
            false,
            false,
            follow,
            false,
            false,
            true,
        ) == Some(
            "--since / --until is mutually exclusive with --lines/--bytes/--head/--reverse/--cursor/--follow"@,
        ),
{
}

/// A read of the last bytes is planned for the number that is asked for; options that
/// do not go together, or a number that cannot be read, are refused.
pub proof fn reads_of_bytes_are_planned(o: TailOptions, now: nat)
    requires
        ids::valid_id(o.id@),
        o.since is None,
        o.until is None,
    ensures
        ({
            let conflict = flag_conflict(
                o.lines is Some,
                o.bytes is Some,
                o.head is Some,
                o.reverse,
                o.follow,
                o.cursor is Some,
                o.json,
                false,
            );
            &&& conflict matches Some(e) ==> tail_plan(o, now) == Err::<TailRead, Seq<char>>(
                "tail: "@ + e,
            )
            &&& conflict is None && o.bytes is Some ==> match byte_count(o.bytes->0@) {
                Err(e) => tail_plan(o, now) == Err::<TailRead, Seq<char>>(
                    "tail: --bytes: "@ + e,
                ),
                Ok(n) => tail_plan(o, now) == Ok::<TailRead, Seq<char>>(
                    if o.json {
                        TailRead::Json(Selection::LastBytes(n as u64))
                    } else {
                        TailRead::Plain(Selection::LastBytes(n as u64))
                    },
                ),
            }
        }),
{
}

/// What a read answers: the lines between two times, an envelope, or the bytes that
/// are shown; and why it cannot.
pub proof fn reads_answer_what_was_planned(
    r: Result<TailOutcome, String>,
    o: TailOptions,
    read: TailRead,
    log: Seq<u8>,
)
    requires
        is_outcome(r, o, read, log),
    ensures
        read matches TailRead::Plain(sel) && !(sel matches Selection::Cursor(p) && p > log.len())
            ==> (r matches Ok(TailOutcome::Plain(b)) && b@ == plain_shown(
            read->Plain_0,
            log,
            o.keep_timestamps,
            o.strip_ansi,
            o.reverse,
        )),
        read matches TailRead::Plain(Selection::Cursor(p)) ==> p > log.len() ==> (r matches Err(t)
            && t@ == "tail: cursor "@ + text::decimal(p as nat) + " past EOF ("@ + text::decimal(
            log.len(),
        ) + "); log was rotated or truncated"@),
        read matches TailRead::Json(sel) ==> (r matches Ok(TailOutcome::Json(e)) && is_envelope(
            e,
            sel,
            log,
            o.strip_ansi,
            o.reverse,
        )),
        read matches TailRead::Window(since, until) ==> ({
            let w = window::window_of(lines::finished(log), since, until, o.keep_timestamps);
            &&& w.stamped ==> (r matches Ok(TailOutcome::Window(rep, s, u)) && s == since && u
                == until && rep.lines_emitted == w.count && rep.content@ == pty::strip_choice(
                o.strip_ansi,
                w.bytes,
            ))
            &&& !w.stamped ==> (r matches Err(t) && t@
                == "tail: --since/--until require timestamped logs; spawn with --timestamps (or AGENT_TERM_TIMESTAMPS=1)"@)
        }),
{
    reveal_strlit("tail: ");
    reveal_strlit("cursor ");
    reveal_strlit("tail: cursor ");
    assert("tail: "@ + "cursor "@ =~= "tail: cursor "@);
    if read is Plain && read->Plain_0 is Cursor {
        let p = text::decimal(read->Plain_0->Cursor_0 as nat);
        let n = text::decimal(log.len());
        assert("tail: "@ + ("cursor "@ + p + " past EOF ("@ + n
            + "); log was rotated or truncated"@) =~= "tail: cursor "@ + p + " past EOF ("@ + n
            + "); log was rotated or truncated"@);
    }
    lemma_unstamped();
}

proof fn lemma_unstamped()
    ensures
        "tail: "@ + unstamped_text("--since/--until"@)
            == "tail: --since/--until require timestamped logs; spawn with --timestamps (or AGENT_TERM_TIMESTAMPS=1)"@,
{
    reveal_strlit("tail: ");
    reveal_strlit("--since/--until");
    reveal_strlit(" require timestamped logs; spawn with --timestamps (or AGENT_TERM_TIMESTAMPS=1)");
    reveal_strlit(
        "tail: --since/--until require timestamped logs; spawn with --timestamps (or AGENT_TERM_TIMESTAMPS=1)",
    );
    assert("tail: "@ + unstamped_text("--since/--until"@)
        =~= "tail: --since/--until require timestamped logs; spawn with --timestamps (or AGENT_TERM_TIMESTAMPS=1)"@);
}

/// A number of bytes that cannot be read says why.
pub proof fn unreadable_sizes_say_why(n: u64, unit: Seq<char>)
    requires
        unit.len() > 0,
        !text::is_space(unit[0]),
        !text::is_space(unit.last()),
        !('0' <= unit[0] <= '9'),
    ensures
        byte_count(Seq::empty()) == Err::<nat, Seq<char>>("empty value"@),
        byte_count(unit) == Err::<nat, Seq<char>>(
            "missing number in "@ + text::debug_text(unit),
        ),
        byte_count(text::decimal(n as nat) + unit) is Err && n < 0x2_0000_0000 ==> byte_count(
            text::decimal(n as nat) + unit,
        ) == Err::<nat, Seq<char>>("unknown unit "@ + text::debug_text(unit)),
{
    let none = Seq::<char>::empty();
    let k = n as nat;
    let s = text::decimal(k) + unit;
    assert(text::trimmed(none) == none) by {
        text::trimming_takes_the_blanks_off(none, none, none);
        assert(none + none + none =~= none);
    }
    assert(text::trimmed(unit) == unit) by {
        text::trimming_takes_the_blanks_off(none, unit, none);
        assert(none + unit + none =~= unit);
    }
    text::numbers_and_units_come_apart(none, k, unit, none);
    assert(none + s + none =~= s);
    let factor = byte_unit(without_i(text::upper(unit)));
    if factor is Some && n < 0x2_0000_0000 {
        let m = factor->0;
        assert(k * m <= 0x2_0000_0000 * 1073741824) by (nonlinear_arith)
            requires
                k < 0x2_0000_0000,
                m <= 1073741824,
        ;
    }
}

/// A time that cannot be read says why.
pub proof fn unreadable_times_say_why(t: Seq<char>, now: nat)
    requires
        t.len() > 0,
        !text::is_space(t[0]),
        !text::is_space(t.last()),
        !('0' <= t[0] <= '9'),
        text::upper(t) != "NOW"@,
        t.last() != 'o',
    ensures
        time_point(Seq::empty(), now) == Err::<nat, Seq<char>>("empty time spec"@),
        time_point(t, now) == Err::<nat, Seq<char>>("invalid time spec "@ + text::debug_text(t)),
{
    let none = Seq::<char>::empty();
    assert(text::trimmed(none) == none) by {
        text::trimming_takes_the_blanks_off(none, none, none);
        assert(none + none + none =~= none);
    }
    assert(text::trimmed(t) == t) by {
        text::trimming_takes_the_blanks_off(none, t, none);
        assert(none + t + none =~= t);
    }
    lemma_no_ago(t);
    reveal_strlit(" ago");
    assert(text::strip_all_suffix(none, " ago"@) == none);
}

/// A number of bytes has one of four units, in either case, with or without an `i`.
pub proof fn other_units_are_no_sizes(n: u64, unit: Seq<char>)
    requires
        unit.len() > 0,
        !text::is_space(unit[0]),
        !text::is_space(unit.last()),
        !('0' <= unit[0] <= '9'),
        byte_count(text::decimal(n as nat) + unit) is Ok,
    ensures
        unit.len() <= 2,
        "BKMGI"@.contains(text::upper(unit)[0]),
        unit.len() == 2 ==> text::upper(unit)[1] == 'I' && text::upper(unit)[0] != 'I',
{
    let none = Seq::<char>::empty();
    let s = text::decimal(n as nat) + unit;
    text::numbers_and_units_come_apart(none, n as nat, unit, none);
    assert(none + s + none =~= s);
    let up = text::upper(unit);
    text::upper_case_changes_small_letters(unit);
    reveal_strlit("BKMGI");
    reveal_strlit("");
    reveal_strlit("B");
    reveal_strlit("K");
    reveal_strlit("M");
    reveal_strlit("G");
    reveal_strlit("I");
    let all = "BKMGI"@;
    assert(all[0] == 'B' && all[1] == 'K' && all[2] == 'M' && all[3] == 'G' && all[4] == 'I');
    let bare = without_i(up);
    assert(byte_unit(bare) is Some);
    if text::ends_with(up, "I"@) {
        assert(up.skip(up.len() - 1)[0] == 'I');
        assert(up.last() == 'I');
        assert(bare =~= up.drop_last());
        if bare.len() > 0 {
            assert(bare[0] == up[0]);
        }
    }
}

/// Text without a line end at its end keeps none: of what reversing puts there, only
/// line ends are left out, and all of them.
pub proof fn reversing_leaves_out_only_line_ends(parts: Seq<Seq<u8>>)
    requires
        parts.len() > 0,
        forall|i: int| 0 <= i < parts.len() ==> !(#[trigger] parts[i]).contains(10u8),
        parts.last().len() > 0,
    ensures
        ({
            let back = lines::joined(parts.reverse());
            let r = reversed(lines::joined(parts));
            &&& r.len() <= back.len()
            &&& back.take(r.len() as int) == r
            &&& forall|j: int| r.len() <= j < back.len() ==> #[trigger] back[j] == 10u8
            &&& r.len() == 0 || r.last() != 10u8
        }),
{
    assert forall|i: int| 0 <= i < parts.len() implies lines::newlines(#[trigger] parts[i])
        == 0 by {
        assert forall|j: int| 0 <= j < parts[i].len() implies parts[i][j] != NL by {
            assert(parts[i].contains(parts[i][j]));
        }
        lines::count_none(parts[i], NL);
    }
    lines::joined_cut_back(parts);
    let s = lines::joined(parts);
    lemma_joined_last(parts);
    lines::no_newline_inside(parts.last());
    assert(parts.last() == parts[parts.len() - 1]);
    assert(parts.last().last() == parts.last()[parts.last().len() - 1]);
    assert(s.last() != NL);
    lemma_end_nls(lines::joined(parts.reverse()));
}

proof fn lemma_end_nls(s: Seq<u8>)
    ensures
        without_end_nls(s).len() <= s.len(),
        s.take(without_end_nls(s).len() as int) == without_end_nls(s),
        forall|j: int| without_end_nls(s).len() <= j < s.len() ==> #[trigger] s[j] == NL,
        without_end_nls(s).len() == 0 || without_end_nls(s).last() != NL,
    decreases s.len(),
{
    if s.len() > 0 && s.last() == NL {
        let front = s.drop_last();
        lemma_end_nls(front);
        let n = without_end_nls(s).len() as int;
        assert(s.take(n) =~= front.take(n));
        assert forall|j: int| n <= j < s.len() implies #[trigger] s[j] == NL by {
            if j < front.len() {
                assert(front[j] == s[j]);
            }
        }
    } else {
        assert(s.take(s.len() as int) =~= s);
    }
}

} // verus!
