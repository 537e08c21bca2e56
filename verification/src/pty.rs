//! The log of a child's terminal output: time stamps, rotation, and stripping
//! of terminal escape sequences.

use vstd::prelude::*;
use vstd::slice::slice_subrange;
use vstd::string::*;
use vstd::utf8::*;

use crate::lines;
use crate::lines::{find_from, NL};
use crate::segments;
use crate::segments::FileMove;
use crate::text;
use crate::text::{concat3, decimal_text, digits_value, parse_unsigned, same_text};

verus! {

// ---------------------------------------------------------------------
// The clock
// ---------------------------------------------------------------------

/// A point in time of the system clock.
#[verifier::external_type_specification]
#[verifier::external_body]
pub struct ExSystemTime(std::time::SystemTime);

/// `std::time::SystemTime::now`. Nothing is claimed of the time it reads.
pub assume_specification[ std::time::SystemTime::now ]() -> (t: std::time::SystemTime)
;

/// `std::time::SystemTime::duration_since` the Unix epoch, `None` where the
/// clock stands before it. Nothing is claimed of the distance.
#[verifier::external_body]
fn since_epoch(t: std::time::SystemTime) -> (r: Option<std::time::Duration>) {
    t.duration_since(std::time::UNIX_EPOCH).ok()
}

/// `std::time::Duration::as_millis`. Nothing is claimed of the number.
pub assume_specification[ std::time::Duration::as_millis ](d: &std::time::Duration) -> (ms: u128)
;

/// The wall clock in milliseconds since the Unix epoch. Which time that is
/// rests on the clock alone; what is made of a reading, `reading_ms` says.
pub fn clock_ms() -> (ms: u64) {
    match since_epoch(std::time::SystemTime::now()) {
        Some(d) => reading_ms(Some(d.as_millis())),
        None => reading_ms(None),
    }
}

/// The milliseconds that a reading of the clock stands for: its low sixty-four
/// bits, and zero where the clock stands before the epoch.
pub fn reading_ms(since_epoch: Option<u128>) -> (ms: u64)
    ensures
        ms == match since_epoch {
            Some(n) => n % 0x1_0000_0000_0000_0000,
            None => 0,
        },
{
    match since_epoch {
        Some(n) => {
            assert(n as u64 == n % 0x1_0000_0000_0000_0000) by (bit_vector);
            n as u64
        },
        None => 0,
    }
}

// ---------------------------------------------------------------------
// Time stamps
// ---------------------------------------------------------------------

/// The characters of ASCII bytes.
pub open spec fn ascii(s: Seq<u8>) -> Seq<char> {
    s.map_values(|b: u8| b as char)
}

/// The stamp in front of a line: the milliseconds in square brackets, then a
/// blank.
pub open spec fn ms_prefix_chars(ms: nat) -> Seq<char> {
    seq!['['] + text::decimal(ms) + seq![']', ' ']
}

/// The stamp in front of a line, as bytes.
pub open spec fn ms_prefix_bytes(ms: nat) -> Seq<u8> {
    encode_utf8(ms_prefix_chars(ms))
}

/// The stamp at the start of a line: its milliseconds, and where the line goes
/// on behind it. The blank behind the bracket may be missing.
pub open spec fn ms_prefix_of(line: Seq<u8>) -> Option<(u64, int)> {
    let close = lines::first_at(line, 93u8);
    let digits = ascii(line.subrange(1, close));
    if line.len() > 0 && line[0] == 91u8 && 2 <= close < line.len() && text::all_digits(digits)
        && text::dec_value(digits) <= u64::MAX {
        Some(
            (
                text::dec_value(digits) as u64,
                if close + 1 < line.len() && line[close + 1] == 32u8 {
                    close + 2
                } else {
                    close + 1
                },
            ),
        )
    } else {
        None
    }
}

/// Renders the stamp for a time.
pub fn ms_prefix(ms: u64) -> (r: String)
    ensures
        r@ == ms_prefix_chars(ms as nat),
{
    let d = decimal_text(ms);
    let r = concat3("[", d.as_str(), "] ");
    proof {
        reveal_strlit("[");
        reveal_strlit("] ");
    }
    assert(r@ =~= ms_prefix_chars(ms as nat));
    r
}

/// Renders the stamp for the current time.
pub fn current_ms_prefix() -> (r: String)
    ensures
        exists|ms: u64| r@ == ms_prefix_chars(ms as nat),
{
    let ms: u64 = clock_ms();
    ms_prefix(ms)
}

/// Reads the stamp at the start of a line: its milliseconds, and where the
/// line goes on behind it.
pub fn parse_ms_prefix(line: &[u8]) -> (r: Option<(u64, usize)>)
    ensures
        match ms_prefix_of(line@) {
            Some(p) => r matches Some(q) && q.0 == p.0 && q.1 == p.1 && 3 <= p.1 <= line@.len(),
            None => r is None,
        },
{
    if line.len() == 0 || line[0] != 91 {
        return None;
    }
    let close: usize = find_from(line, 93, 0);
    assert(line@.skip(0) =~= line@);
    if close < 2 || close >= line.len() {
        return None;
    }
    let mut chars: Vec<char> = Vec::new();
    let mut i: usize = 1;
    while i < close
        invariant
            1 <= i <= close < line@.len(),
            chars@ =~= ascii(line@.subrange(1, i as int)),
        decreases close - i,
    {
        chars.push(line[i] as char);
        i += 1;
    }
    let n: usize = chars.len();
    assert(chars@.subrange(0, n as int) =~= chars@);
    match digits_value(&chars, 0, n, u64::MAX) {
        None => None,
        Some(ms) => {
            if close + 1 < line.len() && line[close + 1] == 32 {
                Some((ms, close + 2))
            } else {
                Some((ms, close + 1))
            }
        },
    }
}

/// The bytes of a stamp are its characters, one byte each.
pub proof fn ms_prefix_bytes_shape(ms: nat)
    ensures
        ms_prefix_bytes(ms).len() == text::decimal(ms).len() + 3,
        ms_prefix_bytes(ms)[0] == 91u8,
        forall|i: int|
            0 <= i < text::decimal(ms).len() ==> ms_prefix_bytes(ms)[i + 1] as char
                == #[trigger] text::decimal(ms)[i] && 48 <= ms_prefix_bytes(ms)[i + 1] <= 57,
        ms_prefix_bytes(ms)[text::decimal(ms).len() as int + 1] == 93u8,
        ms_prefix_bytes(ms)[text::decimal(ms).len() as int + 2] == 32u8,
{
    let cs = ms_prefix_chars(ms);
    let d = text::decimal(ms);
    text::decimal_is_digits(ms);
    assert(is_ascii_chars(cs)) by {
        assert forall|i: int| 0 <= i < cs.len() implies (0 <= (#[trigger] cs[i]) as nat && (cs[i] as nat) < 128) by {
            if 1 <= i <= d.len() {
                assert(text::is_digit(d[i - 1]));
            }
        }
    }
    is_ascii_chars_encode_utf8(cs);
    assert forall|i: int| 0 <= i < d.len() implies ms_prefix_bytes(ms)[i + 1] as char
        == #[trigger] d[i] && 48 <= ms_prefix_bytes(ms)[i + 1] <= 57 by {
        assert(text::is_digit(d[i]));
        assert(cs[i + 1] == d[i]);
    }
    assert(cs[0] == '[');
    assert(cs[d.len() as int + 1] == ']');
    assert(cs[d.len() as int + 2] == ' ');
}

/// Reading a stamped line gives back the time of the stamp, and the line
/// behind it.
pub proof fn stamp_reads_back(ms: u64, line: Seq<u8>)
    ensures
        ms_prefix_of(ms_prefix_bytes(ms as nat) + line) == Some(
            (ms, ms_prefix_bytes(ms as nat).len() as int),
        ),
        (ms_prefix_bytes(ms as nat) + line).skip(ms_prefix_bytes(ms as nat).len() as int) == line,
{
    let p = ms_prefix_bytes(ms as nat);
    let d = text::decimal(ms as nat);
    let all = p + line;
    ms_prefix_bytes_shape(ms as nat);
    text::decimal_is_digits(ms as nat);
    let close = d.len() as int + 1;
    assert forall|j: int| 0 <= j < close implies all[j] != 93u8 by {
        if j > 0 {
            assert(text::is_digit(d[j - 1]));
            assert(all[j] == p[(j - 1) + 1]);
        }
    }
    lines::first_at_unique(all, 93u8, close);
    assert(ascii(all.subrange(1, close)) =~= d) by {
        assert forall|i: int| 0 <= i < d.len() implies ascii(all.subrange(1, close))[i] == d[i] by {
            assert(all.subrange(1, close)[i] == p[i + 1]);
        }
    }
    text::decimal_reads_back(ms as nat);
    assert(all.skip(p.len() as int) =~= line);
}

// ---------------------------------------------------------------------
// Escape sequences
// ---------------------------------------------------------------------

/// Where in an escape sequence the stripper stands.
#[derive(Clone, Copy, PartialEq, Eq, Structural)]
pub enum StripState {
    /// Outside of any sequence.
    Normal,
    /// Behind an escape byte.
    AfterEsc,
    /// Inside `ESC [ ...`, up to its final byte.
    Csi,
    /// Inside `ESC ] ...`, up to `BEL` or `ESC \`.
    Osc,
    /// Inside `ESC ] ...`, behind an escape byte.
    OscEscPending,
}

/// Whether a byte ends a control sequence.
pub open spec fn is_csi_final(b: u8) -> bool {
    0x40 <= b <= 0x7e
}

/// The state behind one more byte.
pub open spec fn strip_next(state: StripState, b: u8) -> StripState {
    match state {
        StripState::Normal => if b == 0x1b {
            StripState::AfterEsc
        } else {
            StripState::Normal
        },
        StripState::AfterEsc => if b == 0x5b {
            StripState::Csi
        } else if b == 0x5d {
            StripState::Osc
        } else {
            StripState::Normal
        },
        StripState::Csi => if is_csi_final(b) {
            StripState::Normal
        } else {
            StripState::Csi
        },
        StripState::Osc => if b == 0x07 {
            StripState::Normal
        } else if b == 0x1b {
            StripState::OscEscPending
        } else {
            StripState::Osc
        },
        StripState::OscEscPending => if b == 0x5c {
            StripState::Normal
        } else if b == 0x1b {
            StripState::OscEscPending
        } else {
            StripState::Osc
        },
    }
}

/// The state behind a byte string.
pub open spec fn strip_end(state: StripState, s: Seq<u8>) -> StripState
    decreases s.len(),
{
    if s.len() == 0 {
        state
    } else {
        strip_next(strip_end(state, s.drop_last()), s.last())
    }
}

/// What is left of a byte string: the bytes outside of any sequence.
pub open spec fn stripped(state: StripState, s: Seq<u8>) -> Seq<u8>
    decreases s.len(),
{
    if s.len() == 0 {
        Seq::empty()
    } else {
        let front = stripped(state, s.drop_last());
        if strip_end(state, s.drop_last()) == StripState::Normal && s.last() != 0x1b {
            front.push(s.last())
        } else {
            front
        }
    }
}

/// Strips terminal escape sequences off a stream of bytes that comes in
/// arbitrary chunks: control sequences, operating system commands, and escapes
/// of two bytes.
pub struct AnsiStripper {
    state: StripState,
}

impl Default for AnsiStripper {
    /// A stripper outside of any sequence.
    fn default() -> (r: Self)
        ensures
            r.state() == StripState::Normal,
    {
        AnsiStripper { state: StripState::Normal }
    }
}

impl AnsiStripper {
    /// Where in an escape sequence the stream stands.
    pub closed spec fn state(&self) -> StripState {
        self.state
    }

    /// A stripper outside of any sequence.
    pub fn new() -> (r: Self)
        ensures
            r.state() == StripState::Normal,
    {
        AnsiStripper { state: StripState::Normal }
    }

    /// Takes the next chunk of the stream and appends what is left of it.
    pub fn feed(&mut self, input: &[u8], out: &mut Vec<u8>)
        ensures
            final(self).state() == strip_end(old(self).state(), input@),
            final(out)@ == old(out)@ + stripped(old(self).state(), input@),
    {
        let ghost at = self.state;
        let ghost before = out@;
        let mut i: usize = 0;
        assert(out@ =~= before + stripped(at, input@.take(0)));
        while i < input.len()
            invariant
                i <= input@.len(),
                self.state == strip_end(at, input@.take(i as int)),
                out@ == before + stripped(at, input@.take(i as int)),
            decreases input@.len() - i,
        {
            let b: u8 = input[i];
            let ghost done = input@.take(i + 1);
            assert(done.drop_last() =~= input@.take(i as int));
            assert(done.last() == b);
            match self.state {
                StripState::Normal => {
                    if b == 0x1b {
                        self.state = StripState::AfterEsc;
                    } else {
                        out.push(b);
                    }
                },
                StripState::AfterEsc => {
                    if b == 0x5b {
                        self.state = StripState::Csi;
                    } else if b == 0x5d {
                        self.state = StripState::Osc;
                    } else {
                        self.state = StripState::Normal;
                    }
                },
                StripState::Csi => {
                    if 0x40 <= b && b <= 0x7e {
                        self.state = StripState::Normal;
                    }
                },
                StripState::Osc => {
                    if b == 0x07 {
                        self.state = StripState::Normal;
                    } else if b == 0x1b {
                        self.state = StripState::OscEscPending;
                    }
                },
                StripState::OscEscPending => {
                    if b == 0x5c {
                        self.state = StripState::Normal;
                    } else if b != 0x1b {
                        self.state = StripState::Osc;
                    }
                },
            }
            assert(out@ =~= before + stripped(at, done));
            i += 1;
        }
        assert(input@.take(input@.len() as int) =~= input@);
    }
}

/// What is left of a byte string that starts outside of any sequence.
pub fn strip_ansi(input: &[u8]) -> (r: Vec<u8>)
    ensures
        r@ == stripped(StripState::Normal, input@),
{
    let mut out: Vec<u8> = Vec::new();
    let mut s = AnsiStripper::new();
    s.feed(input, &mut out);
    assert(out@ =~= stripped(StripState::Normal, input@));
    out
}

/// Strips a byte string if asked to.
pub fn strip_if(strip: bool, input: Vec<u8>) -> (r: Vec<u8>)
    ensures
        r@ == strip_choice(strip, input@),
{
    if strip {
        strip_ansi(input.as_slice())
    } else {
        input
    }
}

/// A byte string, stripped if asked to.
pub open spec fn strip_choice(strip: bool, s: Seq<u8>) -> Seq<u8> {
    if strip {
        stripped(StripState::Normal, s)
    } else {
        s
    }
}

/// Stripping does not depend on where a stream is cut into chunks.
pub proof fn strip_is_chunk_independent(state: StripState, a: Seq<u8>, b: Seq<u8>)
    ensures
        strip_end(state, a + b) == strip_end(strip_end(state, a), b),
        stripped(state, a + b) == stripped(state, a) + stripped(strip_end(state, a), b),
    decreases b.len(),
{
    if b.len() == 0 {
        assert(a + b =~= a);
        assert(stripped(state, a) + Seq::<u8>::empty() =~= stripped(state, a));
    } else {
        strip_is_chunk_independent(state, a, b.drop_last());
        assert((a + b).drop_last() =~= a + b.drop_last());
        assert((a + b).last() == b.last());
        assert(stripped(state, a + b) =~= stripped(state, a) + stripped(strip_end(state, a), b));
    }
}

/// Text without an escape byte passes through unchanged.
pub proof fn strip_keeps_plain_text(s: Seq<u8>)
    requires
        forall|i: int| 0 <= i < s.len() ==> s[i] != 0x1b,
    ensures
        stripped(StripState::Normal, s) == s,
        strip_end(StripState::Normal, s) == StripState::Normal,
    decreases s.len(),
{
    if s.len() > 0 {
        let front = s.drop_last();
        assert forall|i: int| 0 <= i < front.len() implies front[i] != 0x1b by {
            assert(front[i] == s[i]);
        }
        strip_keeps_plain_text(front);
        assert(s.last() == s[s.len() - 1]);
        assert(stripped(StripState::Normal, s) =~= s);
    } else {
        assert(stripped(StripState::Normal, s) =~= s);
    }
}

/// What is left holds no escape byte, and is never longer than the input.
pub proof fn strip_leaves_no_escape(state: StripState, s: Seq<u8>)
    ensures
        forall|i: int| 0 <= i < stripped(state, s).len() ==> stripped(state, s)[i] != 0x1b,
        stripped(state, s).len() <= s.len(),
    decreases s.len(),
{
    if s.len() > 0 {
        strip_leaves_no_escape(state, s.drop_last());
    }
}

/// Stripping what is already stripped changes nothing.
pub proof fn strip_is_idempotent(s: Seq<u8>)
    ensures
        stripped(StripState::Normal, stripped(StripState::Normal, s)) == stripped(
            StripState::Normal,
            s,
        ),
{
    strip_leaves_no_escape(StripState::Normal, s);
    strip_keeps_plain_text(stripped(StripState::Normal, s));
}

/// Inside a sequence, a body that does not end it leaves nothing.
proof fn lemma_inside(state: StripState, body: Seq<u8>)
    requires
        state == StripState::Csi ==> forall|i: int|
            0 <= i < body.len() ==> !is_csi_final(#[trigger] body[i]),
        state == StripState::Osc ==> forall|i: int|
            0 <= i < body.len() ==> #[trigger] body[i] != 0x07 && body[i] != 0x1b,
        state == StripState::Csi || state == StripState::Osc,
    ensures
        strip_end(state, body) == state,
        stripped(state, body).len() == 0,
    decreases body.len(),
{
    if body.len() > 0 {
        assert forall|i: int| 0 <= i < body.len() - 1 implies body.drop_last()[i] == body[i] by {}
        lemma_inside(state, body.drop_last());
        assert(body.last() == body[body.len() - 1]);
    }
}

/// A control sequence, `ESC [`, a body and a final byte, leaves nothing.
pub proof fn strip_removes_control_sequence(body: Seq<u8>, last: u8)
    requires
        forall|i: int| 0 <= i < body.len() ==> !is_csi_final(#[trigger] body[i]),
        is_csi_final(last),
    ensures
        stripped(StripState::Normal, seq![0x1bu8, 0x5bu8] + body + seq![last]).len() == 0,
        strip_end(StripState::Normal, seq![0x1bu8, 0x5bu8] + body + seq![last])
            == StripState::Normal,
{
    lemma_inside(StripState::Csi, body);
    lemma_strip_two(StripState::Normal, 0x1b, 0x5b);
    lemma_strip_one(StripState::Csi, last);
    strip_is_chunk_independent(StripState::Normal, seq![0x1bu8, 0x5bu8], body);
    strip_is_chunk_independent(StripState::Normal, seq![0x1bu8, 0x5bu8] + body, seq![last]);
}

/// An operating system command, `ESC ]`, a body and `BEL`, leaves nothing.
pub proof fn strip_removes_command_ended_by_bel(body: Seq<u8>)
    requires
        forall|i: int| 0 <= i < body.len() ==> #[trigger] body[i] != 0x07 && body[i] != 0x1b,
    ensures
        stripped(StripState::Normal, seq![0x1bu8, 0x5du8] + body + seq![0x07u8]).len() == 0,
        strip_end(StripState::Normal, seq![0x1bu8, 0x5du8] + body + seq![0x07u8])
            == StripState::Normal,
{
    lemma_inside(StripState::Osc, body);
    lemma_strip_two(StripState::Normal, 0x1b, 0x5d);
    lemma_strip_one(StripState::Osc, 0x07);
    strip_is_chunk_independent(StripState::Normal, seq![0x1bu8, 0x5du8], body);
    strip_is_chunk_independent(StripState::Normal, seq![0x1bu8, 0x5du8] + body, seq![0x07u8]);
}

/// An operating system command, `ESC ]`, a body and `ESC \`, leaves nothing.
pub proof fn strip_removes_command_ended_by_st(body: Seq<u8>)
    requires
        forall|i: int| 0 <= i < body.len() ==> #[trigger] body[i] != 0x07 && body[i] != 0x1b,
    ensures
        stripped(StripState::Normal, seq![0x1bu8, 0x5du8] + body + seq![0x1bu8, 0x5cu8]).len() == 0,
        strip_end(StripState::Normal, seq![0x1bu8, 0x5du8] + body + seq![0x1bu8, 0x5cu8])
            == StripState::Normal,
{
    lemma_inside(StripState::Osc, body);
    lemma_strip_two(StripState::Normal, 0x1b, 0x5d);
    lemma_strip_two(StripState::Osc, 0x1b, 0x5c);
    strip_is_chunk_independent(StripState::Normal, seq![0x1bu8, 0x5du8], body);
    strip_is_chunk_independent(
        StripState::Normal,
        seq![0x1bu8, 0x5du8] + body,
        seq![0x1bu8, 0x5cu8],
    );
}

/// An escape of two bytes leaves nothing.
pub proof fn strip_removes_two_byte_escape(b: u8)
    requires
        b != 0x5b,
        b != 0x5d,
    ensures
        stripped(StripState::Normal, seq![0x1bu8, b]).len() == 0,
        strip_end(StripState::Normal, seq![0x1bu8, b]) == StripState::Normal,
{
    lemma_strip_two(StripState::Normal, 0x1b, b);
}

proof fn lemma_strip_one(state: StripState, b: u8)
    ensures
        strip_end(state, seq![b]) == strip_next(state, b),
        stripped(state, seq![b]).len() == if state == StripState::Normal && b != 0x1b {
            1nat
        } else {
            0nat
        },
{
    assert(seq![b].drop_last() =~= Seq::<u8>::empty());
    reveal_with_fuel(strip_end, 2);
    reveal_with_fuel(stripped, 2);
}

proof fn lemma_strip_two(state: StripState, a: u8, b: u8)
    ensures
        strip_end(state, seq![a, b]) == strip_next(strip_next(state, a), b),
        stripped(state, seq![a, b]).len() == (if state == StripState::Normal && a != 0x1b {
            1nat
        } else {
            0nat
        }) + (if strip_next(state, a) == StripState::Normal && b != 0x1b {
            1nat
        } else {
            0nat
        }),
{
    lemma_strip_one(state, a);
    lemma_strip_one(strip_next(state, a), b);
    assert(seq![a, b] =~= seq![a] + seq![b]);
    strip_is_chunk_independent(state, seq![a], seq![b]);
}

// ---------------------------------------------------------------------
// Settings
// ---------------------------------------------------------------------

/// The size at which a log file is rotated, where nothing else is set.
pub const DEFAULT_LOG_SIZE: u64 = 10485760;

/// How many rotated segments are kept, where nothing else is set.
pub const DEFAULT_LOG_SEGMENTS: usize = 3;

/// The number that a setting holds, or a default where it is missing or is no
/// number of at most `max`.
pub open spec fn setting(value: Option<Seq<char>>, max: nat, default: nat) -> nat {
    match value {
        Some(v) => match text::unsigned_text(v, max) {
            Some(n) => n,
            None => default,
        },
        None => default,
    }
}

/// The characters of an optional string.
pub open spec fn opt_chars(value: Option<&str>) -> Option<Seq<char>> {
    match value {
        Some(v) => Some(v@),
        None => None,
    }
}

/// The rotation size out of the value of its setting. Zero turns rotation off.
pub fn log_size_from_env(value: Option<&str>) -> (r: u64)
    ensures
        r == setting(opt_chars(value), u64::MAX as nat, DEFAULT_LOG_SIZE as nat),
{
    match value {
        Some(v) => match parse_unsigned(v, u64::MAX) {
            Some(n) => n,
            None => DEFAULT_LOG_SIZE,
        },
        None => DEFAULT_LOG_SIZE,
    }
}

/// The number of segments out of the value of its setting.
pub fn log_segments_from_env(value: Option<&str>) -> (r: usize)
    ensures
        r == setting(opt_chars(value), usize::MAX as nat, DEFAULT_LOG_SEGMENTS as nat),
{
    match value {
        Some(v) => match parse_unsigned(v, usize::MAX as u64) {
            Some(n) => n as usize,
            None => DEFAULT_LOG_SEGMENTS,
        },
        None => DEFAULT_LOG_SEGMENTS,
    }
}

/// Whether lines are stamped, out of the value of the setting.
pub fn timestamps_from_env(value: Option<&str>) -> (r: bool)
    ensures
        r == (opt_chars(value) == Some("1"@)),
{
    match value {
        Some(v) => same_text(v, "1"),
        None => false,
    }
}

// ---------------------------------------------------------------------
// Writing a rotating log
// ---------------------------------------------------------------------

/// One thing to do to the log files.
pub enum LogOp {
    /// Append these bytes to the current file.
    Append(Vec<u8>),
    /// Rotate the files, so that the current one is empty again.
    Rotate,
    /// Remember whether the next byte starts a line.
    Line(bool),
}

/// What a `LogOp` holds.
pub enum LogStep {
    Append(Seq<u8>),
    Rotate,
    Line(bool),
}

impl View for LogOp {
    type V = LogStep;

    open spec fn view(&self) -> LogStep {
        match *self {
            LogOp::Append(b) => LogStep::Append(b@),
            LogOp::Rotate => LogStep::Rotate,
            LogOp::Line(b) => LogStep::Line(b),
        }
    }
}

/// What a list of operations holds.
pub open spec fn steps_of(ops: Seq<LogOp>) -> Seq<LogStep> {
    ops.map_values(|op: LogOp| op@)
}

/// The limits of a rotating log.
pub struct Limits {
    pub max_size: nat,
    pub max_segments: nat,
}

impl Limits {
    /// Whether files are rotated at all.
    pub open spec fn rotating(self) -> bool {
        self.max_size > 0 && self.max_segments > 0
    }
}

/// How many bytes go to the current file before it is full.
pub open spec fn fits(limits: Limits, written: nat, len: nat) -> nat {
    if written + len <= limits.max_size {
        len
    } else {
        (limits.max_size - written) as nat
    }
}

/// The steps that write bytes to a current file of `written` bytes: it is
/// filled up to the limit, rotated once it is full, and so on.
pub open spec fn raw_steps(limits: Limits, written: nat, s: Seq<u8>) -> Seq<LogStep>
    decreases
            s.len(),
            (if written >= limits.max_size {
                1int
            } else {
                0int
            }),
{
    if s.len() == 0 {
        Seq::empty()
    } else if !limits.rotating() {
        seq![LogStep::Append(s)]
    } else if written >= limits.max_size {
        seq![LogStep::Rotate] + raw_steps(limits, 0, s)
    } else {
        let n = fits(limits, written, s.len());
        let front = seq![LogStep::Append(s.take(n as int))];
        if written + n >= limits.max_size {
            front + seq![LogStep::Rotate] + raw_steps(limits, 0, s.skip(n as int))
        } else {
            front + raw_steps(limits, written + n, s.skip(n as int))
        }
    }
}

/// The size of the current file behind those steps, where files are rotated.
pub open spec fn raw_end(limits: Limits, written: nat, s: Seq<u8>) -> nat
    decreases
            s.len(),
            (if written >= limits.max_size {
                1int
            } else {
                0int
            }),
{
    if s.len() == 0 || !limits.rotating() {
        written
    } else if written >= limits.max_size {
        raw_end(limits, 0, s)
    } else {
        let n = fits(limits, written, s.len());
        if written + n >= limits.max_size {
            raw_end(limits, 0, s.skip(n as int))
        } else {
            raw_end(limits, written + n, s.skip(n as int))
        }
    }
}

/// How long the first line of a byte string is, line feed included.
pub open spec fn line_len(s: Seq<u8>) -> int {
    let k = lines::first_at(s, NL);
    if k < s.len() {
        k + 1
    } else {
        s.len() as int
    }
}

/// Whether the next byte starts a line.
pub open spec fn line_start_after(at_line_start: bool, s: Seq<u8>) -> bool {
    if s.len() == 0 {
        at_line_start
    } else {
        s.last() == NL
    }
}

/// How many lines start in a byte string.
pub open spec fn starts_in(at_line_start: bool, s: Seq<u8>) -> nat
    decreases s.len(),
{
    if s.len() == 0 {
        0
    } else {
        let n = line_len(s);
        (if at_line_start {
            1nat
        } else {
            0nat
        }) + if 0 < n <= s.len() {
            starts_in(true, s.skip(n))
        } else {
            0
        }
    }
}

/// A byte string with a stamp in front of each line that starts in it.
pub open spec fn stamped(at_line_start: bool, s: Seq<u8>, stamps: Seq<u64>) -> Seq<u8>
    decreases s.len(),
{
    if s.len() == 0 {
        Seq::empty()
    } else {
        let n = line_len(s);
        let stamp = if at_line_start {
            ms_prefix_bytes(stamps[0] as nat)
        } else {
            Seq::empty()
        };
        let left = if at_line_start {
            stamps.skip(1)
        } else {
            stamps
        };
        if 0 < n <= s.len() {
            stamp + s.take(n) + stamped(true, s.skip(n), left)
        } else {
            stamp
        }
    }
}

/// The steps that write a byte string with stamps: each stamp and each line is
/// written on its own, and it is remembered where a line starts.
pub open spec fn stamped_steps(
    limits: Limits,
    written: nat,
    at_line_start: bool,
    s: Seq<u8>,
    stamps: Seq<u64>,
) -> Seq<LogStep>
    decreases s.len(),
{
    let n = line_len(s);
    if s.len() == 0 || !(0 < n <= s.len()) {
        Seq::empty()
    } else {
        let stamp = ms_prefix_bytes(stamps[0] as nat);
        let head = if at_line_start {
            raw_steps(limits, written, stamp).push(LogStep::Line(false))
        } else {
            Seq::empty()
        };
        let w = if at_line_start {
            raw_end(limits, written, stamp)
        } else {
            written
        };
        let left = if at_line_start {
            stamps.skip(1)
        } else {
            stamps
        };
        let line = s.take(n);
        let body = if line.last() == NL {
            raw_steps(limits, w, line).push(LogStep::Line(true))
        } else {
            raw_steps(limits, w, line)
        };
        head + body + stamped_steps(limits, raw_end(limits, w, line), true, s.skip(n), left)
    }
}

/// The steps that write a byte string.
pub open spec fn write_steps(
    limits: Limits,
    written: nat,
    timestamps: bool,
    at_line_start: bool,
    s: Seq<u8>,
    stamps: Seq<u64>,
) -> Seq<LogStep> {
    if timestamps {
        stamped_steps(limits, written, at_line_start, s, stamps)
    } else {
        raw_steps(limits, written, s)
    }
}

/// The first line of a byte string is not empty, and only its last byte can be
/// a line feed.
pub(crate) proof fn lemma_line_len(s: Seq<u8>)
    requires
        s.len() > 0,
    ensures
        0 < line_len(s) <= s.len(),
        forall|j: int| 0 <= j < line_len(s) - 1 ==> s[j] != NL,
        s[line_len(s) - 1] == NL <==> lines::first_at(s, NL) < s.len(),
        s[line_len(s) - 1] != NL ==> line_len(s) == s.len(),
        s.take(line_len(s)).last() == s[line_len(s) - 1],
{
    lines::first_at_is_first(s, NL);
}

/// Append-only writer of a log that is rotated once a file reaches `max_size`
/// bytes: the current file becomes segment 1, segment 1 becomes segment 2, and
/// so on, and what was segment `max_segments` is dropped. With either limit at
/// zero nothing is ever rotated.
///
/// With `timestamps` each line gets a stamp in front, exactly once, however the
/// stream is cut into writes.
///
/// The writer decides what is to be done to the files; whoever holds them does
/// it and reports each operation back with `commit`.
pub struct LogWriter {
    path: String,
    written: u64,
    max_size: u64,
    max_segments: usize,
    timestamps: bool,
    at_line_start: bool,
}

impl LogWriter {
    /// The path of the current file.
    pub closed spec fn path(&self) -> Seq<char> {
        self.path@
    }

    /// The size of the current file.
    pub closed spec fn written(&self) -> u64 {
        self.written
    }

    /// The limits at which files are rotated and dropped.
    pub closed spec fn limits(&self) -> Limits {
        Limits { max_size: self.max_size as nat, max_segments: self.max_segments as nat }
    }

    /// Whether lines are stamped.
    pub closed spec fn timestamps(&self) -> bool {
        self.timestamps
    }

    /// Whether the next byte starts a line.
    pub closed spec fn at_line_start(&self) -> bool {
        self.at_line_start
    }

    /// A writer that goes on with a file of `written` bytes whose last byte is
    /// `last_byte`. An unfinished line goes on without a stamp.
    pub fn open_with(
        path: String,
        written: u64,
        last_byte: Option<u8>,
        max_size: u64,
        max_segments: usize,
        timestamps: bool,
    ) -> (r: Self)
        ensures
            r.path() == path@,
            r.written() == written,
            r.limits() == (Limits {
                max_size: max_size as nat,
                max_segments: max_segments as nat,
            }),
            r.timestamps() == timestamps,
            r.at_line_start() == (written == 0 || last_byte == Some(NL)),
    {
        let at_line_start = written == 0 || match last_byte {
            Some(b) => b == NL,
            None => false,
        };
        LogWriter { path, written, max_size, max_segments, timestamps, at_line_start }
    }

    /// Appends the operations that write `s` to a current file of `written`
    /// bytes, and gives its size behind them.
    pub fn write_raw(&self, written: u64, s: &[u8], out: &mut Vec<LogOp>) -> (r: u64)
        ensures
            steps_of(final(out)@) == steps_of(old(out)@) + raw_steps(
                self.limits(),
                written as nat,
                s@,
            ),
            r == raw_end(self.limits(), written as nat, s@),
    {
        let ghost limits = self.limits();
        let ghost before = steps_of(out@);
        if s.len() == 0 {
            assert(before + Seq::<LogStep>::empty() =~= before);
            return written;
        }
        if self.max_size == 0 || self.max_segments == 0 {
            let ghost ops = out@;
            out.push(LogOp::Append(vstd::slice::slice_to_vec(s)));
            assert(steps_of(out@) =~= steps_of(ops).push(LogStep::Append(s@)));
            assert(steps_of(out@) =~= before + seq![LogStep::Append(s@)]);
            return written;
        }
        let mut start: usize = 0;
        let mut w: u64 = written;
        assert(s@.skip(0) =~= s@);
        while start < s.len()
            invariant
                start <= s@.len(),
                limits == self.limits(),
                limits.rotating(),
                before + raw_steps(limits, written as nat, s@) == steps_of(out@) + raw_steps(
                    limits,
                    w as nat,
                    s@.skip(start as int),
                ),
                raw_end(limits, written as nat, s@) == raw_end(
                    limits,
                    w as nat,
                    s@.skip(start as int),
                ),
            decreases s@.len() - start, (if w >= self.max_size { 1int } else { 0int }),
        {
            let ghost ops = out@;
            let ghost rest = s@.skip(start as int);
            if w >= self.max_size {
                out.push(LogOp::Rotate);
                assert(steps_of(out@) =~= steps_of(ops).push(LogStep::Rotate));
                assert(steps_of(out@) + raw_steps(limits, 0, rest) =~= steps_of(ops) + raw_steps(
                    limits,
                    w as nat,
                    rest,
                ));
                w = 0;
                continue;
            }
            let room: u64 = self.max_size - w;
            let left: usize = s.len() - start;
            let n: usize = if left as u64 <= room {
                left
            } else {
                room as usize
            };
            assert(n == fits(limits, w as nat, rest.len()));
            let chunk = slice_subrange(s, start, start + n);
            assert(chunk@ =~= rest.take(n as int));
            assert(rest.skip(n as int) =~= s@.skip(start + n));
            out.push(LogOp::Append(vstd::slice::slice_to_vec(chunk)));
            assert(steps_of(out@) =~= steps_of(ops).push(LogStep::Append(chunk@)));
            let ghost mid = out@;
            w = w + n as u64;
            start = start + n;
            if w >= self.max_size {
                out.push(LogOp::Rotate);
                assert(steps_of(out@) =~= steps_of(mid).push(LogStep::Rotate));
                w = 0;
            }
            assert(steps_of(out@) + raw_steps(limits, w as nat, s@.skip(start as int))
                =~= before + raw_steps(limits, written as nat, s@));
        }
        assert(s@.skip(start as int).len() == 0);
        assert(steps_of(out@) + Seq::<LogStep>::empty() =~= steps_of(out@));
        w
    }

    /// How many stamps writing `buf` takes.
    pub fn stamps_needed(&self, buf: &[u8]) -> (r: usize)
        ensures
            r == if self.timestamps() {
                starts_in(self.at_line_start(), buf@)
            } else {
                0
            },
    {
        if !self.timestamps {
            return 0;
        }
        let mut n: usize = 0;
        let mut start: usize = 0;
        let mut at = self.at_line_start;
        assert(buf@.skip(0) =~= buf@);
        while start < buf.len()
            invariant
                start <= buf@.len(),
                n <= start,
                n + starts_in(at, buf@.skip(start as int)) == starts_in(self.at_line_start, buf@),
            decreases buf@.len() - start,
        {
            let ghost rest = buf@.skip(start as int);
            proof {
                lemma_line_len(rest);
            }
            let end: usize = find_from(buf, NL, start);
            let next: usize = if end < buf.len() {
                end + 1
            } else {
                end
            };
            assert(next - start == line_len(rest));
            assert(rest.skip(line_len(rest)) =~= buf@.skip(next as int));
            if at {
                n += 1;
            }
            at = true;
            start = next;
        }
        n
    }

    /// The operations that write `buf`, with the given stamps in front of the
    /// lines that start in it.
    pub fn write_stamped(&self, buf: &[u8], stamps: &[u64]) -> (r: Vec<LogOp>)
        requires
            self.timestamps() ==> starts_in(self.at_line_start(), buf@) <= stamps@.len(),
        ensures
            steps_of(r@) == write_steps(
                self.limits(),
                self.written() as nat,
                self.timestamps(),
                self.at_line_start(),
                buf@,
                stamps@,
            ),
    {
        let mut out: Vec<LogOp> = Vec::new();
        let ghost limits = self.limits();
        assert(steps_of(out@) =~= Seq::empty());
        if !self.timestamps {
            self.write_raw(self.written, buf, &mut out);
            assert(steps_of(out@) =~= raw_steps(limits, self.written as nat, buf@));
            return out;
        }
        let ghost want = stamped_steps(
            limits,
            self.written as nat,
            self.at_line_start,
            buf@,
            stamps@,
        );
        let mut w: u64 = self.written;
        let mut at = self.at_line_start;
        let mut start: usize = 0;
        let mut used: usize = 0;
        assert(buf@.skip(0) =~= buf@);
        assert(stamps@.skip(0) =~= stamps@);
        assert(steps_of(out@) + want =~= want);
        while start < buf.len()
            invariant
                start <= buf@.len(),
                used <= stamps@.len(),
                limits == self.limits(),
                starts_in(at, buf@.skip(start as int)) <= stamps@.len() - used,
                want == steps_of(out@) + stamped_steps(
                    limits,
                    w as nat,
                    at,
                    buf@.skip(start as int),
                    stamps@.skip(used as int),
                ),
            decreases buf@.len() - start,
        {
            let ghost rest = buf@.skip(start as int);
            let ghost left = stamps@.skip(used as int);
            let ghost ops0 = steps_of(out@);
            let ghost w0 = w as nat;
            let ghost at0 = at;
            proof {
                lemma_line_len(rest);
            }
            let ghost stamp = ms_prefix_bytes(left[0] as nat);
            if at {
                let prefix = ms_prefix(stamps[used]);
                assert(left[0] == stamps@[used as int]);
                w = self.write_raw(w, prefix.as_str().as_bytes(), &mut out);
                let ghost ops = out@;
                out.push(LogOp::Line(false));
                assert(steps_of(out@) =~= steps_of(ops).push(LogStep::Line(false)));
                assert(left.skip(1) =~= stamps@.skip(used + 1));
                used += 1;
            }
            let ghost head = if at0 {
                raw_steps(limits, w0, stamp).push(LogStep::Line(false))
            } else {
                Seq::empty()
            };
            let ghost w1 = w as nat;
            assert(steps_of(out@) =~= ops0 + head);
            let end: usize = find_from(buf, NL, start);
            let next: usize = if end < buf.len() {
                end + 1
            } else {
                end
            };
            assert(next - start == line_len(rest));
            let line = slice_subrange(buf, start, next);
            assert(line@ =~= rest.take(line_len(rest)));
            assert(rest.skip(line_len(rest)) =~= buf@.skip(next as int));
            w = self.write_raw(w, line, &mut out);
            if end < buf.len() {
                let ghost ops = out@;
                out.push(LogOp::Line(true));
                assert(steps_of(out@) =~= steps_of(ops).push(LogStep::Line(true)));
                assert(line@.last() == NL);
            } else {
                assert(line@.last() != NL);
            }
            let ghost body = if line@.last() == NL {
                raw_steps(limits, w1, line@).push(LogStep::Line(true))
            } else {
                raw_steps(limits, w1, line@)
            };
            assert(steps_of(out@) =~= ops0 + head + body);
            at = true;
            start = next;
            let ghost more = stamped_steps(
                limits,
                w as nat,
                true,
                buf@.skip(start as int),
                stamps@.skip(used as int),
            );
            assert(stamped_steps(limits, w0, at0, rest, left) == head + body + more);
            assert(want =~= steps_of(out@) + more);
        }
        assert(steps_of(out@) =~= want);
        out
    }

    /// The operations that write `buf`. Stamps show the time of this call.
    pub fn write_all(&self, buf: &[u8]) -> (r: Vec<LogOp>)
        ensures
            exists|stamps: Seq<u64>|
                (self.timestamps() ==> stamps.len() == starts_in(self.at_line_start(), buf@))
                    && steps_of(r@) == #[trigger] write_steps(
                    self.limits(),
                    self.written() as nat,
                    self.timestamps(),
                    self.at_line_start(),
                    buf@,
                    stamps,
                ),
    {
        let n: usize = self.stamps_needed(buf);
        let mut stamps: Vec<u64> = Vec::new();
        while stamps.len() < n
            invariant
                stamps.len() <= n,
            decreases n - stamps.len(),
        {
            stamps.push(clock_ms());
        }
        self.write_stamped(buf, stamps.as_slice())
    }

    /// The moves of a rotation, to be done in order for each `LogOp::Rotate`.
    pub fn rotate(&self) -> (r: Vec<FileMove>)
        requires
            self.limits().rotating(),
        ensures
            segments::moves_of(r@) == segments::rotate_steps(
                self.path(),
                self.limits().max_segments,
            ),
    {
        segments::rotation(self.path.as_str(), self.max_segments)
    }

    /// Records that an operation is done.
    pub fn commit(&mut self, op: &LogOp)
        ensures
            final(self).path() == old(self).path(),
            final(self).limits() == old(self).limits(),
            final(self).timestamps() == old(self).timestamps(),
            final(self).written() == written_after(old(self).written(), op@),
            final(self).at_line_start() == line_after(old(self).at_line_start(), op@),
    {
        match op {
            LogOp::Append(b) => {
                let n: u64 = b.len() as u64;
                self.written = self.written.wrapping_add(n);
            },
            LogOp::Rotate => {
                self.written = 0;
            },
            LogOp::Line(b) => {
                self.at_line_start = *b;
            },
        }
    }
}

/// The size of the current file behind a step, as a number that wraps around.
pub open spec fn written_after(written: u64, step: LogStep) -> u64 {
    match step {
        LogStep::Append(b) => if written + b.len() > u64::MAX {
            (written + b.len() - u64::MAX - 1) as u64
        } else {
            (written + b.len()) as u64
        },
        LogStep::Rotate => 0,
        LogStep::Line(_) => written,
    }
}

/// Whether the next byte starts a line, behind a step.
pub open spec fn line_after(at_line_start: bool, step: LogStep) -> bool {
    match step {
        LogStep::Line(b) => b,
        _ => at_line_start,
    }
}

// ---------------------------------------------------------------------
// Laws
// ---------------------------------------------------------------------

proof fn lemma_plain_around(a: Seq<u8>, mid: Seq<u8>, b: Seq<u8>)
    requires
        forall|i: int| 0 <= i < a.len() ==> a[i] != 0x1b,
        forall|i: int| 0 <= i < b.len() ==> b[i] != 0x1b,
        stripped(StripState::Normal, mid).len() == 0,
        strip_end(StripState::Normal, mid) == StripState::Normal,
    ensures
        stripped(StripState::Normal, a + mid + b) == a + b,
{
    strip_keeps_plain_text(a);
    strip_keeps_plain_text(b);
    strip_is_chunk_independent(StripState::Normal, a, mid);
    strip_is_chunk_independent(StripState::Normal, a + mid, b);
    assert(a + Seq::<u8>::empty() =~= a);
    assert(stripped(StripState::Normal, mid) =~= Seq::<u8>::empty());
}

/// A control sequence in a text, `ESC [`, parameters and a final byte between `@`
/// and `~`, is taken out, and the text around it stays as it is.
pub proof fn colour_codes_are_taken_out(a: Seq<u8>, params: Seq<u8>, last: u8, b: Seq<u8>)
    requires
        forall|i: int| 0 <= i < a.len() ==> a[i] != 0x1b,
        forall|i: int| 0 <= i < b.len() ==> b[i] != 0x1b,
        forall|i: int| 0 <= i < params.len() ==> !(0x40 <= #[trigger] params[i] <= 0x7e),
        0x40 <= last <= 0x7e,
    ensures
        strip_choice(true, a + (seq![0x1bu8, 0x5bu8] + params + seq![last]) + b) == a + b,
        strip_choice(true, a) == a,
        strip_choice(false, params) == params,
{
    assert forall|i: int| 0 <= i < params.len() implies !is_csi_final(#[trigger] params[i]) by {
        assert(!(0x40 <= params[i] <= 0x7e));
    }
    strip_removes_control_sequence(params, last);
    strip_keeps_plain_text(a);
    lemma_plain_around(a, seq![0x1bu8, 0x5bu8] + params + seq![last], b);
}

/// A command in a text, `ESC ]`, a body, and `BEL` or `ESC \`, is taken out, and so
/// is an escape of two bytes; the text around them stays as it is.
pub proof fn commands_are_taken_out(a: Seq<u8>, body: Seq<u8>, x: u8, b: Seq<u8>)
    requires
        forall|i: int| 0 <= i < a.len() ==> a[i] != 0x1b,
        forall|i: int| 0 <= i < b.len() ==> b[i] != 0x1b,
        forall|i: int| 0 <= i < body.len() ==> #[trigger] body[i] != 0x07 && body[i] != 0x1b,
        x != 0x5b && x != 0x5d,
    ensures
        strip_choice(true, a + (seq![0x1bu8, 0x5du8] + body + seq![0x07u8]) + b) == a + b,
        strip_choice(true, a + (seq![0x1bu8, 0x5du8] + body + seq![0x1bu8, 0x5cu8]) + b) == a + b,
        strip_choice(true, a + seq![0x1bu8, x] + b) == a + b,
{
    strip_removes_command_ended_by_bel(body);
    strip_removes_command_ended_by_st(body);
    strip_removes_two_byte_escape(x);
    lemma_plain_around(a, seq![0x1bu8, 0x5du8] + body + seq![0x07u8], b);
    lemma_plain_around(a, seq![0x1bu8, 0x5du8] + body + seq![0x1bu8, 0x5cu8], b);
    lemma_plain_around(a, seq![0x1bu8, x], b);
}

/// An escape inside of a command that does not end it leaves the command open, and
/// a sequence without an end swallows everything behind its start.
pub proof fn open_sequences_swallow_the_rest(body: Seq<u8>, x: u8, more: Seq<u8>)
    requires
        forall|i: int| 0 <= i < body.len() ==> #[trigger] body[i] != 0x07 && body[i] != 0x1b,
        forall|i: int| 0 <= i < more.len() ==> #[trigger] more[i] != 0x07 && more[i] != 0x1b,
        x != 0x5c && x != 0x1b,
    ensures
        stripped(
            StripState::Normal,
            seq![0x1bu8, 0x5du8] + body + seq![0x1bu8, x] + more,
        ).len() == 0,
        strip_end(
            StripState::Normal,
            seq![0x1bu8, 0x5du8] + body + seq![0x1bu8, x] + more,
        ) == StripState::Osc,
{
    lemma_inside(StripState::Osc, body);
    lemma_inside(StripState::Osc, more);
    lemma_strip_two(StripState::Normal, 0x1b, 0x5d);
    lemma_strip_two(StripState::Osc, 0x1b, x);
    let start = seq![0x1bu8, 0x5du8];
    strip_is_chunk_independent(StripState::Normal, start, body);
    strip_is_chunk_independent(StripState::Normal, start + body, seq![0x1bu8, x]);
    strip_is_chunk_independent(StripState::Normal, start + body + seq![0x1bu8, x], more);
}

/// A stamp is `[`, digits and `]` at the start of a line, with a blank behind it or
/// not; it stands for the number, and the line goes on behind it.
pub proof fn stamps_have_one_shape(d: Seq<u8>, rest: Seq<u8>)
    requires
        d.len() > 0,
        forall|i: int| 0 <= i < d.len() ==> 48 <= #[trigger] d[i] <= 57,
        text::dec_value(d.map_values(|b: u8| b as char)) <= u64::MAX,
    ensures
        rest.len() == 0 || rest[0] != 32 ==> ms_prefix_of(seq![91u8] + d + seq![93u8] + rest)
            == Some(
            (text::dec_value(d.map_values(|b: u8| b as char)) as u64, d.len() as int + 2),
        ),
        ms_prefix_of(seq![91u8] + d + seq![93u8, 32u8] + rest) == Some(
            (text::dec_value(d.map_values(|b: u8| b as char)) as u64, d.len() as int + 3),
        ),
{
    lemma_stamp_shape(d, rest);
    lemma_stamp_shape(d, seq![32u8] + rest);
    assert(seq![91u8] + d + seq![93u8] + (seq![32u8] + rest) =~= seq![91u8] + d + seq![93u8, 32u8]
        + rest);
}

proof fn lemma_stamp_shape(d: Seq<u8>, rest: Seq<u8>)
    requires
        d.len() > 0,
        forall|i: int| 0 <= i < d.len() ==> 48 <= #[trigger] d[i] <= 57,
        text::dec_value(ascii(d)) <= u64::MAX,
    ensures
        ms_prefix_of(seq![91u8] + d + seq![93u8] + rest) == Some(
            (
                text::dec_value(ascii(d)) as u64,
                if rest.len() > 0 && rest[0] == 32 {
                    d.len() as int + 3
                } else {
                    d.len() as int + 2
                },
            ),
        ),
{
    let s = seq![91u8] + d + seq![93u8] + rest;
    let close = d.len() as int + 1;
    assert(s[close] == 93u8);
    assert forall|j: int| 0 <= j < close implies s[j] != 93u8 by {
        if j > 0 {
            assert(s[j] == d[j - 1]);
        }
    }
    lines::first_at_unique(s, 93u8, close);
    assert(s.subrange(1, close) =~= d);
    assert forall|i: int| 0 <= i < ascii(d).len() implies text::is_digit(
        #[trigger] ascii(d)[i],
    ) by {
        assert(48 <= d[i] <= 57);
    }
    if rest.len() > 0 {
        assert(s[close + 1] == rest[0]);
    }
}

/// A number that is too large for a time is no stamp.
pub proof fn too_large_numbers_are_no_stamps(d: Seq<u8>, rest: Seq<u8>)
    requires
        forall|i: int| 0 <= i < d.len() ==> 48 <= #[trigger] d[i] <= 57,
        text::dec_value(d.map_values(|b: u8| b as char)) > u64::MAX,
    ensures
        ms_prefix_of(seq![91u8] + d + seq![93u8] + rest) is None,
{
    let s = seq![91u8] + d + seq![93u8] + rest;
    let close = d.len() as int + 1;
    assert(s[close] == 93u8);
    assert forall|j: int| 0 <= j < close implies s[j] != 93u8 by {
        if j > 0 {
            assert(s[j] == d[j - 1]);
        }
    }
    lines::first_at_unique(s, 93u8, close);
    assert(s.subrange(1, close) =~= d);
    assert(ascii(d) =~= d.map_values(|b: u8| b as char));
}

/// A line that does not start with `[`, or has anything but a digit between that
/// and its first `]`, carries no stamp.
pub proof fn other_lines_carry_no_stamp(line: Seq<u8>, i: int)
    ensures
        line.len() == 0 || line[0] != 91 ==> ms_prefix_of(line) is None,
        0 < i < line.len() && !(48 <= line[i] <= 57) && line[i] != 93 && (forall|j: int|
            0 <= j < i ==> #[trigger] line[j] != 93) ==> ms_prefix_of(line) is None,
        line.len() > 1 && line[1] == 93 ==> ms_prefix_of(line) is None,
        (forall|j: int| 0 <= j < line.len() ==> #[trigger] line[j] != 93) ==> ms_prefix_of(
            line,
        ) is None,
        ms_prefix_of(line) matches Some(p) ==> 3 <= p.1 <= line.len(),
{
    let close = lines::first_at(line, 93u8);
    lines::first_at_is_first(line, 93u8);
    if 0 < i < line.len() && !(48 <= line[i] <= 57) && line[i] != 93 && (forall|j: int|
        0 <= j < i ==> #[trigger] line[j] != 93) {
        if close < line.len() {
            assert(close > i);
            let digits = ascii(line.subrange(1, close));
            assert(digits[i - 1] == line[i] as char);
            assert(!text::is_digit(digits[i - 1]));
        }
    }
}

/// A setting that holds a number within its limit is that number; one that is
/// missing or holds anything else is the default.
pub proof fn settings_hold_numbers(n: nat, max: nat, default: nat, s: Seq<char>)
    ensures
        n <= max ==> setting(Some(text::decimal(n)), max, default) == n,
        n > max ==> setting(Some(text::decimal(n)), max, default) == default,
        setting(None, max, default) == default,
        s.len() == 0 || (s[0] != '+' && !('0' <= s[0] <= '9')) ==> setting(Some(s), max, default)
            == default,
        DEFAULT_LOG_SIZE == 10 * 1024 * 1024,
        DEFAULT_LOG_SEGMENTS == 3,
{
    text::numbers_are_read(n, max, s);
    if s.len() == 0 {
        assert(s =~= Seq::<char>::empty());
    }
}

/// A command that is ended with a doubled escape is taken out too.
pub proof fn escapes_end_commands(body: Seq<u8>)
    requires
        forall|i: int| 0 <= i < body.len() ==> #[trigger] body[i] != 0x07 && body[i] != 0x1b,
    ensures
        stripped(
            StripState::Normal,
            seq![0x1bu8, 0x5du8] + body + seq![0x1bu8, 0x1bu8, 0x5cu8],
        ).len() == 0,
        strip_end(
            StripState::Normal,
            seq![0x1bu8, 0x5du8] + body + seq![0x1bu8, 0x1bu8, 0x5cu8],
        ) == StripState::Normal,
{
    let head = seq![0x1bu8, 0x5du8] + body;
    let tail = seq![0x1bu8, 0x1bu8, 0x5cu8];
    lemma_open_command(body);
    strip_is_chunk_independent(StripState::Normal, head, tail);
    assert(tail.drop_last() =~= seq![0x1bu8, 0x1bu8]);
    assert(tail.drop_last().drop_last() =~= seq![0x1bu8]);
    assert(tail.drop_last().drop_last().drop_last() =~= Seq::<u8>::empty());
    reveal_with_fuel(strip_end, 4);
    reveal_with_fuel(stripped, 4);
}

proof fn lemma_open_command(body: Seq<u8>)
    requires
        forall|i: int| 0 <= i < body.len() ==> #[trigger] body[i] != 0x07 && body[i] != 0x1b,
    ensures
        stripped(StripState::Normal, seq![0x1bu8, 0x5du8] + body).len() == 0,
        strip_end(StripState::Normal, seq![0x1bu8, 0x5du8] + body) == StripState::Osc,
    decreases body.len(),
{
    let s = seq![0x1bu8, 0x5du8] + body;
    if body.len() == 0 {
        assert(s =~= seq![0x1bu8, 0x5du8]);
        assert(s.drop_last() =~= seq![0x1bu8]);
        assert(s.drop_last().drop_last() =~= Seq::<u8>::empty());
        reveal_with_fuel(strip_end, 3);
        reveal_with_fuel(stripped, 3);
    } else {
        assert(s.drop_last() =~= seq![0x1bu8, 0x5du8] + body.drop_last());
        lemma_open_command(body.drop_last());
        assert(s.last() == body[body.len() - 1]);
    }
}

/// A writer adds up what it appends, modulo what it can count, and starts anew with a
/// new file; it knows whether it stands at the start of a line.
pub proof fn writers_count_what_they_append(written: u64, at_line_start: bool, b: Seq<u8>, x: bool)
    requires
        b.len() <= u64::MAX,
    ensures
        written_after(written, LogStep::Append(b)) == (written + b.len())
            % 0x1_0000_0000_0000_0000,
        written_after(written, LogStep::Rotate) == 0,
        written_after(written, LogStep::Line(x)) == written,
        line_after(at_line_start, LogStep::Line(x)) == x,
        line_after(at_line_start, LogStep::Append(b)) == at_line_start,
        line_after(at_line_start, LogStep::Rotate) == at_line_start,
{
}

/// A line that was started before gets no stamp: only the lines that start in a chunk
/// do.
pub proof fn a_started_line_gets_no_stamp(s: Seq<u8>, ms: u64, stamps: Seq<u64>)
    requires
        s.len() > 0,
    ensures
        starts_in(true, s) == starts_in(false, s) + 1,
        stamped(true, s, seq![ms] + stamps) == ms_prefix_bytes(ms as nat) + stamped(
            false,
            s,
            stamps,
        ),
        !s.contains(10u8) ==> starts_in(false, s) == 0 && stamped(false, s, stamps) == s,
{
    lines::first_at_is_first(s, NL);
    let n = line_len(s);
    assert((seq![ms] + stamps).skip(1) =~= stamps);
    let more = stamped(true, s.skip(n), stamps);
    assert(0 < n <= s.len());
    assert(ms_prefix_bytes(ms as nat) + s.take(n) + more =~= ms_prefix_bytes(ms as nat) + (
    Seq::<u8>::empty() + s.take(n) + more));
    if !s.contains(10u8) {
        let k = lines::first_at(s, NL);
        if k < s.len() {
            assert(s.contains(s[k]));
        }
        let rest = s.skip(n);
        assert(rest.len() == 0);
        assert(starts_in(true, rest) == 0 && stamped(true, rest, stamps).len() == 0);
        assert(starts_in(false, s) == 0);
        assert(s.take(n) =~= s);
        assert(stamped(false, s, stamps) =~= s);
    }
}

} // verus!
