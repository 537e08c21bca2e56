//! Explicit ranges of a log, by byte offset or by time.

use vstd::prelude::*;
use vstd::slice::slice_subrange;
use vstd::string::*;

use crate::ids;
use crate::ids::is_valid_id;
use crate::lines;
use crate::lines::count_newlines;
use crate::pty;
use crate::pty::strip_if;
use crate::tail;
use crate::tail::{parse_time_option, unstamped_error};
use crate::text;
use crate::text::{concat2, concat3, decimal_text, quoted};
use crate::window;
use crate::window::{read_window, remove_stamps};

verus! {

/// Which range to read, and how to show it. At most one of the two kinds of
/// selectors may be set; a missing end is open, and with no selector the whole
/// log is read.
pub struct SliceOptions {
    pub id: String,
    pub from: Option<String>,
    pub to: Option<String>,
    pub from_cursor: Option<u64>,
    pub to_cursor: Option<u64>,
    pub strip_ansi: bool,
    pub keep_timestamps: bool,
    pub json: bool,
}

/// Which range is read.
pub enum SliceRead {
    /// Between two byte offsets.
    Cursors(Option<u64>, Option<u64>),
    /// Between two points in time.
    Times(Option<u64>, Option<u64>),
}

/// Why the selectors cannot be met before the log is looked at, if they cannot.
pub open spec fn selector_error(o: SliceOptions) -> Option<Seq<char>> {
    if !ids::valid_id(o.id@) {
        Some("invalid id "@ + text::debug_text(o.id@))
    } else if (o.from is Some || o.to is Some) && (o.from_cursor is Some || o.to_cursor is Some) {
        Some(
            "time selectors (--from/--to) and byte selectors (--from-cursor/--to-cursor) are mutually exclusive"@,
        )
    } else {
        None
    }
}

/// Checks the identifier and that the selectors go together.
pub fn check_selectors(o: &SliceOptions) -> (r: Result<(), String>)
    ensures
        match selector_error(*o) {
            Some(e) => r matches Err(t) && t@ == e,
            None => r is Ok,
        },
{
    if !is_valid_id(o.id.as_str()) {
        return Err(concat2("invalid id ", quoted(o.id.as_str()).as_str()));
    }
    if (o.from.is_some() || o.to.is_some()) && (o.from_cursor.is_some() || o.to_cursor.is_some()) {
        return Err(
            "time selectors (--from/--to) and byte selectors (--from-cursor/--to-cursor) are mutually exclusive".to_owned(),
        );
    }
    Ok(())
}

/// The range that selectors ask for, or why they cannot be met.
pub open spec fn slice_plan(o: SliceOptions, now: nat) -> Result<SliceRead, Seq<char>> {
    if o.from_cursor is Some || o.to_cursor is Some {
        Ok(SliceRead::Cursors(o.from_cursor, o.to_cursor))
    } else {
        match tail::time_option("--from: "@, tail::opt_text(o.from), now) {
            Err(e) => Err(e),
            Ok(from) => match tail::time_option("--to: "@, tail::opt_text(o.to), now) {
                Err(e) => Err(e),
                Ok(to) => Ok(SliceRead::Times(from, to)),
            },
        }
    }
}

/// Works out which range the selectors ask for.
pub fn plan(o: &SliceOptions, now: u64) -> (r: Result<SliceRead, String>)
    ensures
        match slice_plan(*o, now as nat) {
            Ok(p) => r == Ok::<SliceRead, String>(p),
            Err(e) => r matches Err(t) && t@ == e,
        },
{
    if o.from_cursor.is_some() || o.to_cursor.is_some() {
        return Ok(SliceRead::Cursors(o.from_cursor, o.to_cursor));
    }
    let from: Option<u64> = match parse_time_option("--from: ", &o.from, now) {
        Ok(t) => t,
        Err(e) => {
            return Err(e);
        },
    };
    let to: Option<u64> = match parse_time_option("--to: ", &o.to, now) {
        Ok(t) => t,
        Err(e) => {
            return Err(e);
        },
    };
    Ok(SliceRead::Times(from, to))
}

/// A byte offset, or a default where it is missing, moved back to the end of
/// the log where it lies behind it.
pub open spec fn clamped(cursor: Option<u64>, default: nat, len: nat) -> nat {
    let at = match cursor {
        Some(c) => c as nat,
        None => default,
    };
    if at < len {
        at
    } else {
        len
    }
}

/// A byte offset, or a default, moved back to the end of the log.
fn clamp(cursor: Option<u64>, default: u64, len: u64) -> (r: u64)
    ensures
        r == clamped(cursor, default as nat, len as nat),
        r <= len,
{
    let at: u64 = match cursor {
        Some(c) => c,
        None => default,
    };
    if at < len {
        at
    } else {
        len
    }
}

/// The answer to a read between two byte offsets.
pub struct CursorSlice {
    pub from_cursor: u64,
    pub to_cursor: u64,
    pub lines_emitted: u64,
    pub content: Vec<u8>,
}

/// The bytes between two offsets that were moved back to the end of the log.
pub open spec fn cursor_range(s: Seq<u8>, from: Option<u64>, to: Option<u64>) -> Seq<u8> {
    s.subrange(
        clamped(from, 0, s.len()) as int,
        clamped(to, s.len(), s.len()) as int,
    )
}

/// Reads the bytes between two offsets.
pub fn run_cursor_slice(
    log: &[u8],
    from_cursor: Option<u64>,
    to_cursor: Option<u64>,
    strip_ansi: bool,
) -> (r: Result<CursorSlice, String>)
    ensures
        ({
            let from = clamped(from_cursor, 0, log@.len());
            let to = clamped(to_cursor, log@.len(), log@.len());
            let bytes = pty::strip_choice(
                strip_ansi,
                cursor_range(log@, from_cursor, to_cursor),
            );
            if from > to {
                r matches Err(t) && t@ == "--from-cursor "@ + text::decimal(from)
                    + " is past --to-cursor "@ + text::decimal(to)
            } else {
                r matches Ok(s) && s.from_cursor == from && s.to_cursor == to && s.content@ == bytes
                    && s.lines_emitted == lines::newlines(bytes)
            }
        }),
{
    let len: u64 = log.len() as u64;
    let from: u64 = clamp(from_cursor, 0, len);
    let to: u64 = clamp(to_cursor, len, len);
    if from > to {
        let mut out = concat3(
            "--from-cursor ",
            decimal_text(from).as_str(),
            " is past --to-cursor ",
        );
        out.append(decimal_text(to).as_str());
        return Err(out);
    }
    let part = slice_subrange(log, from as usize, to as usize);
    let content = strip_if(strip_ansi, vstd::slice::slice_to_vec(part));
    Ok(
        CursorSlice {
            from_cursor: from,
            to_cursor: to,
            lines_emitted: count_newlines(content.as_slice()),
            content,
        },
    )
}

/// The answer to a read between two points in time.
pub struct TimeSlice {
    pub lines_emitted: u64,
    pub content: Vec<u8>,
}

/// The bytes of a span of time. With both ends open that is the whole log, with
/// or without its stamps; otherwise it is the stamped lines of the span.
pub open spec fn time_range(
    s: Seq<u8>,
    from: Option<u64>,
    to: Option<u64>,
    keep_timestamps: bool,
) -> Seq<u8> {
    if from is None && to is None {
        if keep_timestamps {
            s
        } else {
            window::every_line(s)
        }
    } else {
        window::window_of(lines::finished(s), from, to, keep_timestamps).bytes
    }
}

/// Reads the lines between two points in time.
pub fn run_time_slice(
    log: &[u8],
    from: Option<u64>,
    to: Option<u64>,
    strip_ansi: bool,
    keep_timestamps: bool,
) -> (r: Result<TimeSlice, String>)
    ensures
        ({
            let w = window::window_of(lines::finished(log@), from, to, keep_timestamps);
            let bytes = pty::strip_choice(
                strip_ansi,
                time_range(log@, from, to, keep_timestamps),
            );
            if (from is Some || to is Some) && !w.stamped {
                r matches Err(t) && t@ == tail::unstamped_text("--from/--to"@)
            } else {
                r matches Ok(s) && s.content@ == bytes && s.lines_emitted == lines::newlines(bytes)
            }
        }),
{
    let emitted = if from.is_some() || to.is_some() {
        let w = read_window(log, from, to, keep_timestamps);
        if !w.stamped {
            return Err(unstamped_error("--from/--to"));
        }
        w.bytes
    } else if keep_timestamps {
        vstd::slice::slice_to_vec(log)
    } else {
        remove_stamps(log)
    };
    let content = strip_if(strip_ansi, emitted);
    Ok(TimeSlice { lines_emitted: count_newlines(content.as_slice()), content })
}

/// A slice without selectors leaves no line out: it has as many lines as the
/// log, and is the log itself where stamps are kept or none is there.
pub proof fn open_slice_has_every_line(s: Seq<u8>, keep_timestamps: bool)
    ensures
        lines::newlines(time_range(s, None, None, keep_timestamps)) == lines::newlines(s),
        keep_timestamps || (!window::any_stamp(lines::finished(s)) && !window::has_stamp(
            lines::unfinished(s),
        )) ==> time_range(s, None, None, keep_timestamps) == s,
{
    window::every_line_keeps_the_lines(s);
}

/// A range with both ends open is the whole log.
pub proof fn open_range_is_the_log(s: Seq<u8>)
    requires
        s.len() <= u64::MAX,
    ensures
        cursor_range(s, None, None) == s,
{
    assert(cursor_range(s, None, None) =~= s);
}

/// Two ranges that meet are together the range from the first start to the
/// last end.
pub proof fn adjacent_ranges_join(s: Seq<u8>, a: u64, b: u64, c: u64)
    requires
        a <= b <= c,
    ensures
        cursor_range(s, Some(a), Some(b)) + cursor_range(s, Some(b), Some(c)) == cursor_range(
            s,
            Some(a),
            Some(c),
        ),
{
    assert(cursor_range(s, Some(a), Some(b)) + cursor_range(s, Some(b), Some(c))
        =~= cursor_range(s, Some(a), Some(c)));
}

/// Reading a log by cursor and reading the same range afterwards agree.
pub proof fn range_repeats_a_cursor_read(s: Seq<u8>, pos: u64)
    requires
        pos <= s.len(),
    ensures
        cursor_range(s, Some(pos), None) == tail::covered(tail::Selection::Cursor(pos), s),
{
    assert(cursor_range(s, Some(pos), None) =~= tail::covered(tail::Selection::Cursor(pos), s));
}

/// What a read gives.
pub enum SliceOutcome {
    /// Bytes between two offsets.
    Cursors(CursorSlice),
    /// Lines between two points in time, and these points.
    Times(TimeSlice, Option<u64>, Option<u64>),
}

/// Whether an outcome is that of a range that can be met.
pub open spec fn is_outcome(
    r: Result<SliceOutcome, String>,
    o: SliceOptions,
    read: SliceRead,
    log: Seq<u8>,
) -> bool {
    match read {
        SliceRead::Cursors(from_cursor, to_cursor) => {
            let from = clamped(from_cursor, 0, log.len());
            let to = clamped(to_cursor, log.len(), log.len());
            let bytes = pty::strip_choice(
                o.strip_ansi,
                cursor_range(log, from_cursor, to_cursor),
            );
            if from > to {
                r matches Err(t) && t@ == "--from-cursor "@ + text::decimal(from)
                    + " is past --to-cursor "@ + text::decimal(to)
            } else {
                r matches Ok(SliceOutcome::Cursors(s)) && s.from_cursor == from && s.to_cursor
                    == to && s.content@ == bytes && s.lines_emitted == lines::newlines(bytes)
            }
        },
        SliceRead::Times(from, to) => {
            let w = window::window_of(lines::finished(log), from, to, o.keep_timestamps);
            let bytes = pty::strip_choice(
                o.strip_ansi,
                time_range(log, from, to, o.keep_timestamps),
            );
            if (from is Some || to is Some) && !w.stamped {
                r matches Err(t) && t@ == tail::unstamped_text("--from/--to"@)
            } else {
                r matches Ok(SliceOutcome::Times(s, f, u)) && f == from && u == to && s.content@
                    == bytes && s.lines_emitted == lines::newlines(bytes)
            }
        },
    }
}

/// Reads a range of a log, at a point in time. The log may be missing.
pub fn run(o: &SliceOptions, log: Option<&[u8]>, now: u64) -> (r: Result<SliceOutcome, String>)
    ensures
        match selector_error(*o) {
            Some(e) => r matches Err(t) && t@ == e,
            None => match log {
                None => r matches Err(t) && t@ == "no log for id "@ + text::debug_text(o.id@),
                Some(bytes) => match slice_plan(*o, now as nat) {
                    Err(e) => r matches Err(t) && t@ == e,
                    Ok(read) => is_outcome(r, *o, read, bytes@),
                },
            },
        },
{
    match check_selectors(o) {
        Ok(_) => {},
        Err(e) => {
            return Err(e);
        },
    }
    let bytes: &[u8] = match log {
        Some(b) => b,
        None => {
            return Err(concat2("no log for id ", quoted(o.id.as_str()).as_str()));
        },
    };
    match plan(o, now) {
        Err(e) => Err(e),
        Ok(SliceRead::Cursors(from, to)) => match run_cursor_slice(bytes, from, to, o.strip_ansi) {
            Ok(s) => Ok(SliceOutcome::Cursors(s)),
            Err(e) => Err(e),
        },
        Ok(SliceRead::Times(from, to)) => match run_time_slice(
            bytes,
            from,
            to,
            o.strip_ansi,
            o.keep_timestamps,
        ) {
            Ok(s) => Ok(SliceOutcome::Times(s, from, to)),
            Err(e) => Err(e),
        },
    }
}

/// A range of a log is what stands between its cursors; an end that is left open, or
/// that lies past the log, is the end of the log.
pub proof fn ranges_stand_between_their_cursors(a: Seq<u8>, b: Seq<u8>, c: Seq<u8>, past: u64)
    requires
        (a + b + c).len() <= u64::MAX,
        past >= (a + b + c).len(),
    ensures
        cursor_range(a + b + c, Some(a.len() as u64), Some((a + b).len() as u64)) == b,
        cursor_range(a + b + c, Some(a.len() as u64), None) == b + c,
        cursor_range(a + b + c, None, Some((a + b).len() as u64)) == a + b,
        cursor_range(a + b + c, Some(a.len() as u64), Some(past)) == b + c,
        cursor_range(a + b + c, Some(past), None).len() == 0,
{
    let s = a + b + c;
    assert(s.subrange(a.len() as int, (a + b).len() as int) =~= b);
    assert(s.subrange(a.len() as int, s.len() as int) =~= b + c);
    assert(s.subrange(0, (a + b).len() as int) =~= a + b);
    assert(s.subrange(s.len() as int, s.len() as int) =~= Seq::<u8>::empty());
}

/// The times and the cursors of a slice do not go together; either alone, or neither,
/// is taken for every identifier that can name a terminal.
pub proof fn times_and_cursors_do_not_mix(o: SliceOptions)
    ensures
        selector_error(o) is None <==> ids::valid_id(o.id@) && !((o.from is Some || o.to is Some)
            && (o.from_cursor is Some || o.to_cursor is Some)),
        !ids::valid_id(o.id@) ==> selector_error(o) == Some(
            "invalid id "@ + text::debug_text(o.id@),
        ),
        ids::valid_id(o.id@) && selector_error(o) is Some ==> selector_error(o) == Some(
            "time selectors (--from/--to) and byte selectors (--from-cursor/--to-cursor) are mutually exclusive"@,
        ),
{
}

/// A slice is read by the cursors where there are any, and else by its times, each of
/// them read as any time is.
pub proof fn slices_are_read_as_asked(o: SliceOptions, now: nat)
    ensures
        o.from_cursor is Some || o.to_cursor is Some ==> slice_plan(o, now) == Ok::<
            SliceRead,
            Seq<char>,
        >(SliceRead::Cursors(o.from_cursor, o.to_cursor)),
        o.from_cursor is None && o.to_cursor is None && o.from is None && o.to is None
            ==> slice_plan(o, now) == Ok::<SliceRead, Seq<char>>(SliceRead::Times(None, None)),
        o.from_cursor is None && o.to_cursor is None && slice_plan(o, now) is Ok ==> slice_plan(
            o,
            now,
        )->Ok_0 is Times && (slice_plan(o, now)->Ok_0->Times_0 is Some <==> o.from is Some) && (
        slice_plan(o, now)->Ok_0->Times_1 is Some <==> o.to is Some),
{
}

/// A slice by times of a log whose stamps never go back is made of all its lines
/// between the times, one behind the other.
pub proof fn slices_by_time_have_every_line(
    s: Seq<u8>,
    from: Option<u64>,
    to: Option<u64>,
    keep_timestamps: bool,
)
    requires
        window::in_time_order(lines::finished(s)),
        from is Some || to is Some,
    ensures
        time_range(s, from, to, keep_timestamps) == lines::finished(s).filter(
            |l: Seq<u8>| window::line_in_span(l, from, to),
        ).map_values(|l: Seq<u8>| window::body_of(l, keep_timestamps)).flatten(),
{
    window::window_is_the_span(lines::finished(s), from, to, keep_timestamps);
    window::lines_are_shown_one_by_one(lines::finished(s), from, to, keep_timestamps);
    window::lines_are_shown_one_by_one(
        window::selected(lines::finished(s), from, to),
        from,
        to,
        keep_timestamps,
    );
}

/// What a slice answers: the bytes between two cursors, or the lines between two
/// times, with the number of their lines; and why it cannot.
pub proof fn slices_answer_what_was_planned(
    r: Result<SliceOutcome, String>,
    o: SliceOptions,
    a: Seq<u8>,
    b: Seq<u8>,
    c: Seq<u8>,
    from: Option<u64>,
    to: Option<u64>,
)
    requires
        (a + b + c).len() <= u64::MAX,
    ensures
        is_outcome(
            r,
            o,
            SliceRead::Cursors(Some(a.len() as u64), Some((a + b).len() as u64)),
            a + b + c,
        ) ==> (r matches Ok(SliceOutcome::Cursors(s)) && s.from_cursor == a.len() && s.to_cursor
            == a.len() + b.len() && s.content@ == pty::strip_choice(o.strip_ansi, b)
            && s.lines_emitted == lines::newlines(pty::strip_choice(o.strip_ansi, b))),
        b.len() > 0 && is_outcome(
            r,
            o,
            SliceRead::Cursors(Some((a + b).len() as u64), Some(a.len() as u64)),
            a + b + c,
        ) ==> r is Err,
        is_outcome(r, o, SliceRead::Times(from, to), a) ==> ({
            let w = window::window_of(lines::finished(a), from, to, o.keep_timestamps);
            &&& (from is Some || to is Some) && w.stamped ==> (r matches Ok(
                SliceOutcome::Times(s, f, u),
            ) && f == from && u == to && s.content@ == pty::strip_choice(o.strip_ansi, w.bytes)
                && s.lines_emitted == lines::newlines(s.content@))
            &&& (from is Some || to is Some) && !w.stamped ==> r is Err
            &&& from is None && to is None ==> (r matches Ok(SliceOutcome::Times(s, f, u))
                && s.content@ == pty::strip_choice(
                o.strip_ansi,
                if o.keep_timestamps {
                    a
                } else {
                    window::every_line(a)
                },
            ) && s.lines_emitted == lines::newlines(s.content@))
        }),
{
    ranges_stand_between_their_cursors(a, b, c, u64::MAX);
}

} // verus!
