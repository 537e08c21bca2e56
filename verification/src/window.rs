//! The lines of a stamped log whose stamps lie in a span of time.

use vstd::prelude::*;
use vstd::slice::slice_subrange;

use crate::lines;
use crate::lines::{append_bytes, find_from, NL};
use crate::pty;
use crate::pty::parse_ms_prefix;
use crate::segments;
use crate::text;

verus! {

/// What was read of a stamped log.
pub struct Window {
    /// The lines inside of the span, one after the other.
    pub bytes: Vec<u8>,
    /// How many lines these are.
    pub count: u64,
    /// Whether any line that was read carries a stamp.
    pub stamped: bool,
}

/// What a `Window` holds.
#[verifier::ext_equal]
pub struct WindowView {
    pub bytes: Seq<u8>,
    pub count: nat,
    pub stamped: bool,
}

impl View for Window {
    type V = WindowView;

    open spec fn view(&self) -> WindowView {
        WindowView { bytes: self.bytes@, count: self.count as nat, stamped: self.stamped }
    }
}

/// A line, without its stamp unless that is kept.
pub open spec fn body_of(line: Seq<u8>, keep_stamps: bool) -> Seq<u8> {
    if keep_stamps {
        line
    } else {
        match pty::ms_prefix_of(line) {
            Some(p) => line.skip(p.1),
            None => line,
        }
    }
}

/// Whether a time lies in a span. A missing end is open.
pub open spec fn in_span(ts: u64, since: Option<u64>, until: Option<u64>) -> bool {
    &&& since matches Some(s) ==> s <= ts
    &&& until matches Some(u) ==> ts <= u
}

/// Whether a line carries a stamp inside of the span.
pub open spec fn line_in_span(line: Seq<u8>, since: Option<u64>, until: Option<u64>) -> bool {
    pty::ms_prefix_of(line) matches Some(p) && in_span(p.0, since, until)
}

/// Reads lines in order. Lines without a stamp are passed over, and so are
/// those before the span; the first one behind the span ends the reading.
pub open spec fn window_of(
    all: Seq<Seq<u8>>,
    since: Option<u64>,
    until: Option<u64>,
    keep_stamps: bool,
) -> WindowView
    decreases all.len(),
{
    if all.len() == 0 {
        WindowView { bytes: Seq::empty(), count: 0, stamped: false }
    } else {
        match pty::ms_prefix_of(all[0]) {
            None => window_of(all.drop_first(), since, until, keep_stamps),
            Some(p) => {
                if since matches Some(s) && p.0 < s {
                    let rest = window_of(all.drop_first(), since, until, keep_stamps);
                    WindowView { stamped: true, ..rest }
                } else if until matches Some(u) && p.0 > u {
                    WindowView { bytes: Seq::empty(), count: 0, stamped: true }
                } else {
                    let rest = window_of(all.drop_first(), since, until, keep_stamps);
                    WindowView {
                        bytes: body_of(all[0], keep_stamps) + rest.bytes,
                        count: rest.count + 1,
                        stamped: true,
                    }
                }
            },
        }
    }
}

/// One piece of a window put in front of another.
spec fn behind(front: WindowView, rest: WindowView) -> WindowView {
    WindowView {
        bytes: front.bytes + rest.bytes,
        count: front.count + rest.count,
        stamped: front.stamped || rest.stamped,
    }
}

/// Reads the finished lines of a log whose stamps lie in a span of time.
pub fn read_window(
    log: &[u8],
    since: Option<u64>,
    until: Option<u64>,
    keep_stamps: bool,
) -> (r: Window)
    ensures
        r@ == window_of(lines::finished(log@), since, until, keep_stamps),
{
    let ghost want = window_of(lines::finished(log@), since, until, keep_stamps);
    let mut bytes: Vec<u8> = Vec::new();
    let mut count: u64 = 0;
    let mut stamped: bool = false;
    let mut start: usize = 0;
    assert(log@.skip(0) =~= log@);
    assert(want =~= behind(
        WindowView { bytes: bytes@, count: count as nat, stamped },
        window_of(lines::finished(log@.skip(0)), since, until, keep_stamps),
    ));
    loop
        invariant
            start <= log@.len(),
            count <= start,
            want == behind(
                WindowView { bytes: bytes@, count: count as nat, stamped },
                window_of(lines::finished(log@.skip(start as int)), since, until, keep_stamps),
            ),
            want == window_of(lines::finished(log@), since, until, keep_stamps),
        decreases log@.len() - start,
    {
        let ghost rest = log@.skip(start as int);
        let ghost all = lines::finished(rest);
        let ghost k = lines::first_at(rest, NL);
        let ghost front = WindowView { bytes: bytes@, count: count as nat, stamped };
        let end: usize = find_from(log, NL, start);
        if end == log.len() {
            let out = Window { bytes, count, stamped };
            assert(all.len() == 0);
            assert(out@ =~= want);
            return out;
        }
        let line = slice_subrange(log, start, end + 1);
        assert(line@ =~= rest.take(k + 1));
        assert(rest.skip(k + 1) =~= log@.skip(end + 1));
        assert(all.drop_first() =~= lines::finished(log@.skip(end + 1)));
        assert(all[0] == line@);
        let ghost more = window_of(all.drop_first(), since, until, keep_stamps);
        start = end + 1;
        match parse_ms_prefix(line) {
            None => {},
            Some((ts, body)) => {
                stamped = true;
                let early = match since {
                    Some(s) => ts < s,
                    None => false,
                };
                if early {
                    assert(want =~= behind(
                        WindowView { bytes: bytes@, count: count as nat, stamped },
                        more,
                    ));
                } else {
                    let late = match until {
                        Some(u) => ts > u,
                        None => false,
                    };
                    if late {
                        let out = Window { bytes, count, stamped };
                        assert(out@ =~= want);
                        return out;
                    }
                    if keep_stamps {
                        append_bytes(&mut bytes, line);
                    } else {
                        let tail = slice_subrange(line, body, line.len());
                        assert(tail@ =~= line@.skip(body as int));
                        append_bytes(&mut bytes, tail);
                    }
                    count += 1;
                    assert(bytes@ =~= front.bytes + body_of(line@, keep_stamps));
                    assert(want =~= behind(
                        WindowView { bytes: bytes@, count: count as nat, stamped },
                        more,
                    ));
                }
            },
        }
    }
}

/// Whether a line carries a stamp.
pub open spec fn has_stamp(line: Seq<u8>) -> bool {
    pty::ms_prefix_of(line) is Some
}

/// Whether any line carries a stamp.
pub open spec fn any_stamp(all: Seq<Seq<u8>>) -> bool {
    exists|i: int| 0 <= i < all.len() && #[trigger] pty::ms_prefix_of(all[i]) is Some
}

/// The time of a line's stamp.
pub open spec fn time_of(line: Seq<u8>) -> u64 {
    match pty::ms_prefix_of(line) {
        Some(p) => p.0,
        None => 0,
    }
}

/// Whether the stamps never go back.
pub open spec fn in_time_order(all: Seq<Seq<u8>>) -> bool {
    forall|i: int, j: int|
        0 <= i <= j < all.len() && #[trigger] has_stamp(all[i]) && #[trigger] has_stamp(all[j])
            ==> time_of(all[i]) <= time_of(all[j])
}

/// The lines inside of a span.
pub open spec fn selected(
    all: Seq<Seq<u8>>,
    since: Option<u64>,
    until: Option<u64>,
) -> Seq<Seq<u8>>
    decreases all.len(),
{
    if all.len() == 0 {
        Seq::empty()
    } else if line_in_span(all[0], since, until) {
        seq![all[0]] + selected(all.drop_first(), since, until)
    } else {
        selected(all.drop_first(), since, until)
    }
}

/// Bodies of lines one after the other.
pub open spec fn bodies(all: Seq<Seq<u8>>, keep_stamps: bool) -> Seq<u8>
    decreases all.len(),
{
    if all.len() == 0 {
        Seq::empty()
    } else {
        body_of(all[0], keep_stamps) + bodies(all.drop_first(), keep_stamps)
    }
}

proof fn lemma_none_left(all: Seq<Seq<u8>>, since: Option<u64>, until: Option<u64>)
    requires
        forall|i: int|
            0 <= i < all.len() ==> !line_in_span(#[trigger] all[i], since, until),
    ensures
        selected(all, since, until).len() == 0,
    decreases all.len(),
{
    if all.len() > 0 {
        let rest = all.drop_first();
        assert forall|i: int| 0 <= i < rest.len() implies !line_in_span(
            #[trigger] rest[i],
            since,
            until,
        ) by {
            assert(rest[i] == all[i + 1]);
        }
        lemma_none_left(rest, since, until);
    }
}

/// In a log whose stamps never go back, reading a window gives exactly the
/// lines whose stamps lie in the span, in order.
pub proof fn window_is_the_span(
    all: Seq<Seq<u8>>,
    since: Option<u64>,
    until: Option<u64>,
    keep_stamps: bool,
)
    requires
        in_time_order(all),
    ensures
        window_of(all, since, until, keep_stamps).bytes == bodies(
            selected(all, since, until),
            keep_stamps,
        ),
        window_of(all, since, until, keep_stamps).count == selected(all, since, until).len(),
    decreases all.len(),
{
    if all.len() > 0 {
        let rest = all.drop_first();
        assert(in_time_order(rest)) by {
            assert forall|i: int, j: int|
                0 <= i <= j < rest.len() && #[trigger] has_stamp(rest[i]) && #[trigger] has_stamp(
                    rest[j],
                ) implies time_of(rest[i]) <= time_of(rest[j]) by {
                assert(has_stamp(all[i + 1]));
                assert(has_stamp(all[j + 1]));
            }
        }
        window_is_the_span(rest, since, until, keep_stamps);
        match pty::ms_prefix_of(all[0]) {
            None => {},
            Some(p) => {
                if !(since matches Some(s) && p.0 < s) && (until matches Some(u) && p.0 > u) {
                    assert forall|i: int| 0 <= i < rest.len() implies !line_in_span(
                        #[trigger] rest[i],
                        since,
                        until,
                    ) by {
                        assert(rest[i] == all[i + 1]);
                        if has_stamp(all[i + 1]) {
                            assert(has_stamp(all[0]));
                        }
                    }
                    lemma_none_left(rest, since, until);
                    assert(selected(all, since, until).len() == 0);
                    assert(bodies(selected(all, since, until), keep_stamps) =~= Seq::<u8>::empty());
                } else if line_in_span(all[0], since, until) {
                    let sel = selected(rest, since, until);
                    assert((seq![all[0]] + sel).drop_first() =~= sel);
                }
            },
        }
    }
}

/// A window with both ends open gives every stamped line.
pub proof fn open_window_is_every_stamped_line(all: Seq<Seq<u8>>, keep_stamps: bool)
    ensures
        window_of(all, None, None, keep_stamps).bytes == bodies(
            selected(all, None, None),
            keep_stamps,
        ),
        window_of(all, None, None, keep_stamps).stamped <==> exists|i: int|
            0 <= i < all.len() && #[trigger] has_stamp(all[i]),
    decreases all.len(),
{
    if all.len() > 0 {
        let rest = all.drop_first();
        open_window_is_every_stamped_line(rest, keep_stamps);
        if has_stamp(all[0]) {
            let sel = selected(rest, None, None);
            assert((seq![all[0]] + sel).drop_first() =~= sel);
        } else {
            if window_of(rest, None, None, keep_stamps).stamped {
                let i = choose|i: int|
                    0 <= i < rest.len() && #[trigger] has_stamp(rest[i]);
                assert(has_stamp(all[i + 1]));
            }
            if exists|i: int| 0 <= i < all.len() && #[trigger] has_stamp(all[i]) {
                let i = choose|i: int|
                    0 <= i < all.len() && #[trigger] has_stamp(all[i]);
                assert(has_stamp(rest[i - 1]));
            }
        }
    }
}

/// Every line of a log, the unfinished one at its end included, each without
/// its stamp if it has one.
pub open spec fn every_line(s: Seq<u8>) -> Seq<u8> {
    bodies(lines::finished(s), false) + body_of(lines::unfinished(s), false)
}

/// Appends a line without its stamp.
fn append_body(out: &mut Vec<u8>, line: &[u8])
    ensures
        final(out)@ == old(out)@ + body_of(line@, false),
{
    match parse_ms_prefix(line) {
        Some((_, body)) => {
            let rest = slice_subrange(line, body, line.len());
            assert(rest@ =~= line@.skip(body as int));
            append_bytes(out, rest);
        },
        None => append_bytes(out, line),
    }
}

/// Every line of a log without its stamp.
pub fn remove_stamps(log: &[u8]) -> (r: Vec<u8>)
    ensures
        r@ == every_line(log@),
{
    let mut out: Vec<u8> = Vec::new();
    let mut start: usize = 0;
    assert(log@.skip(0) =~= log@);
    assert(out@ + every_line(log@.skip(0)) =~= every_line(log@));
    loop
        invariant
            start <= log@.len(),
            out@ + every_line(log@.skip(start as int)) == every_line(log@),
        decreases log@.len() - start,
    {
        let ghost rest = log@.skip(start as int);
        let ghost before = out@;
        let end: usize = find_from(log, NL, start);
        if end == log.len() {
            let line = slice_subrange(log, start, end);
            assert(line@ =~= rest);
            append_body(&mut out, line);
            assert(bodies(lines::finished(rest), false) =~= Seq::<u8>::empty());
            assert(out@ =~= before + every_line(rest));
            return out;
        }
        let ghost k = lines::first_at(rest, NL);
        let line = slice_subrange(log, start, end + 1);
        assert(line@ =~= rest.take(k + 1));
        assert(rest.skip(k + 1) =~= log@.skip(end + 1));
        assert(lines::finished(rest)[0] == line@);
        assert(lines::finished(rest).drop_first() =~= lines::finished(log@.skip(end + 1)));
        append_body(&mut out, line);
        start = end + 1;
        assert(out@ + every_line(log@.skip(start as int)) =~= before + every_line(rest));
    }
}

proof fn lemma_stamp_has_no_newline(line: Seq<u8>)
    ensures
        lines::newlines(body_of(line, false)) == lines::newlines(line),
{
    match pty::ms_prefix_of(line) {
        Some(p) => {
            let front = line.take(p.1);
            let close = lines::first_at(line, 93u8);
            lines::first_at_is_first(line, 93u8);
            assert forall|i: int| 0 <= i < front.len() implies front[i] != NL by {
                if 1 <= i < close {
                    let digits = pty::ascii(line.subrange(1, close));
                    assert(text::is_digit(digits[i - 1]));
                    assert(digits[i - 1] == line[i] as char);
                }
            }
            lines::count_none(front, NL);
            assert(line =~= front + line.skip(p.1));
            lines::count_adds(front, line.skip(p.1), NL);
        },
        None => {},
    }
}

proof fn lemma_bodies(all: Seq<Seq<u8>>)
    ensures
        lines::newlines(bodies(all, false)) == lines::newlines(all.flatten()),
        !any_stamp(all) ==> bodies(all, false) == all.flatten(),
    decreases all.len(),
{
    if all.len() > 0 {
        let rest = all.drop_first();
        lemma_bodies(rest);
        lemma_stamp_has_no_newline(all[0]);
        lines::count_adds(body_of(all[0], false), bodies(rest, false), NL);
        lines::count_adds(all[0], rest.flatten(), NL);
        if !any_stamp(all) {
            assert(pty::ms_prefix_of(all[0]) is None);
            assert forall|i: int| 0 <= i < rest.len() implies #[trigger] pty::ms_prefix_of(
                rest[i],
            ) is None by {
                assert(pty::ms_prefix_of(all[i + 1]) is None);
            }
        }
    }
}

/// Taking the stamps off leaves no line out: there are as many lines as before,
/// and where no line carries a stamp nothing changes.
pub proof fn every_line_keeps_the_lines(s: Seq<u8>)
    ensures
        lines::newlines(every_line(s)) == lines::newlines(s),
        !any_stamp(lines::finished(s)) && !has_stamp(lines::unfinished(s)) ==> every_line(s) == s,
{
    let all = lines::finished(s);
    let last = lines::unfinished(s);
    lines::finished_and_unfinished_are_all(s);
    lemma_bodies(all);
    lemma_stamp_has_no_newline(last);
    lines::count_adds(bodies(all, false), body_of(last, false), NL);
    lines::count_adds(all.flatten(), last, NL);
}

proof fn lemma_stamps_taken_off(logged: Seq<Seq<u8>>, all: Seq<Seq<u8>>, stamps: Seq<u64>)
    requires
        logged.len() == all.len() <= stamps.len(),
        forall|i: int|
            0 <= i < all.len() ==> #[trigger] logged[i] == pty::ms_prefix_bytes(stamps[i] as nat)
                + all[i],
    ensures
        bodies(logged, false) == all.flatten(),
    decreases all.len(),
{
    if all.len() > 0 {
        assert(logged[0] == pty::ms_prefix_bytes(stamps[0] as nat) + all[0]);
        pty::stamp_reads_back(stamps[0], all[0]);
        let left = stamps.skip(1);
        assert forall|i: int| 0 <= i < all.drop_first().len() implies #[trigger] logged.drop_first()[i]
            == pty::ms_prefix_bytes(left[i] as nat) + all.drop_first()[i] by {
            assert(logged.drop_first()[i] == logged[i + 1]);
        }
        lemma_stamps_taken_off(logged.drop_first(), all.drop_first(), left);
    }
}

/// Taking the stamps off a stamped log gives back what was written, byte for
/// byte.
pub proof fn stamps_come_off(s: Seq<u8>, stamps: Seq<u64>)
    requires
        pty::starts_in(true, s) <= stamps.len(),
    ensures
        every_line(pty::stamped(true, s, stamps)) == s,
{
    let t = pty::stamped(true, s, stamps);
    let n = lines::finished(s).len();
    let last = lines::unfinished(s);
    segments::stamped_lines_are_the_lines(s, stamps);
    segments::last_line_gets_a_stamp(s, stamps);
    lemma_stamps_taken_off(lines::finished(t), lines::finished(s), stamps);
    lines::finished_and_unfinished_are_all(s);
    if last.len() > 0 {
        pty::stamp_reads_back(stamps[n as int], last);
    }
}

/// Whether times never go back.
pub open spec fn never_back(stamps: Seq<u64>) -> bool {
    forall|i: int, j: int| 0 <= i <= j < stamps.len() ==> stamps[i] <= stamps[j]
}

/// The lines that were written at a time in a span, one after the other.
pub open spec fn written_in_span(
    all: Seq<Seq<u8>>,
    stamps: Seq<u64>,
    since: Option<u64>,
    until: Option<u64>,
) -> Seq<u8>
    decreases all.len(),
{
    if all.len() == 0 {
        Seq::empty()
    } else {
        (if in_span(stamps[0], since, until) {
            all[0]
        } else {
            Seq::empty()
        }) + written_in_span(all.drop_first(), stamps.skip(1), since, until)
    }
}

proof fn lemma_none_written(
    all: Seq<Seq<u8>>,
    stamps: Seq<u64>,
    since: Option<u64>,
    until: Option<u64>,
)
    requires
        all.len() <= stamps.len(),
        forall|i: int| 0 <= i < all.len() ==> !in_span(#[trigger] stamps[i], since, until),
    ensures
        written_in_span(all, stamps, since, until).len() == 0,
    decreases all.len(),
{
    if all.len() > 0 {
        let left = stamps.skip(1);
        assert forall|i: int| 0 <= i < all.drop_first().len() implies !in_span(
            #[trigger] left[i],
            since,
            until,
        ) by {
            assert(left[i] == stamps[i + 1]);
        }
        assert(!in_span(stamps[0], since, until));
        lemma_none_written(all.drop_first(), left, since, until);
    }
}

proof fn lemma_stamped_lines(
    logged: Seq<Seq<u8>>,
    all: Seq<Seq<u8>>,
    stamps: Seq<u64>,
    since: Option<u64>,
    until: Option<u64>,
)
    requires
        logged.len() == all.len() <= stamps.len(),
        forall|i: int|
            0 <= i < all.len() ==> #[trigger] logged[i] == pty::ms_prefix_bytes(stamps[i] as nat)
                + all[i],
        never_back(stamps),
    ensures
        window_of(logged, since, until, false).bytes == written_in_span(all, stamps, since, until),
    decreases all.len(),
{
    if all.len() > 0 {
        let left = stamps.skip(1);
        let w = window_of(logged, since, until, false);
        let more = written_in_span(all.drop_first(), left, since, until);
        assert(logged[0] == pty::ms_prefix_bytes(stamps[0] as nat) + all[0]);
        pty::stamp_reads_back(stamps[0], all[0]);
        assert(body_of(logged[0], false) == all[0]);
        assert forall|i: int| 0 <= i < all.drop_first().len() implies #[trigger] logged.drop_first()[i]
            == pty::ms_prefix_bytes(left[i] as nat) + all.drop_first()[i] by {
            assert(logged.drop_first()[i] == logged[i + 1]);
        }
        assert(never_back(left)) by {
            assert forall|i: int, j: int| 0 <= i <= j < left.len() implies left[i] <= left[j] by {
                assert(stamps[i + 1] <= stamps[j + 1]);
            }
        }
        lemma_stamped_lines(logged.drop_first(), all.drop_first(), left, since, until);
        if since matches Some(a) && stamps[0] < a {
            assert(w.bytes =~= Seq::<u8>::empty() + more);
        } else if until matches Some(b) && stamps[0] > b {
            assert forall|i: int| 0 <= i < all.drop_first().len() implies !in_span(
                #[trigger] left[i],
                since,
                until,
            ) by {
                assert(stamps[0] <= stamps[i + 1]);
            }
            lemma_none_written(all.drop_first(), left, since, until);
            assert(w.bytes =~= Seq::<u8>::empty() + more);
        } else {
            assert(w.bytes =~= all[0] + more);
        }
    }
}

/// Reading a span of time of a stamped log gives back the finished lines that
/// were written in that span, as they were written, in order, and nothing else,
/// as long as the clock never went back.
pub proof fn written_lines_read_back(
    s: Seq<u8>,
    stamps: Seq<u64>,
    since: Option<u64>,
    until: Option<u64>,
)
    requires
        pty::starts_in(true, s) <= stamps.len(),
        never_back(stamps),
    ensures
        window_of(lines::finished(pty::stamped(true, s, stamps)), since, until, false).bytes
            == written_in_span(lines::finished(s), stamps, since, until),
{
    segments::stamped_lines_are_the_lines(s, stamps);
    lemma_stamped_lines(
        lines::finished(pty::stamped(true, s, stamps)),
        lines::finished(s),
        stamps,
        since,
        until,
    );
}

/// The stamp of a line that was written at a time comes off, and nothing else; a
/// line without a stamp stays whole, and so does every line where stamps are kept.
pub proof fn only_the_stamp_comes_off(ms: u64, t: Seq<u8>, keep_stamps: bool)
    ensures
        body_of(pty::ms_prefix_bytes(ms as nat) + t, false) == t,
        t.len() == 0 || t[0] != 91 ==> body_of(t, false) == t,
        body_of(t, true) == t,
        line_in_span(pty::ms_prefix_bytes(ms as nat) + t, None, None),
        forall|since: u64| #[trigger]
            line_in_span(pty::ms_prefix_bytes(ms as nat) + t, Some(since), None) <==> since <= ms,
        forall|until: u64| #[trigger]
            line_in_span(pty::ms_prefix_bytes(ms as nat) + t, None, Some(until)) <==> ms <= until,
        forall|since: u64, until: u64| #[trigger]
            line_in_span(pty::ms_prefix_bytes(ms as nat) + t, Some(since), Some(until)) <==> since
                <= ms <= until,
        forall|since: Option<u64>, until: Option<u64>|
            t.len() == 0 || t[0] != 91 ==> !(#[trigger] line_in_span(t, since, until)),
        pty::ms_prefix_of(t) is None ==> body_of(t, false) == t && forall|
            since: Option<u64>,
            until: Option<u64>,
        | !(#[trigger] line_in_span(t, since, until)),
        pty::ms_prefix_of(t) matches Some(p) ==> body_of(t, false) == t.skip(p.1) && forall|
            since: u64,
            until: u64,
        | #[trigger] line_in_span(t, Some(since), Some(until)) <==> since <= p.0 <= until,
{
    pty::stamp_reads_back(ms, t);
    pty::other_lines_carry_no_stamp(t, 0);
}

/// Whether a log is stamped does not depend on the span: it is wherever a line that
/// is read carries a stamp.
pub proof fn any_stamped_line_makes_a_stamped_log(
    all: Seq<Seq<u8>>,
    since: Option<u64>,
    until: Option<u64>,
    keep_stamps: bool,
)
    ensures
        window_of(all, since, until, keep_stamps).stamped <==> exists|i: int|
            0 <= i < all.len() && #[trigger] pty::ms_prefix_of(all[i]) is Some,
    decreases all.len(),
{
    if all.len() > 0 {
        let rest = all.drop_first();
        any_stamped_line_makes_a_stamped_log(rest, since, until, keep_stamps);
        if pty::ms_prefix_of(all[0]) is None {
            if exists|i: int| 0 <= i < all.len() && #[trigger] pty::ms_prefix_of(all[i]) is Some {
                let i = choose|i: int|
                    0 <= i < all.len() && #[trigger] pty::ms_prefix_of(all[i]) is Some;
                assert(pty::ms_prefix_of(rest[i - 1]) is Some);
            }
            if exists|i: int| 0 <= i < rest.len() && #[trigger] pty::ms_prefix_of(rest[i]) is Some {
                let i = choose|i: int|
                    0 <= i < rest.len() && #[trigger] pty::ms_prefix_of(rest[i]) is Some;
                assert(pty::ms_prefix_of(all[i + 1]) is Some);
            }
        }
    }
}

/// What is selected and shown are the lines of the span, each once and in order.
pub proof fn lines_are_shown_one_by_one(
    all: Seq<Seq<u8>>,
    since: Option<u64>,
    until: Option<u64>,
    keep_stamps: bool,
)
    ensures
        bodies(all, keep_stamps) == all.map_values(
            |l: Seq<u8>| body_of(l, keep_stamps),
        ).flatten(),
        selected(all, since, until) == all.filter(|l: Seq<u8>| line_in_span(l, since, until)),
    decreases all.len(),
{
    let f = |l: Seq<u8>| body_of(l, keep_stamps);
    let p = |l: Seq<u8>| line_in_span(l, since, until);
    reveal(Seq::filter);
    if all.len() > 0 {
        let rest = all.drop_first();
        lines_are_shown_one_by_one(rest, since, until, keep_stamps);
        assert(all.map_values(f).drop_first() =~= rest.map_values(f));
        assert(all =~= seq![all[0]] + rest);
        Seq::filter_distributes_over_add(seq![all[0]], rest, p);
        assert(seq![all[0]].drop_last() =~= Seq::<Seq<u8>>::empty());
        assert(Seq::<Seq<u8>>::empty().filter(p) =~= Seq::<Seq<u8>>::empty());
        assert(seq![all[0]].filter(p) =~= if p(all[0]) {
            seq![all[0]]
        } else {
            Seq::empty()
        });
        assert(Seq::<Seq<u8>>::empty() + rest.filter(p) =~= rest.filter(p));
    } else {
        assert(all.filter(p) =~= Seq::<Seq<u8>>::empty());
    }
}

/// Taking the stamps off goes line by line.
pub proof fn stamps_come_off_line_by_line(t: Seq<u8>, rest: Seq<u8>)
    requires
        forall|i: int| 0 <= i < t.len() ==> t[i] != 10u8,
    ensures
        every_line(t.push(10u8) + rest) == body_of(t.push(10u8), false) + every_line(rest),
        every_line(t) == body_of(t, false),
{
    lines::first_line_comes_first(t, rest);
    let all = seq![t.push(10u8)] + lines::finished(rest);
    assert(all.drop_first() =~= lines::finished(rest));
    assert(every_line(t.push(10u8) + rest) =~= body_of(t.push(10u8), false) + every_line(rest));
    assert(lines::finished(t) =~= Seq::<Seq<u8>>::empty());
    assert(every_line(t) =~= body_of(t, false));
}

/// The first line behind the span ends the reading: what follows it is not looked at,
/// whatever its time.
pub proof fn the_first_later_line_ends_the_reading(
    x: Seq<Seq<u8>>,
    line: Seq<u8>,
    y: Seq<Seq<u8>>,
    since: Option<u64>,
    until: u64,
    keep_stamps: bool,
)
    requires
        pty::ms_prefix_of(line) matches Some(p) && p.0 > until && (since matches Some(s) ==> s
            <= p.0),
    ensures
        window_of(x + seq![line] + y, since, Some(until), keep_stamps).bytes == window_of(
            x,
            since,
            Some(until),
            keep_stamps,
        ).bytes,
        window_of(x + seq![line] + y, since, Some(until), keep_stamps).count == window_of(
            x,
            since,
            Some(until),
            keep_stamps,
        ).count,
    decreases x.len(),
{
    let all = x + seq![line] + y;
    if x.len() == 0 {
        assert(all[0] == line);
    } else {
        assert(all[0] == x[0]);
        assert(all.drop_first() =~= x.drop_first() + seq![line] + y);
        the_first_later_line_ends_the_reading(
            x.drop_first(),
            line,
            y,
            since,
            until,
            keep_stamps,
        );
    }
}

/// Without an end of the span, what is read of two parts of a log is read of each of
/// them.
pub proof fn open_spans_are_read_part_by_part(
    x: Seq<Seq<u8>>,
    y: Seq<Seq<u8>>,
    since: Option<u64>,
    keep_stamps: bool,
)
    ensures
        window_of(x + y, since, None, keep_stamps).bytes == window_of(
            x,
            since,
            None,
            keep_stamps,
        ).bytes + window_of(y, since, None, keep_stamps).bytes,
        window_of(x + y, since, None, keep_stamps).count == window_of(
            x,
            since,
            None,
            keep_stamps,
        ).count + window_of(y, since, None, keep_stamps).count,
    decreases x.len(),
{
    let all = x + y;
    if x.len() == 0 {
        assert(all =~= y);
        assert(Seq::<u8>::empty() + window_of(y, since, None, keep_stamps).bytes
            =~= window_of(y, since, None, keep_stamps).bytes);
    } else {
        assert(all[0] == x[0]);
        assert(all.drop_first() =~= x.drop_first() + y);
        open_spans_are_read_part_by_part(x.drop_first(), y, since, keep_stamps);
        let a = window_of(x.drop_first(), since, None, keep_stamps).bytes;
        let b = window_of(y, since, None, keep_stamps).bytes;
        assert(body_of(x[0], keep_stamps) + (a + b) =~= body_of(x[0], keep_stamps) + a + b);
    }
}

} // verus!
