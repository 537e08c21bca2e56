//! The files of a rotating log, and what the writer's steps make of them.

use vstd::prelude::*;
use vstd::string::*;

use crate::lines;
use crate::lines::NL;
use crate::pty;
use crate::pty::{LogStep, Limits};
use crate::text;
use crate::text::{concat3, decimal_text};

verus! {

// ---------------------------------------------------------------------
// The model: a current file and older segments, newest first
// ---------------------------------------------------------------------

/// The bytes of the current file and of the older segments, newest first.
pub struct Store {
    pub current: Seq<u8>,
    pub older: Seq<Seq<u8>>,
}

/// What a step makes of the files.
pub open spec fn step_store(max_segments: nat, store: Store, step: LogStep) -> Store {
    match step {
        LogStep::Append(b) => Store { current: store.current + b, older: store.older },
        LogStep::Rotate => {
            let all = seq![store.current] + store.older;
            Store {
                current: Seq::empty(),
                older: if all.len() > max_segments {
                    all.take(max_segments as int)
                } else {
                    all
                },
            }
        },
        LogStep::Line(_) => store,
    }
}

/// What steps make of the files.
pub open spec fn run_store(max_segments: nat, store: Store, steps: Seq<LogStep>) -> Store
    decreases steps.len(),
{
    if steps.len() == 0 {
        store
    } else {
        step_store(max_segments, run_store(max_segments, store, steps.drop_last()), steps.last())
    }
}

/// All bytes that the files hold, in the order they were written.
pub open spec fn held(store: Store) -> Seq<u8> {
    oldest_first(store.older) + store.current
}

/// The older segments one after the other, oldest first.
pub open spec fn oldest_first(older: Seq<Seq<u8>>) -> Seq<u8>
    decreases older.len(),
{
    if older.len() == 0 {
        Seq::empty()
    } else {
        oldest_first(older.drop_first()) + older[0]
    }
}

/// The bytes that steps append.
pub open spec fn appended(steps: Seq<LogStep>) -> Seq<u8>
    decreases steps.len(),
{
    if steps.len() == 0 {
        Seq::empty()
    } else {
        appended(steps.drop_last()) + match steps.last() {
            LogStep::Append(b) => b,
            _ => Seq::empty(),
        }
    }
}

/// No file holds more than the limits allow.
pub open spec fn within(limits: Limits, store: Store) -> bool {
    &&& store.current.len() <= limits.max_size
    &&& store.older.len() <= limits.max_segments
    &&& forall|i: int|
        0 <= i < store.older.len() ==> (#[trigger] store.older[i]).len() <= limits.max_size
}

/// Whether `a` is the end of `b`.
pub open spec fn is_end_of(a: Seq<u8>, b: Seq<u8>) -> bool {
    a.len() <= b.len() && b.skip(b.len() - a.len()) == a
}

// ---------------------------------------------------------------------
// Steps one after the other
// ---------------------------------------------------------------------

proof fn lemma_run_adds(n: nat, store: Store, a: Seq<LogStep>, b: Seq<LogStep>)
    ensures
        run_store(n, store, a + b) == run_store(n, run_store(n, store, a), b),
    decreases b.len(),
{
    if b.len() == 0 {
        assert(a + b =~= a);
    } else {
        lemma_run_adds(n, store, a, b.drop_last());
        assert((a + b).drop_last() =~= a + b.drop_last());
        assert((a + b).last() == b.last());
    }
}

proof fn lemma_appended_adds(a: Seq<LogStep>, b: Seq<LogStep>)
    ensures
        appended(a + b) == appended(a) + appended(b),
    decreases b.len(),
{
    if b.len() == 0 {
        assert(a + b =~= a);
        assert(appended(a) + appended(b) =~= appended(a));
    } else {
        lemma_appended_adds(a, b.drop_last());
        assert((a + b).drop_last() =~= a + b.drop_last());
        assert((a + b).last() == b.last());
        assert(appended(a + b) =~= appended(a) + appended(b));
    }
}

proof fn lemma_appended_one(step: LogStep)
    ensures
        appended(seq![step]) == match step {
            LogStep::Append(b) => b,
            _ => Seq::empty(),
        },
{
    assert(seq![step].drop_last() =~= Seq::<LogStep>::empty());
    assert(appended(Seq::<LogStep>::empty()) =~= Seq::<u8>::empty());
    assert(appended(seq![step]) =~= match step {
        LogStep::Append(b) => b,
        _ => Seq::empty(),
    });
}

proof fn lemma_run_one(n: nat, store: Store, step: LogStep)
    ensures
        run_store(n, store, seq![step]) == step_store(n, store, step),
{
    assert(seq![step].drop_last() =~= Seq::<LogStep>::empty());
    reveal_with_fuel(run_store, 2);
}

/// Writing a byte string appends exactly its bytes, whatever is rotated in
/// between.
pub proof fn raw_appends_all(limits: Limits, written: nat, s: Seq<u8>)
    ensures
        appended(pty::raw_steps(limits, written, s)) == s,
    decreases
            s.len(),
            (if written >= limits.max_size {
                1int
            } else {
                0int
            }),
{
    if s.len() == 0 {
        assert(appended(pty::raw_steps(limits, written, s)) =~= s);
    } else if !limits.rotating() {
        lemma_appended_one(LogStep::Append(s));
    } else if written >= limits.max_size {
        raw_appends_all(limits, 0, s);
        lemma_appended_one(LogStep::Rotate);
        lemma_appended_adds(seq![LogStep::Rotate], pty::raw_steps(limits, 0, s));
        assert(Seq::<u8>::empty() + s =~= s);
    } else {
        let n = pty::fits(limits, written, s.len());
        let front = seq![LogStep::Append(s.take(n as int))];
        lemma_appended_one(LogStep::Append(s.take(n as int)));
        assert(s.take(n as int) + s.skip(n as int) =~= s);
        if written + n >= limits.max_size {
            raw_appends_all(limits, 0, s.skip(n as int));
            lemma_appended_one(LogStep::Rotate);
            lemma_appended_adds(front, seq![LogStep::Rotate]);
            lemma_appended_adds(
                front + seq![LogStep::Rotate],
                pty::raw_steps(limits, 0, s.skip(n as int)),
            );
            assert(s.take(n as int) + Seq::<u8>::empty() =~= s.take(n as int));
        } else {
            raw_appends_all(limits, written + n, s.skip(n as int));
            lemma_appended_adds(front, pty::raw_steps(limits, written + n, s.skip(n as int)));
        }
    }
}

/// Writing with stamps appends the stamped text; writing without, the text
/// itself.
pub proof fn write_appends_all(
    limits: Limits,
    written: nat,
    timestamps: bool,
    at_line_start: bool,
    s: Seq<u8>,
    stamps: Seq<u64>,
)
    ensures
        appended(pty::write_steps(limits, written, timestamps, at_line_start, s, stamps)) == if timestamps {
            pty::stamped(at_line_start, s, stamps)
        } else {
            s
        },
    decreases s.len(),
{
    if !timestamps {
        raw_appends_all(limits, written, s);
    } else if s.len() == 0 {
        assert(appended(pty::stamped_steps(limits, written, at_line_start, s, stamps)) =~= Seq::<
            u8,
        >::empty());
    } else {
        pty::lemma_line_len(s);
        let n = pty::line_len(s);
        let stamp = pty::ms_prefix_bytes(stamps[0] as nat);
        let raw_stamp = pty::raw_steps(limits, written, stamp);
        let head = if at_line_start {
            raw_stamp.push(LogStep::Line(false))
        } else {
            Seq::empty()
        };
        let w = if at_line_start {
            pty::raw_end(limits, written, stamp)
        } else {
            written
        };
        let left = if at_line_start {
            stamps.skip(1)
        } else {
            stamps
        };
        let line = s.take(n);
        let raw_line = pty::raw_steps(limits, w, line);
        let body = if line.last() == NL {
            raw_line.push(LogStep::Line(true))
        } else {
            raw_line
        };
        let more = pty::stamped_steps(limits, pty::raw_end(limits, w, line), true, s.skip(n), left);
        raw_appends_all(limits, written, stamp);
        raw_appends_all(limits, w, line);
        lemma_appended_push_line(raw_stamp, false);
        lemma_appended_push_line(raw_line, true);
        write_appends_all(
            limits,
            pty::raw_end(limits, w, line),
            true,
            true,
            s.skip(n),
            left,
        );
        lemma_appended_adds(head, body);
        lemma_appended_adds(head + body, more);
        if at_line_start {
            assert(appended(head) == stamp);
        } else {
            assert(appended(head) =~= Seq::<u8>::empty());
        }
        assert(appended(body) == line);
        assert(appended(pty::stamped_steps(limits, written, at_line_start, s, stamps))
            == appended(head) + line + pty::stamped(true, s.skip(n), left));
    }
}

proof fn lemma_appended_push_line(steps: Seq<LogStep>, b: bool)
    ensures
        appended(steps.push(LogStep::Line(b))) == appended(steps),
{
    assert(steps.push(LogStep::Line(b)).drop_last() =~= steps);
    assert(appended(steps) + Seq::<u8>::empty() =~= appended(steps));
}

// ---------------------------------------------------------------------
// What the files hold
// ---------------------------------------------------------------------

/// Dropping the oldest segments leaves the end of what was held.
proof fn lemma_oldest_take(older: Seq<Seq<u8>>, n: int)
    requires
        0 <= n <= older.len(),
    ensures
        is_end_of(oldest_first(older.take(n)), oldest_first(older)),
    decreases older.len(),
{
    if older.len() == 0 || n == 0 {
        let a = oldest_first(older.take(n));
        let b = oldest_first(older);
        assert(older.take(n).len() == 0);
        assert(b.skip(b.len() - 0) =~= a);
    } else {
        lemma_oldest_take(older.drop_first(), n - 1);
        assert(older.take(n).drop_first() =~= older.drop_first().take(n - 1));
        assert(older.take(n)[0] == older[0]);
        lemma_end_of_extends(
            oldest_first(older.drop_first().take(n - 1)),
            oldest_first(older.drop_first()),
            older[0],
        );
    }
}

proof fn lemma_end_of_extends(a: Seq<u8>, b: Seq<u8>, c: Seq<u8>)
    requires
        is_end_of(a, b),
    ensures
        is_end_of(a + c, b + c),
{
    let k = b.len() - a.len();
    assert((b + c).skip(k) =~= b.skip(k) + c);
}

proof fn lemma_end_of_trans(a: Seq<u8>, b: Seq<u8>, c: Seq<u8>)
    requires
        is_end_of(a, b),
        is_end_of(b, c),
    ensures
        is_end_of(a, c),
{
    assert(c.skip(c.len() - a.len()) =~= b.skip(b.len() - a.len()));
}

proof fn lemma_step_holds_end(n: nat, store: Store, step: LogStep)
    requires
        n > 0,
    ensures
        is_end_of(
            held(step_store(n, store, step)),
            held(store) + match step {
                LogStep::Append(b) => b,
                _ => Seq::empty(),
            },
        ),
{
    let after = step_store(n, store, step);
    match step {
        LogStep::Append(b) => {
            assert(held(after) =~= held(store) + b);
            assert((held(store) + b).skip(0) =~= held(after));
        },
        LogStep::Rotate => {
            let all = seq![store.current] + store.older;
            assert(all.drop_first() =~= store.older);
            assert(oldest_first(all) == held(store));
            assert(held(store) + Seq::<u8>::empty() =~= held(store));
            assert(held(after) =~= oldest_first(after.older));
            if all.len() > n {
                lemma_oldest_take(all, n as int);
            } else {
                assert(held(store).skip(0) =~= held(store));
            }
        },
        LogStep::Line(_) => {
            assert(held(store) + Seq::<u8>::empty() =~= held(store));
            assert(held(store).skip(0) =~= held(store));
        },
    }
}

/// Whatever is rotated away, the files always hold the end of everything that
/// was ever written, in order and without a gap.
pub proof fn files_hold_the_end(max_segments: nat, store: Store, steps: Seq<LogStep>)
    requires
        max_segments > 0,
    ensures
        is_end_of(held(run_store(max_segments, store, steps)), held(store) + appended(steps)),
    decreases steps.len(),
{
    if steps.len() == 0 {
        assert(held(store) + appended(steps) =~= held(store));
        assert(held(store).skip(0) =~= held(store));
    } else {
        let front = steps.drop_last();
        files_hold_the_end(max_segments, store, front);
        let mid = run_store(max_segments, store, front);
        lemma_step_holds_end(max_segments, mid, steps.last());
        let b = match steps.last() {
            LogStep::Append(b) => b,
            _ => Seq::empty(),
        };
        lemma_end_of_extends(held(mid), held(store) + appended(front), b);
        lemma_end_of_trans(
            held(run_store(max_segments, store, steps)),
            held(mid) + b,
            held(store) + appended(front) + b,
        );
        assert(held(store) + appended(front) + b =~= held(store) + appended(steps));
    }
}

/// With rotation off, the current file grows by exactly what is written, and
/// no other file is touched.
pub proof fn unrotated_file_grows(limits: Limits, store: Store, written: nat, s: Seq<u8>)
    requires
        !limits.rotating(),
    ensures
        run_store(limits.max_segments, store, pty::raw_steps(limits, written, s)) == (Store {
            current: store.current + s,
            older: store.older,
        }),
{
    if s.len() == 0 {
        assert(store.current + s =~= store.current);
    } else {
        lemma_run_one(limits.max_segments, store, LogStep::Append(s));
    }
}

proof fn lemma_step_within(limits: Limits, store: Store, step: LogStep)
    requires
        limits.rotating(),
        within(limits, store),
        step matches LogStep::Append(b) ==> store.current.len() + b.len() <= limits.max_size,
    ensures
        within(limits, step_store(limits.max_segments, store, step)),
{
    let after = step_store(limits.max_segments, store, step);
    if step is Rotate {
        let all = seq![store.current] + store.older;
        assert forall|i: int| 0 <= i < after.older.len() implies (#[trigger] after.older[i]).len()
            <= limits.max_size by {
            assert(after.older[i] == all[i]);
            if i > 0 {
                assert(all[i] == store.older[i - 1]);
            }
        }
    }
}

/// Writing a byte string keeps every file within the limits, and the writer's
/// idea of the size of the current file right.
pub proof fn raw_stays_within(limits: Limits, store: Store, s: Seq<u8>)
    requires
        limits.rotating(),
        within(limits, store),
    ensures
        ({
            let after = run_store(
                limits.max_segments,
                store,
                pty::raw_steps(limits, store.current.len(), s),
            );
            &&& within(limits, after)
            &&& after.current.len() == pty::raw_end(limits, store.current.len(), s)
        }),
    decreases
            s.len(),
            (if store.current.len() >= limits.max_size {
                1int
            } else {
                0int
            }),
{
    let m = limits.max_segments;
    let written = store.current.len();
    if s.len() == 0 {
    } else if written >= limits.max_size {
        let next = step_store(m, store, LogStep::Rotate);
        lemma_step_within(limits, store, LogStep::Rotate);
        raw_stays_within(limits, next, s);
        lemma_run_one(m, store, LogStep::Rotate);
        lemma_run_adds(m, store, seq![LogStep::Rotate], pty::raw_steps(limits, 0, s));
    } else {
        let n = pty::fits(limits, written, s.len());
        let rest = s.skip(n as int);
        let step = LogStep::Append(s.take(n as int));
        let next = step_store(m, store, step);
        lemma_step_within(limits, store, step);
        lemma_run_one(m, store, step);
        if written + n >= limits.max_size {
            let last = step_store(m, next, LogStep::Rotate);
            lemma_step_within(limits, next, LogStep::Rotate);
            raw_stays_within(limits, last, rest);
            lemma_run_one(m, next, LogStep::Rotate);
            lemma_run_adds(m, store, seq![step], seq![LogStep::Rotate]);
            lemma_run_adds(
                m,
                store,
                seq![step] + seq![LogStep::Rotate],
                pty::raw_steps(limits, 0, rest),
            );
        } else {
            raw_stays_within(limits, next, rest);
            lemma_run_adds(m, store, seq![step], pty::raw_steps(limits, written + n, rest));
        }
    }
}

proof fn lemma_run_push_line(n: nat, store: Store, steps: Seq<LogStep>, b: bool)
    ensures
        run_store(n, store, steps.push(LogStep::Line(b))) == run_store(n, store, steps),
{
    assert(steps.push(LogStep::Line(b)).drop_last() =~= steps);
}

/// Every write, stamped or not, keeps every file within the limits: no file is
/// larger than `max_size`, and there are at most `max_segments` older ones.
pub proof fn write_stays_within(
    limits: Limits,
    store: Store,
    timestamps: bool,
    at_line_start: bool,
    s: Seq<u8>,
    stamps: Seq<u64>,
)
    requires
        limits.rotating(),
        within(limits, store),
    ensures
        within(
            limits,
            run_store(
                limits.max_segments,
                store,
                pty::write_steps(
                    limits,
                    store.current.len(),
                    timestamps,
                    at_line_start,
                    s,
                    stamps,
                ),
            ),
        ),
    decreases s.len(),
{
    let m = limits.max_segments;
    if !timestamps {
        raw_stays_within(limits, store, s);
    } else if s.len() > 0 {
        pty::lemma_line_len(s);
        let n = pty::line_len(s);
        let written = store.current.len();
        let stamp = pty::ms_prefix_bytes(stamps[0] as nat);
        let raw_stamp = pty::raw_steps(limits, written, stamp);
        let head = if at_line_start {
            raw_stamp.push(LogStep::Line(false))
        } else {
            Seq::empty()
        };
        let w = if at_line_start {
            pty::raw_end(limits, written, stamp)
        } else {
            written
        };
        let left = if at_line_start {
            stamps.skip(1)
        } else {
            stamps
        };
        let line = s.take(n);
        let raw_line = pty::raw_steps(limits, w, line);
        let body = if line.last() == NL {
            raw_line.push(LogStep::Line(true))
        } else {
            raw_line
        };
        let more = pty::stamped_steps(limits, pty::raw_end(limits, w, line), true, s.skip(n), left);
        raw_stays_within(limits, store, stamp);
        lemma_run_push_line(m, store, raw_stamp, false);
        let s1 = run_store(m, store, head);
        raw_stays_within(limits, s1, line);
        lemma_run_push_line(m, s1, raw_line, true);
        let s2 = run_store(m, s1, body);
        write_stays_within(limits, s2, true, true, s.skip(n), left);
        lemma_run_adds(m, store, head, body);
        lemma_run_adds(m, store, head + body, more);
    }
}

// ---------------------------------------------------------------------
// How full the files are
// ---------------------------------------------------------------------

/// The files that steps rotate out, newest first, dropped ones included.
pub open spec fn rotated_out(max_segments: nat, store: Store, steps: Seq<LogStep>) -> Seq<Seq<u8>>
    decreases steps.len(),
{
    if steps.len() == 0 {
        Seq::empty()
    } else {
        let front = rotated_out(max_segments, store, steps.drop_last());
        if steps.last() is Rotate {
            seq![run_store(max_segments, store, steps.drop_last()).current] + front
        } else {
            front
        }
    }
}

/// The first `n` segments, or all where there are fewer.
pub open spec fn newest(all: Seq<Seq<u8>>, n: nat) -> Seq<Seq<u8>> {
    if all.len() > n {
        all.take(n as int)
    } else {
        all
    }
}

/// The older segments behind steps are the files that were rotated out, in front
/// of those that were there, as many as are kept.
pub proof fn rotated_files_become_segments(max_segments: nat, store: Store, steps: Seq<LogStep>)
    requires
        store.older.len() <= max_segments,
    ensures
        run_store(max_segments, store, steps).older == newest(
            rotated_out(max_segments, store, steps) + store.older,
            max_segments,
        ),
        run_store(max_segments, store, steps).older.len() <= max_segments,
    decreases steps.len(),
{
    let n = max_segments;
    if steps.len() == 0 {
        assert(Seq::<Seq<u8>>::empty() + store.older =~= store.older);
    } else {
        let front = steps.drop_last();
        rotated_files_become_segments(n, store, front);
        if steps.last() is Rotate {
            let mid = run_store(n, store, front);
            let out = rotated_out(n, store, front) + store.older;
            let all = seq![mid.current] + mid.older;
            assert(rotated_out(n, store, steps) + store.older =~= seq![mid.current] + out);
            assert(newest(all, n) =~= newest(seq![mid.current] + out, n));
        }
    }
}

/// Whether steps leave room in the current file, and rotate out full files only.
/// The one exception is a current file that was too large to begin with.
pub open spec fn fills(limits: Limits, store: Store, steps: Seq<LogStep>) -> bool {
    let out = rotated_out(limits.max_segments, store, steps);
    &&& run_store(limits.max_segments, store, steps).current.len() < limits.max_size
    &&& forall|i: int|
        0 <= i < out.len() ==> (#[trigger] out[i]).len() == limits.max_size || (i == out.len() - 1
            && out[i] == store.current && store.current.len() > limits.max_size)
}

proof fn lemma_rotated_adds(n: nat, store: Store, a: Seq<LogStep>, b: Seq<LogStep>)
    ensures
        rotated_out(n, store, a + b) == rotated_out(n, run_store(n, store, a), b) + rotated_out(
            n,
            store,
            a,
        ),
    decreases b.len(),
{
    if b.len() == 0 {
        assert(a + b =~= a);
        assert(Seq::<Seq<u8>>::empty() + rotated_out(n, store, a) =~= rotated_out(n, store, a));
    } else {
        lemma_rotated_adds(n, store, a, b.drop_last());
        lemma_run_adds(n, store, a, b.drop_last());
        assert((a + b).drop_last() =~= a + b.drop_last());
        assert((a + b).last() == b.last());
        assert(rotated_out(n, store, a + b) =~= rotated_out(n, run_store(n, store, a), b)
            + rotated_out(n, store, a));
    }
}

proof fn lemma_rotated_one(n: nat, store: Store, step: LogStep)
    ensures
        rotated_out(n, store, seq![step]) == if step is Rotate {
            seq![store.current]
        } else {
            Seq::empty()
        },
{
    assert(seq![step].drop_last() =~= Seq::<LogStep>::empty());
    assert(run_store(n, store, Seq::<LogStep>::empty()) == store);
    assert(rotated_out(n, store, Seq::<LogStep>::empty()) =~= Seq::<Seq<u8>>::empty());
    assert(seq![store.current] + Seq::<Seq<u8>>::empty() =~= seq![store.current]);
}

proof fn lemma_fills_adds(limits: Limits, store: Store, a: Seq<LogStep>, b: Seq<LogStep>)
    requires
        fills(limits, store, a),
        fills(limits, run_store(limits.max_segments, store, a), b),
    ensures
        fills(limits, store, a + b),
{
    let n = limits.max_segments;
    let mid = run_store(n, store, a);
    lemma_rotated_adds(n, store, a, b);
    lemma_run_adds(n, store, a, b);
    let oa = rotated_out(n, store, a);
    let ob = rotated_out(n, mid, b);
    let out = rotated_out(n, store, a + b);
    assert forall|i: int| 0 <= i < out.len() implies (#[trigger] out[i]).len() == limits.max_size || (i
        == out.len() - 1 && out[i] == store.current && store.current.len() > limits.max_size) by {
        if i < ob.len() {
            assert(out[i] == ob[i]);
        } else {
            assert(out[i] == oa[i - ob.len()]);
        }
    }
}

proof fn lemma_fills_push_line(limits: Limits, store: Store, steps: Seq<LogStep>, b: bool)
    requires
        fills(limits, store, steps),
    ensures
        fills(limits, store, steps.push(LogStep::Line(b))),
{
    let more = steps.push(LogStep::Line(b));
    assert(more.drop_last() =~= steps);
    assert(more.last() == LogStep::Line(b));
    lemma_run_push_line(limits.max_segments, store, steps, b);
    assert(rotated_out(limits.max_segments, store, more) == rotated_out(
        limits.max_segments,
        store,
        steps,
    ));
}

/// Writing bytes leaves room in the current file, rotates out full files only,
/// and the writer's idea of the size of the current file is right.
pub proof fn raw_fills_files(limits: Limits, store: Store, s: Seq<u8>)
    requires
        limits.rotating(),
        s.len() > 0,
    ensures
        fills(limits, store, pty::raw_steps(limits, store.current.len(), s)),
        run_store(
            limits.max_segments,
            store,
            pty::raw_steps(limits, store.current.len(), s),
        ).current.len() == pty::raw_end(limits, store.current.len(), s),
    decreases
            s.len(),
            (if store.current.len() >= limits.max_size {
                1int
            } else {
                0int
            }),
{
    let m = limits.max_segments;
    let written = store.current.len();
    if written >= limits.max_size {
        let next = step_store(m, store, LogStep::Rotate);
        let rest = pty::raw_steps(limits, 0, s);
        raw_fills_files(limits, next, s);
        lemma_run_one(m, store, LogStep::Rotate);
        lemma_rotated_one(m, store, LogStep::Rotate);
        lemma_fills_adds(limits, store, seq![LogStep::Rotate], rest);
        lemma_run_adds(m, store, seq![LogStep::Rotate], rest);
    } else {
        let n = pty::fits(limits, written, s.len());
        let rest = s.skip(n as int);
        let step = LogStep::Append(s.take(n as int));
        let next = step_store(m, store, step);
        lemma_run_one(m, store, step);
        lemma_rotated_one(m, store, step);
        if written + n >= limits.max_size {
            let last = step_store(m, next, LogStep::Rotate);
            let two = seq![step] + seq![LogStep::Rotate];
            lemma_run_one(m, next, LogStep::Rotate);
            lemma_run_adds(m, store, seq![step], seq![LogStep::Rotate]);
            lemma_rotated_one(m, next, LogStep::Rotate);
            lemma_rotated_adds(m, store, seq![step], seq![LogStep::Rotate]);
            assert(rotated_out(m, store, two) =~= seq![next.current]);
            assert(fills(limits, store, two));
            let more = pty::raw_steps(limits, 0, rest);
            if rest.len() > 0 {
                raw_fills_files(limits, last, rest);
                lemma_fills_adds(limits, store, two, more);
                lemma_run_adds(m, store, two, more);
            } else {
                assert(two + more =~= two);
                assert(pty::raw_end(limits, 0, rest) == 0);
            }
        } else {
            assert(rest.len() == 0);
            assert(pty::raw_end(limits, written + n, rest) == written + n);
            assert(seq![step] + pty::raw_steps(limits, written + n, rest) =~= seq![step]);
            assert(fills(limits, store, seq![step]));
        }
    }
}

/// Every write of at least one byte, stamped or not, leaves room in the current
/// file, and rotates out files of exactly `max_size` bytes, but for a current
/// file that was larger to begin with.
pub proof fn write_fills_files(
    limits: Limits,
    store: Store,
    timestamps: bool,
    at_line_start: bool,
    s: Seq<u8>,
    stamps: Seq<u64>,
)
    requires
        limits.rotating(),
        s.len() > 0,
    ensures
        fills(
            limits,
            store,
            pty::write_steps(
                limits,
                store.current.len(),
                timestamps,
                at_line_start,
                s,
                stamps,
            ),
        ),
    decreases s.len(),
{
    let m = limits.max_segments;
    if !timestamps {
        raw_fills_files(limits, store, s);
    } else {
        pty::lemma_line_len(s);
        let n = pty::line_len(s);
        let written = store.current.len();
        let stamp = pty::ms_prefix_bytes(stamps[0] as nat);
        let raw_stamp = pty::raw_steps(limits, written, stamp);
        let head = if at_line_start {
            raw_stamp.push(LogStep::Line(false))
        } else {
            Seq::empty()
        };
        let w = if at_line_start {
            pty::raw_end(limits, written, stamp)
        } else {
            written
        };
        let left = stamps_left(at_line_start, stamps);
        let line = s.take(n);
        let raw_line = pty::raw_steps(limits, w, line);
        let body = if line.last() == NL {
            raw_line.push(LogStep::Line(true))
        } else {
            raw_line
        };
        let more = pty::stamped_steps(limits, pty::raw_end(limits, w, line), true, s.skip(n), left);
        pty::ms_prefix_bytes_shape(stamps[0] as nat);
        raw_fills_files(limits, store, stamp);
        lemma_run_push_line(m, store, raw_stamp, false);
        lemma_fills_push_line(limits, store, raw_stamp, false);
        let s1 = run_store(m, store, head);
        raw_fills_files(limits, s1, line);
        lemma_run_push_line(m, s1, raw_line, true);
        lemma_fills_push_line(limits, s1, raw_line, true);
        let s2 = run_store(m, s1, body);
        lemma_run_adds(m, store, head, body);
        if at_line_start {
            lemma_fills_adds(limits, store, head, body);
        } else {
            assert(head + body =~= body);
        }
        if s.skip(n).len() > 0 {
            write_fills_files(limits, s2, true, true, s.skip(n), left);
            lemma_fills_adds(limits, store, head + body, more);
        } else {
            assert(head + body + more =~= head + body);
        }
    }
}

// ---------------------------------------------------------------------
// Stamps
// ---------------------------------------------------------------------

/// The stamp in front of a line, and nothing where no line starts.
spec fn stamp_at(at_line_start: bool, stamps: Seq<u64>) -> Seq<u8> {
    if at_line_start {
        pty::ms_prefix_bytes(stamps[0] as nat)
    } else {
        Seq::empty()
    }
}

/// The stamps left behind the start of a line.
spec fn stamps_left(at_line_start: bool, stamps: Seq<u64>) -> Seq<u64> {
    if at_line_start {
        stamps.skip(1)
    } else {
        stamps
    }
}

proof fn lemma_unfold(at_line_start: bool, s: Seq<u8>, stamps: Seq<u64>)
    requires
        s.len() > 0,
    ensures
        pty::stamped(at_line_start, s, stamps) == stamp_at(at_line_start, stamps) + s.take(
            pty::line_len(s),
        ) + pty::stamped(true, s.skip(pty::line_len(s)), stamps_left(at_line_start, stamps)),
        pty::starts_in(at_line_start, s) == (if at_line_start {
            1nat
        } else {
            0nat
        }) + pty::starts_in(true, s.skip(pty::line_len(s))),
{
    pty::lemma_line_len(s);
}

/// The first line of a concatenation, where the first part holds a line feed.
proof fn lemma_cut_behind_line(a: Seq<u8>, b: Seq<u8>)
    requires
        a.len() > 0,
        lines::first_at(a, NL) < a.len(),
    ensures
        pty::line_len(a + b) == pty::line_len(a),
        (a + b).take(pty::line_len(a)) == a.take(pty::line_len(a)),
        (a + b).skip(pty::line_len(a)) == a.skip(pty::line_len(a)) + b,
        pty::line_start_after(true, a.skip(pty::line_len(a))) == pty::line_start_after(false, a),
{
    lines::first_at_is_first(a, NL);
    let k = lines::first_at(a, NL);
    assert forall|j: int| 0 <= j < k implies (a + b)[j] != NL by {
        assert((a + b)[j] == a[j]);
    }
    lines::first_at_unique(a + b, NL, k);
    let n = k + 1;
    assert((a + b).take(n) =~= a.take(n));
    assert((a + b).skip(n) =~= a.skip(n) + b);
    if a.skip(n).len() > 0 {
        assert(a.skip(n).last() == a.last());
    } else {
        assert(a.last() == a[k]);
    }
}

/// The first line of a concatenation, where the first part holds no line feed.
proof fn lemma_cut_inside_line(a: Seq<u8>, b: Seq<u8>)
    requires
        a.len() > 0,
        b.len() > 0,
        lines::first_at(a, NL) >= a.len(),
    ensures
        pty::line_len(a + b) == a.len() + pty::line_len(b),
        (a + b).take(a.len() + pty::line_len(b)) == a + b.take(pty::line_len(b)),
        (a + b).skip(a.len() + pty::line_len(b)) == b.skip(pty::line_len(b)),
{
    lines::first_at_is_first(a, NL);
    lines::first_at_is_first(b, NL);
    pty::lemma_line_len(b);
    let kb = lines::first_at(b, NL);
    assert forall|j: int| 0 <= j < a.len() + kb implies (a + b)[j] != NL by {
        if j < a.len() {
            assert((a + b)[j] == a[j]);
        } else {
            assert((a + b)[j] == b[j - a.len()]);
        }
    }
    if kb < b.len() {
        assert((a + b)[a.len() + kb] == b[kb]);
    }
    lines::first_at_unique(a + b, NL, a.len() + kb);
    let nb = pty::line_len(b);
    assert((a + b).take(a.len() + nb) =~= a + b.take(nb));
    assert((a + b).skip(a.len() + nb) =~= b.skip(nb));
}

proof fn lemma_stamps_behind_line(
    at_line_start: bool,
    a: Seq<u8>,
    b: Seq<u8>,
    stamps: Seq<u64>,
    sr: Seq<u8>,
    sb: Seq<u8>,
)
    requires
        a.len() > 0,
        lines::first_at(a, NL) < a.len(),
        sr == pty::stamped(true, a.skip(pty::line_len(a)), stamps_left(at_line_start, stamps)),
        pty::stamped(
            true,
            a.skip(pty::line_len(a)) + b,
            stamps_left(at_line_start, stamps),
        ) == sr + sb,
    ensures
        pty::stamped(at_line_start, a + b, stamps) == pty::stamped(at_line_start, a, stamps) + sb,
{
    let n = pty::line_len(a);
    let stamp = stamp_at(at_line_start, stamps);
    lemma_cut_behind_line(a, b);
    lemma_unfold(at_line_start, a, stamps);
    lemma_unfold(at_line_start, a + b, stamps);
    assert(stamp + a.take(n) + (sr + sb) =~= stamp + a.take(n) + sr + sb);
}

proof fn lemma_stamps_inside_line(
    at_line_start: bool,
    a: Seq<u8>,
    b: Seq<u8>,
    stamps: Seq<u64>,
)
    requires
        a.len() > 0,
        b.len() > 0,
        lines::first_at(a, NL) >= a.len(),
    ensures
        pty::stamped(at_line_start, a + b, stamps) == pty::stamped(at_line_start, a, stamps)
            + pty::stamped(false, b, stamps_left(at_line_start, stamps)),
        pty::starts_in(at_line_start, a + b) == pty::starts_in(at_line_start, a) + pty::starts_in(
            false,
            b,
        ),
{
    let stamp = stamp_at(at_line_start, stamps);
    let left = stamps_left(at_line_start, stamps);
    let n = pty::line_len(a);
    let nb = pty::line_len(b);
    lines::first_at_is_first(a, NL);
    lemma_cut_inside_line(a, b);
    lemma_unfold(at_line_start, a, stamps);
    lemma_unfold(at_line_start, a + b, stamps);
    lemma_unfold(false, b, left);
    assert(a.take(n) =~= a);
    assert(a.skip(n) =~= Seq::<u8>::empty());
    assert(pty::stamped(true, a.skip(n), left) =~= Seq::<u8>::empty());
    assert(pty::stamped(at_line_start, a, stamps) =~= stamp + a);
    let more = pty::stamped(true, b.skip(nb), left);
    assert(stamp + (a + b.take(nb)) + more =~= (stamp + a) + (Seq::<u8>::empty() + b.take(nb)
        + more));
}

/// A stream that is cut into two writes gets the same stamps as one that is
/// not: no line is stamped twice, and none is left out.
pub proof fn stamping_is_chunk_independent(
    at_line_start: bool,
    a: Seq<u8>,
    b: Seq<u8>,
    stamps: Seq<u64>,
)
    requires
        pty::starts_in(at_line_start, a) + pty::starts_in(
            pty::line_start_after(at_line_start, a),
            b,
        ) <= stamps.len(),
    ensures
        pty::starts_in(at_line_start, a + b) == pty::starts_in(at_line_start, a) + pty::starts_in(
            pty::line_start_after(at_line_start, a),
            b,
        ),
        pty::stamped(at_line_start, a + b, stamps) == pty::stamped(at_line_start, a, stamps)
            + pty::stamped(
            pty::line_start_after(at_line_start, a),
            b,
            stamps.skip(pty::starts_in(at_line_start, a) as int),
        ),
    decreases a.len(),
{
    let used = pty::starts_in(at_line_start, a) as int;
    let next = pty::line_start_after(at_line_start, a);
    let sa = pty::stamped(at_line_start, a, stamps);
    let sb = pty::stamped(next, b, stamps.skip(used));
    if a.len() == 0 {
        assert(a + b =~= b);
        assert(stamps.skip(0) =~= stamps);
        assert(sa + sb =~= sb);
    } else if lines::first_at(a, NL) < a.len() {
        let n = pty::line_len(a);
        let left = stamps_left(at_line_start, stamps);
        let rest = a.skip(n);
        pty::lemma_line_len(a);
        lemma_unfold(at_line_start, a, stamps);
        lemma_cut_behind_line(a, b);
        stamping_is_chunk_independent(true, rest, b, left);
        assert(left.skip(pty::starts_in(true, rest) as int) =~= stamps.skip(used));
        lemma_unfold(at_line_start, a + b, stamps);
        lemma_stamps_behind_line(
            at_line_start,
            a,
            b,
            stamps,
            pty::stamped(true, rest, left),
            sb,
        );
    } else {
        lines::first_at_is_first(a, NL);
        lemma_unfold(at_line_start, a, stamps);
        assert(a.last() == a[a.len() - 1]);
        assert(stamps_left(at_line_start, stamps) =~= stamps.skip(used));
        if b.len() == 0 {
            assert(a + b =~= a);
            assert(sa + sb =~= sa);
        } else {
            lemma_stamps_inside_line(at_line_start, a, b, stamps);
        }
    }
}

/// The stamps contain no line feed.
proof fn lemma_stamp_is_one_line(ms: nat)
    ensures
        forall|j: int|
            0 <= j < pty::ms_prefix_bytes(ms).len() ==> pty::ms_prefix_bytes(ms)[j] != NL,
{
    pty::ms_prefix_bytes_shape(ms);
    let d = text::decimal(ms);
    let p = pty::ms_prefix_bytes(ms);
    assert forall|j: int| 0 <= j < p.len() implies p[j] != NL by {
        if 1 <= j <= d.len() {
            assert(p[(j - 1) + 1] as char == d[j - 1]);
        }
    }
}

/// In a stamped log every finished line is its stamp followed by the line as
/// it was written, and nothing else.
pub proof fn stamped_lines_are_the_lines(s: Seq<u8>, stamps: Seq<u64>)
    requires
        pty::starts_in(true, s) <= stamps.len(),
    ensures
        lines::finished(pty::stamped(true, s, stamps)).len() == lines::finished(s).len(),
        lines::finished(s).len() <= stamps.len(),
        forall|i: int|
            0 <= i < lines::finished(s).len() ==> #[trigger] lines::finished(
                pty::stamped(true, s, stamps),
            )[i] == pty::ms_prefix_bytes(stamps[i] as nat) + lines::finished(s)[i],
    decreases s.len(),
{
    let t = pty::stamped(true, s, stamps);
    if s.len() > 0 {
        pty::lemma_line_len(s);
        lines::first_at_is_first(s, NL);
        let n = pty::line_len(s);
        let k = lines::first_at(s, NL);
        let p = pty::ms_prefix_bytes(stamps[0] as nat);
        lemma_stamp_is_one_line(stamps[0] as nat);
        let left = stamps.skip(1);
        let more = pty::stamped(true, s.skip(n), left);
        if k < s.len() {
            stamped_lines_are_the_lines(s.skip(n), left);
            assert(t == p + s.take(n) + more);
            assert forall|j: int| 0 <= j < p.len() + k implies t[j] != NL by {
                if j < p.len() {
                    assert(t[j] == p[j]);
                } else {
                    assert(t[j] == s[j - p.len()]);
                }
            }
            assert(t[p.len() + k] == s[k]);
            lines::first_at_unique(t, NL, p.len() + k);
            assert(t.take(p.len() + k + 1) =~= p + s.take(k + 1));
            assert(t.skip(p.len() + k + 1) =~= more);
            let fs = lines::finished(s);
            let ft = lines::finished(t);
            assert forall|i: int| 0 <= i < fs.len() implies #[trigger] ft[i] == pty::ms_prefix_bytes(
                stamps[i] as nat,
            ) + fs[i] by {
                if i > 0 {
                    assert(ft[i] == lines::finished(more)[i - 1]);
                    assert(fs[i] == lines::finished(s.skip(n))[i - 1]);
                    assert(left[i - 1] == stamps[i]);
                }
            }
        } else {
            assert(s.skip(n) =~= Seq::<u8>::empty());
            assert(more =~= Seq::<u8>::empty());
            assert(t =~= p + s);
            assert forall|j: int| 0 <= j < t.len() implies t[j] != NL by {
                if j < p.len() {
                    assert(t[j] == p[j]);
                } else {
                    assert(t[j] == s[j - p.len()]);
                }
            }
            lines::first_at_unique(t, NL, t.len() as int);
        }
    } else {
        lines::first_at_is_first(s, NL);
        lines::first_at_is_first(t, NL);
    }
}

// ---------------------------------------------------------------------
// What the writer remembers
// ---------------------------------------------------------------------

/// The size of the current file that the writer remembers behind steps.
pub open spec fn written_behind(written: u64, steps: Seq<LogStep>) -> u64
    decreases steps.len(),
{
    if steps.len() == 0 {
        written
    } else {
        pty::written_after(written_behind(written, steps.drop_last()), steps.last())
    }
}

/// Whether the writer stands at the start of a line behind steps.
pub open spec fn line_behind(at_line_start: bool, steps: Seq<LogStep>) -> bool
    decreases steps.len(),
{
    if steps.len() == 0 {
        at_line_start
    } else {
        pty::line_after(line_behind(at_line_start, steps.drop_last()), steps.last())
    }
}

/// A writer that commits every step always remembers the size of the current
/// file.
pub proof fn writer_remembers_the_size(max_segments: nat, store: Store, steps: Seq<LogStep>)
    requires
        store.current.len() + appended(steps).len() <= u64::MAX,
    ensures
        written_behind(store.current.len() as u64, steps) == run_store(
            max_segments,
            store,
            steps,
        ).current.len(),
        run_store(max_segments, store, steps).current.len() <= store.current.len() + appended(
            steps,
        ).len(),
    decreases steps.len(),
{
    if steps.len() > 0 {
        writer_remembers_the_size(max_segments, store, steps.drop_last());
    }
}

/// Writing bytes where files are rotated: the writer remembers the size of the
/// current file, which has room left; the files that are rotated out are full,
/// but for one that was too large to begin with; there are never more segments
/// than are kept; and the files hold the end of what they held before followed by
/// the bytes.
pub proof fn raw_writes_rotate_full_files(limits: Limits, store: Store, s: Seq<u8>)
    requires
        limits.rotating(),
        s.len() > 0,
        store.older.len() <= limits.max_segments,
        store.current.len() + s.len() <= u64::MAX,
    ensures
        ({
            let steps = pty::raw_steps(limits, store.current.len(), s);
            let after = run_store(limits.max_segments, store, steps);
            let out = rotated_out(limits.max_segments, store, steps);
            &&& written_behind(store.current.len() as u64, steps) == after.current.len()
            &&& after.current.len() < limits.max_size
            &&& forall|i: int|
                0 <= i < out.len() ==> (#[trigger] out[i]).len() == limits.max_size || (i
                    == out.len() - 1 && out[i] == store.current && store.current.len()
                    > limits.max_size)
            &&& after.older == newest(out + store.older, limits.max_segments)
            &&& after.older.len() <= limits.max_segments
            &&& is_end_of(held(after), held(store) + s)
        }),
{
    let steps = pty::raw_steps(limits, store.current.len(), s);
    raw_fills_files(limits, store, s);
    write_appends_all(limits, store.current.len(), false, true, s, Seq::empty());
    writer_remembers_the_size(limits.max_segments, store, steps);
    rotated_files_become_segments(limits.max_segments, store, steps);
    files_hold_the_end(limits.max_segments, store, steps);
}

proof fn lemma_line_adds(at: bool, a: Seq<LogStep>, b: Seq<LogStep>)
    ensures
        line_behind(at, a + b) == line_behind(line_behind(at, a), b),
    decreases b.len(),
{
    if b.len() == 0 {
        assert(a + b =~= a);
    } else {
        lemma_line_adds(at, a, b.drop_last());
        assert((a + b).drop_last() =~= a + b.drop_last());
        assert((a + b).last() == b.last());
    }
}

proof fn lemma_raw_keeps_line(limits: Limits, written: nat, s: Seq<u8>, at: bool)
    ensures
        line_behind(at, pty::raw_steps(limits, written, s)) == at,
        forall|i: int|
            0 <= i < pty::raw_steps(limits, written, s).len() ==> !(#[trigger] pty::raw_steps(
                limits,
                written,
                s,
            )[i] is Line),
    decreases
            s.len(),
            (if written >= limits.max_size {
                1int
            } else {
                0int
            }),
{
    let steps = pty::raw_steps(limits, written, s);
    if s.len() == 0 || !limits.rotating() {
    } else if written >= limits.max_size {
        lemma_raw_keeps_line(limits, 0, s, at);
    } else {
        let n = pty::fits(limits, written, s.len());
        if written + n >= limits.max_size {
            lemma_raw_keeps_line(limits, 0, s.skip(n as int), at);
        } else {
            lemma_raw_keeps_line(limits, written + n, s.skip(n as int), at);
        }
    }
    lemma_no_line(steps, at);
}

proof fn lemma_no_line(steps: Seq<LogStep>, at: bool)
    requires
        forall|i: int| 0 <= i < steps.len() ==> !(#[trigger] steps[i] is Line),
    ensures
        line_behind(at, steps) == at,
    decreases steps.len(),
{
    if steps.len() > 0 {
        assert forall|i: int| 0 <= i < steps.drop_last().len() implies !(#[trigger] steps.drop_last()[i] is Line) by {
            assert(steps.drop_last()[i] == steps[i]);
        }
        lemma_no_line(steps.drop_last(), at);
        assert(steps.last() == steps[steps.len() - 1]);
    }
}

/// A writer with stamps that commits every step of a write always remembers
/// whether the next byte starts a line.
pub proof fn writer_remembers_the_line(
    limits: Limits,
    written: nat,
    at_line_start: bool,
    s: Seq<u8>,
    stamps: Seq<u64>,
)
    ensures
        line_behind(
            at_line_start,
            pty::write_steps(limits, written, true, at_line_start, s, stamps),
        ) == pty::line_start_after(at_line_start, s),
    decreases s.len(),
{
    if s.len() > 0 {
        pty::lemma_line_len(s);
        lines::first_at_is_first(s, NL);
        let n = pty::line_len(s);
        let stamp = pty::ms_prefix_bytes(stamps[0] as nat);
        let raw_stamp = pty::raw_steps(limits, written, stamp);
        let head = if at_line_start {
            raw_stamp.push(LogStep::Line(false))
        } else {
            Seq::empty()
        };
        let w = if at_line_start {
            pty::raw_end(limits, written, stamp)
        } else {
            written
        };
        let left = stamps_left(at_line_start, stamps);
        let line = s.take(n);
        let raw_line = pty::raw_steps(limits, w, line);
        let body = if line.last() == NL {
            raw_line.push(LogStep::Line(true))
        } else {
            raw_line
        };
        let rest = s.skip(n);
        let more = pty::stamped_steps(limits, pty::raw_end(limits, w, line), true, rest, left);
        assert(raw_stamp.push(LogStep::Line(false)).drop_last() =~= raw_stamp);
        assert(raw_line.push(LogStep::Line(true)).drop_last() =~= raw_line);
        lemma_raw_keeps_line(limits, w, line, false);
        assert(line_behind(at_line_start, head) == false);
        assert(line_behind(false, body) == (line.last() == NL));
        lemma_line_adds(at_line_start, head, body);
        lemma_line_adds(at_line_start, head + body, more);
        if rest.len() > 0 {
            writer_remembers_the_line(limits, pty::raw_end(limits, w, line), true, rest, left);
            assert(line.last() == s[n - 1]);
            assert(rest.last() == s.last());
        } else {
            assert(line =~= s);
        }
    }
}

// ---------------------------------------------------------------------
// Any number of writes
// ---------------------------------------------------------------------

/// The unfinished line of a stamped log is its stamp followed by the line as it
/// was written, and a text has as many lines as start in it.
pub proof fn last_line_gets_a_stamp(s: Seq<u8>, stamps: Seq<u64>)
    requires
        pty::starts_in(true, s) <= stamps.len(),
    ensures
        lines::unfinished(pty::stamped(true, s, stamps)) == if lines::unfinished(s).len() > 0 {
            pty::ms_prefix_bytes(stamps[lines::finished(s).len() as int] as nat)
                + lines::unfinished(s)
        } else {
            Seq::empty()
        },
        pty::starts_in(true, s) == lines::all_lines(s).len(),
    decreases s.len(),
{
    let t = pty::stamped(true, s, stamps);
    if s.len() == 0 {
        assert(lines::first_at(s, NL) == 0);
        assert(lines::unfinished(t) =~= Seq::<u8>::empty());
    } else {
        pty::lemma_line_len(s);
        lines::first_at_is_first(s, NL);
        lemma_unfold(true, s, stamps);
        let n = pty::line_len(s);
        let k = lines::first_at(s, NL);
        let p = pty::ms_prefix_bytes(stamps[0] as nat);
        let left = stamps.skip(1);
        let more = pty::stamped(true, s.skip(n), left);
        lemma_stamp_is_one_line(stamps[0] as nat);
        if k < s.len() {
            last_line_gets_a_stamp(s.skip(n), left);
            assert forall|j: int| 0 <= j < p.len() + k implies t[j] != NL by {
                if j < p.len() {
                    assert(t[j] == p[j]);
                } else {
                    assert(t[j] == s[j - p.len()]);
                }
            }
            assert(t[p.len() + k] == s[k]);
            lines::first_at_unique(t, NL, p.len() + k);
            assert(t.skip(p.len() + k + 1) =~= more);
            let rest = lines::finished(s.skip(n));
            assert(lines::finished(s).len() == rest.len() + 1);
            if lines::unfinished(s).len() > 0 {
                assert(pty::starts_in(true, s.skip(n)) == rest.len() + 1);
                assert(left[rest.len() as int] == stamps[rest.len() as int + 1]);
            }
        } else {
            assert(s.take(n) =~= s);
            assert(s.skip(n) =~= Seq::<u8>::empty());
            assert(more =~= Seq::<u8>::empty());
            assert(t =~= p + s);
            assert forall|j: int| 0 <= j < t.len() implies t[j] != NL by {
                if j < p.len() {
                    assert(t[j] == p[j]);
                } else {
                    assert(t[j] == s[j - p.len()]);
                }
            }
            lines::first_at_unique(t, NL, t.len() as int);
        }
    }
}

/// A stamped log has exactly the lines of the text, the unfinished one at its
/// end included, each behind its own stamp.
pub proof fn every_line_gets_one_stamp(s: Seq<u8>, stamps: Seq<u64>)
    requires
        pty::starts_in(true, s) <= stamps.len(),
    ensures
        ({
            let logged = lines::all_lines(pty::stamped(true, s, stamps));
            let all = lines::all_lines(s);
            &&& logged.len() == all.len()
            &&& all.len() == pty::starts_in(true, s)
            &&& forall|i: int|
                0 <= i < all.len() ==> #[trigger] logged[i] == pty::ms_prefix_bytes(
                    stamps[i] as nat,
                ) + all[i]
        }),
        s.len() == 0 ==> pty::stamped(true, s, stamps).len() == 0,
{
    stamped_lines_are_the_lines(s, stamps);
    last_line_gets_a_stamp(s, stamps);
    let t = pty::stamped(true, s, stamps);
    let logged = lines::all_lines(t);
    let all = lines::all_lines(s);
    if lines::unfinished(s).len() > 0 {
        pty::ms_prefix_bytes_shape(stamps[lines::finished(s).len() as int] as nat);
    }
    assert forall|i: int| 0 <= i < all.len() implies #[trigger] logged[i] == pty::ms_prefix_bytes(
        stamps[i] as nat,
    ) + all[i] by {
        if i < lines::finished(s).len() {
            assert(lines::finished(t)[i] == pty::ms_prefix_bytes(stamps[i] as nat)
                + lines::finished(s)[i]);
        }
    }
}

/// The files of a log, and whether the next byte that is written starts a line.
pub struct LogFiles {
    pub store: Store,
    pub at_line_start: bool,
}

/// What one write makes of the files.
pub open spec fn write_one(
    limits: Limits,
    timestamps: bool,
    f: LogFiles,
    chunk: Seq<u8>,
    stamps: Seq<u64>,
) -> LogFiles {
    let steps = pty::write_steps(
        limits,
        f.store.current.len(),
        timestamps,
        f.at_line_start,
        chunk,
        stamps,
    );
    LogFiles {
        store: run_store(limits.max_segments, f.store, steps),
        at_line_start: line_behind(f.at_line_start, steps),
    }
}

/// What writes one after the other make of the files. Each write has as many
/// stamps as lines start in it.
pub open spec fn write_many(
    limits: Limits,
    timestamps: bool,
    f: LogFiles,
    chunks: Seq<Seq<u8>>,
    stamps: Seq<u64>,
) -> LogFiles
    decreases chunks.len(),
{
    if chunks.len() == 0 {
        f
    } else {
        write_many(
            limits,
            timestamps,
            write_one(
                limits,
                timestamps,
                f,
                chunks[0],
                stamps.take(pty::starts_in(f.at_line_start, chunks[0]) as int),
            ),
            chunks.drop_first(),
            stamps.skip(pty::starts_in(f.at_line_start, chunks[0]) as int),
        )
    }
}

/// The bytes that go to the log for a text.
pub open spec fn logged_text(
    timestamps: bool,
    at_line_start: bool,
    s: Seq<u8>,
    stamps: Seq<u64>,
) -> Seq<u8> {
    if timestamps {
        pty::stamped(at_line_start, s, stamps)
    } else {
        s
    }
}

/// A stamped text ends as the text does.
pub(crate) proof fn lemma_stamped_end(at_line_start: bool, s: Seq<u8>, stamps: Seq<u64>)
    requires
        s.len() > 0,
    ensures
        pty::stamped(at_line_start, s, stamps).len() >= s.len(),
        pty::stamped(at_line_start, s, stamps).last() == s.last(),
    decreases s.len(),
{
    pty::lemma_line_len(s);
    lemma_unfold(at_line_start, s, stamps);
    let n = pty::line_len(s);
    let rest = s.skip(n);
    if rest.len() > 0 {
        lemma_stamped_end(true, rest, stamps_left(at_line_start, stamps));
    }
}

/// Stamps that no line needs make no difference.
proof fn lemma_stamps_needed(at_line_start: bool, s: Seq<u8>, stamps: Seq<u64>)
    requires
        pty::starts_in(at_line_start, s) <= stamps.len(),
    ensures
        pty::stamped(at_line_start, s, stamps) == pty::stamped(
            at_line_start,
            s,
            stamps.take(pty::starts_in(at_line_start, s) as int),
        ),
    decreases s.len(),
{
    if s.len() > 0 {
        let n = pty::starts_in(at_line_start, s) as int;
        let rest = s.skip(pty::line_len(s));
        let left = stamps_left(at_line_start, stamps);
        pty::lemma_line_len(s);
        lemma_unfold(at_line_start, s, stamps);
        lemma_unfold(at_line_start, s, stamps.take(n));
        lemma_stamps_needed(true, rest, left);
        assert(left.take(pty::starts_in(true, rest) as int) =~= stamps_left(
            at_line_start,
            stamps.take(n),
        ));
    }
}

/// The lines that start in two parts are those that start in the whole.
pub(crate) proof fn lemma_starts_add(at_line_start: bool, a: Seq<u8>, b: Seq<u8>)
    ensures
        pty::starts_in(at_line_start, a + b) == pty::starts_in(at_line_start, a) + pty::starts_in(
            pty::line_start_after(at_line_start, a),
            b,
        ),
{
    let enough = pty::starts_in(at_line_start, a) + pty::starts_in(
        pty::line_start_after(at_line_start, a),
        b,
    );
    stamping_is_chunk_independent(at_line_start, a, b, Seq::new(enough, |i: int| 0u64));
}

proof fn lemma_first_chunk(
    limits: Limits,
    timestamps: bool,
    f: LogFiles,
    chunks: Seq<Seq<u8>>,
    stamps: Seq<u64>,
)
    requires
        chunks.len() > 0,
        timestamps ==> pty::starts_in(f.at_line_start, chunks.flatten()) <= stamps.len(),
    ensures
        ({
            let n = pty::starts_in(f.at_line_start, chunks[0]) as int;
            let next = write_one(limits, timestamps, f, chunks[0], stamps.take(n));
            let rest = chunks.drop_first().flatten();
            let left = stamps.skip(n);
            &&& timestamps ==> next.at_line_start == pty::line_start_after(
                f.at_line_start,
                chunks[0],
            )
            &&& timestamps ==> pty::starts_in(next.at_line_start, rest) <= left.len()
            &&& logged_text(timestamps, f.at_line_start, chunks.flatten(), stamps) == logged_text(
                timestamps,
                f.at_line_start,
                chunks[0],
                stamps.take(n),
            ) + logged_text(timestamps, next.at_line_start, rest, left)
        }),
{
    let at = f.at_line_start;
    let rest = chunks.drop_first().flatten();
    assert(chunks.flatten() == chunks[0] + rest);
    if timestamps {
        let own = stamps.take(pty::starts_in(at, chunks[0]) as int);
        writer_remembers_the_line(limits, f.store.current.len(), at, chunks[0], own);
        lemma_starts_add(at, chunks[0], rest);
        stamping_is_chunk_independent(at, chunks[0], rest, stamps);
        lemma_stamps_needed(at, chunks[0], stamps);
    }
}

/// However a stream is cut into writes, and whatever is rotated away, the files
/// hold the end of what they held before followed by the whole stream, stamped
/// as if it had been written at once.
pub proof fn writes_hold_the_end(
    limits: Limits,
    timestamps: bool,
    f: LogFiles,
    chunks: Seq<Seq<u8>>,
    stamps: Seq<u64>,
)
    requires
        limits.max_segments > 0,
        timestamps ==> pty::starts_in(f.at_line_start, chunks.flatten()) <= stamps.len(),
    ensures
        is_end_of(
            held(write_many(limits, timestamps, f, chunks, stamps).store),
            held(f.store) + logged_text(timestamps, f.at_line_start, chunks.flatten(), stamps),
        ),
    decreases chunks.len(),
{
    let at = f.at_line_start;
    if chunks.len() == 0 {
        assert(chunks.flatten() =~= Seq::<u8>::empty());
        assert(held(f.store) + Seq::<u8>::empty() =~= held(f.store));
        assert(held(f.store).skip(0) =~= held(f.store));
    } else {
        let n = pty::starts_in(at, chunks[0]) as int;
        let own = stamps.take(n);
        let left = stamps.skip(n);
        let next = write_one(limits, timestamps, f, chunks[0], own);
        let rest = chunks.drop_first();
        let written = f.store.current.len();
        let steps = pty::write_steps(limits, written, timestamps, at, chunks[0], own);
        let first = logged_text(timestamps, at, chunks[0], own);
        let more = logged_text(timestamps, next.at_line_start, rest.flatten(), left);
        lemma_first_chunk(limits, timestamps, f, chunks, stamps);
        write_appends_all(limits, written, timestamps, at, chunks[0], own);
        files_hold_the_end(limits.max_segments, f.store, steps);
        writes_hold_the_end(limits, timestamps, next, rest, left);
        lemma_end_of_extends(held(next.store), held(f.store) + first, more);
        lemma_end_of_trans(
            held(write_many(limits, timestamps, f, chunks, stamps).store),
            held(next.store) + more,
            held(f.store) + first + more,
        );
        assert(held(f.store) + first + more =~= held(f.store) + (first + more));
    }
}

proof fn lemma_unrotated_steps(
    limits: Limits,
    written: nat,
    timestamps: bool,
    at_line_start: bool,
    s: Seq<u8>,
    stamps: Seq<u64>,
)
    requires
        !limits.rotating(),
    ensures
        forall|i: int|
            #![trigger pty::write_steps(limits, written, timestamps, at_line_start, s, stamps)[i]]
            0 <= i < pty::write_steps(
                limits,
                written,
                timestamps,
                at_line_start,
                s,
                stamps,
            ).len() ==> !(pty::write_steps(
                limits,
                written,
                timestamps,
                at_line_start,
                s,
                stamps,
            )[i] is Rotate),
    decreases s.len(),
{
    if timestamps && s.len() > 0 {
        pty::lemma_line_len(s);
        let n = pty::line_len(s);
        lemma_unrotated_steps(limits, written, true, true, s.skip(n), stamps_left(
            at_line_start,
            stamps,
        ));
        let stamp = pty::ms_prefix_bytes(stamps[0] as nat);
        let head = if at_line_start {
            pty::raw_steps(limits, written, stamp).push(LogStep::Line(false))
        } else {
            Seq::empty()
        };
        let line = s.take(n);
        let raw_line = pty::raw_steps(limits, written, line);
        let body = if line.last() == NL {
            raw_line.push(LogStep::Line(true))
        } else {
            raw_line
        };
        let more = pty::stamped_steps(
            limits,
            written,
            true,
            s.skip(n),
            stamps_left(at_line_start, stamps),
        );
        let steps = pty::stamped_steps(limits, written, at_line_start, s, stamps);
        assert(steps == head + body + more);
        assert forall|i: int| 0 <= i < steps.len() implies !(#[trigger] steps[i] is Rotate) by {
            if i < head.len() {
                assert(steps[i] == head[i]);
            } else if i < head.len() + body.len() {
                assert(steps[i] == body[i - head.len()]);
            } else {
                assert(steps[i] == more[i - head.len() - body.len()]);
                assert(more == pty::write_steps(
                    limits,
                    written,
                    true,
                    true,
                    s.skip(n),
                    stamps_left(at_line_start, stamps),
                ));
            }
        }
    }
}

proof fn lemma_run_unrotated(n: nat, store: Store, steps: Seq<LogStep>)
    requires
        forall|i: int| 0 <= i < steps.len() ==> !(#[trigger] steps[i] is Rotate),
    ensures
        run_store(n, store, steps) == (Store {
            current: store.current + appended(steps),
            older: store.older,
        }),
    decreases steps.len(),
{
    if steps.len() == 0 {
        assert(store.current + appended(steps) =~= store.current);
    } else {
        let front = steps.drop_last();
        assert forall|i: int| 0 <= i < front.len() implies !(#[trigger] front[i] is Rotate) by {
            assert(front[i] == steps[i]);
        }
        lemma_run_unrotated(n, store, front);
        assert(steps.last() == steps[steps.len() - 1]);
        assert(run_store(n, store, steps).current =~= store.current + appended(steps));
    }
}

/// With rotation off, the current file grows by the whole stream, stamped as if
/// it had been written at once, however it is cut into writes.
pub proof fn unrotated_writes_append_the_stream(
    limits: Limits,
    timestamps: bool,
    f: LogFiles,
    chunks: Seq<Seq<u8>>,
    stamps: Seq<u64>,
)
    requires
        !limits.rotating(),
        timestamps ==> pty::starts_in(f.at_line_start, chunks.flatten()) <= stamps.len(),
    ensures
        write_many(limits, timestamps, f, chunks, stamps).store == (Store {
            current: f.store.current + logged_text(
                timestamps,
                f.at_line_start,
                chunks.flatten(),
                stamps,
            ),
            older: f.store.older,
        }),
    decreases chunks.len(),
{
    let at = f.at_line_start;
    if chunks.len() == 0 {
        assert(chunks.flatten() =~= Seq::<u8>::empty());
        assert(f.store.current + Seq::<u8>::empty() =~= f.store.current);
    } else {
        let n = pty::starts_in(at, chunks[0]) as int;
        let own = stamps.take(n);
        let left = stamps.skip(n);
        let next = write_one(limits, timestamps, f, chunks[0], own);
        let rest = chunks.drop_first();
        let written = f.store.current.len();
        let steps = pty::write_steps(limits, written, timestamps, at, chunks[0], own);
        let first = logged_text(timestamps, at, chunks[0], own);
        let more = logged_text(timestamps, next.at_line_start, rest.flatten(), left);
        lemma_first_chunk(limits, timestamps, f, chunks, stamps);
        write_appends_all(limits, written, timestamps, at, chunks[0], own);
        lemma_unrotated_steps(limits, written, timestamps, at, chunks[0], own);
        lemma_run_unrotated(limits.max_segments, f.store, steps);
        unrotated_writes_append_the_stream(limits, timestamps, next, rest, left);
        assert(f.store.current + first + more =~= f.store.current + (first + more));
    }
}

/// A new log with stamps and without rotation has exactly the lines of the
/// stream, the unfinished one at its end included, each behind one stamp,
/// however the stream was cut into writes.
pub proof fn new_log_is_the_stamped_stream(
    limits: Limits,
    chunks: Seq<Seq<u8>>,
    stamps: Seq<u64>,
)
    requires
        !limits.rotating(),
        pty::starts_in(true, chunks.flatten()) <= stamps.len(),
    ensures
        ({
            let f = LogFiles {
                store: Store { current: Seq::empty(), older: Seq::empty() },
                at_line_start: true,
            };
            let file = write_many(limits, true, f, chunks, stamps).store.current;
            let all = lines::all_lines(chunks.flatten());
            &&& lines::all_lines(file).len() == all.len()
            &&& forall|i: int|
                0 <= i < all.len() ==> #[trigger] lines::all_lines(file)[i] == pty::ms_prefix_bytes(
                    stamps[i] as nat,
                ) + all[i]
            &&& chunks.flatten().len() == 0 ==> file.len() == 0
        }),
{
    let f = LogFiles {
        store: Store { current: Seq::empty(), older: Seq::empty() },
        at_line_start: true,
    };
    let file = write_many(limits, true, f, chunks, stamps).store.current;
    unrotated_writes_append_the_stream(limits, true, f, chunks, stamps);
    assert(file =~= pty::stamped(true, chunks.flatten(), stamps));
    every_line_gets_one_stamp(chunks.flatten(), stamps);
}

// ---------------------------------------------------------------------
// Rotation on disk
// ---------------------------------------------------------------------

/// One thing to do to the directory that holds the files.
pub enum FileMove {
    /// Remove a file, if it is there.
    Remove(String),
    /// Rename a file, if it is there. Whether it must succeed.
    Rename { from: String, to: String, required: bool },
}

/// What a `FileMove` holds.
pub enum MoveStep {
    Remove(Seq<char>),
    Rename { from: Seq<char>, to: Seq<char>, required: bool },
}

impl View for FileMove {
    type V = MoveStep;

    open spec fn view(&self) -> MoveStep {
        match *self {
            FileMove::Remove(p) => MoveStep::Remove(p@),
            FileMove::Rename { from, to, required } => MoveStep::Rename {
                from: from@,
                to: to@,
                required,
            },
        }
    }
}

/// What a list of moves holds.
pub open spec fn moves_of(moves: Seq<FileMove>) -> Seq<MoveStep> {
    moves.map_values(|m: FileMove| m@)
}

/// The name of a numbered segment: the path, a dot and the number.
pub open spec fn numbered(path: Seq<char>, n: nat) -> Seq<char> {
    path + seq!['.'] + text::decimal(n)
}

/// The move of segment `i` one up.
pub open spec fn shift_step(path: Seq<char>, i: nat) -> MoveStep {
    MoveStep::Rename { from: numbered(path, i), to: numbered(path, i + 1), required: false }
}

/// The moves of segments `n - 1` down to 1, in this order.
pub open spec fn shift_steps(path: Seq<char>, n: nat) -> Seq<MoveStep> {
    Seq::new((n - 1) as nat, |j: int| shift_step(path, (n - 1 - j) as nat))
}

/// The moves of a rotation: the oldest segment goes, each other one moves up,
/// and the current file becomes segment 1.
pub open spec fn rotate_steps(path: Seq<char>, n: nat) -> Seq<MoveStep> {
    seq![MoveStep::Remove(numbered(path, n))] + shift_steps(path, n) + seq![
        MoveStep::Rename { from: path, to: numbered(path, 1), required: true },
    ]
}

/// The path of a numbered segment.
pub fn numbered_path(path: &str, n: usize) -> (r: String)
    ensures
        r@ == numbered(path@, n as nat),
{
    let d = decimal_text(n as u64);
    proof {
        reveal_strlit(".");
    }
    let r = concat3(path, ".", d.as_str());
    assert("."@ =~= seq!['.']);
    r
}

/// The moves of a rotation that keeps `max_segments` older segments.
pub fn rotation(path: &str, max_segments: usize) -> (r: Vec<FileMove>)
    requires
        max_segments > 0,
    ensures
        moves_of(r@) == rotate_steps(path@, max_segments as nat),
{
    let ghost n = max_segments as nat;
    let mut out: Vec<FileMove> = Vec::new();
    out.push(FileMove::Remove(numbered_path(path, max_segments)));
    let mut i: usize = max_segments - 1;
    assert(moves_of(out@) =~= seq![MoveStep::Remove(numbered(path@, n))] + shift_steps(
        path@,
        n,
    ).take(0));
    while i > 0
        invariant
            i < max_segments,
            n == max_segments as nat,
            moves_of(out@) == seq![MoveStep::Remove(numbered(path@, n))] + shift_steps(
                path@,
                n,
            ).take(n - 1 - i),
        decreases i,
    {
        let ghost before = out@;
        out.push(
            FileMove::Rename {
                from: numbered_path(path, i),
                to: numbered_path(path, i + 1),
                required: false,
            },
        );
        assert(moves_of(out@) =~= moves_of(before).push(shift_step(path@, i as nat)));
        assert(shift_steps(path@, n).take(n - i) =~= shift_steps(path@, n).take(n - 1 - i).push(
            shift_step(path@, i as nat),
        ));
        assert(moves_of(out@) =~= seq![MoveStep::Remove(numbered(path@, n))] + shift_steps(
            path@,
            n,
        ).take(n - i));
        i -= 1;
    }
    let ghost before = out@;
    out.push(
        FileMove::Rename { from: path.to_owned(), to: numbered_path(path, 1), required: true },
    );
    assert(moves_of(out@) =~= moves_of(before).push(
        MoveStep::Rename { from: path@, to: numbered(path@, 1), required: true },
    ));
    assert(shift_steps(path@, n).take(n - 1) =~= shift_steps(path@, n));
    assert(moves_of(out@) =~= rotate_steps(path@, n));
    out
}

/// What a move makes of a directory, as a map from names to contents.
pub open spec fn move_file(dir: Map<Seq<char>, Seq<u8>>, step: MoveStep) -> Map<
    Seq<char>,
    Seq<u8>,
> {
    match step {
        MoveStep::Remove(p) => dir.remove(p),
        MoveStep::Rename { from, to, .. } => if dir.contains_key(from) {
            dir.remove(from).insert(to, dir[from])
        } else {
            dir
        },
    }
}

/// What moves make of a directory.
pub open spec fn move_files(dir: Map<Seq<char>, Seq<u8>>, steps: Seq<MoveStep>) -> Map<
    Seq<char>,
    Seq<u8>,
>
    decreases steps.len(),
{
    if steps.len() == 0 {
        dir
    } else {
        move_file(move_files(dir, steps.drop_last()), steps.last())
    }
}

/// What a name stands for in a directory, if anything.
pub open spec fn lookup(dir: Map<Seq<char>, Seq<u8>>, name: Seq<char>) -> Option<Seq<u8>> {
    if dir.contains_key(name) {
        Some(dir[name])
    } else {
        None
    }
}

/// Different numbers give different segment names, and none is the path.
pub proof fn numbered_is_distinct(path: Seq<char>, i: nat, j: nat)
    requires
        i != j,
    ensures
        numbered(path, i) != numbered(path, j),
        numbered(path, i) != path,
{
    assert(numbered(path, i).len() > path.len());
    if numbered(path, i) == numbered(path, j) {
        let k = path.len() as int + 1;
        assert(numbered(path, i).skip(k) =~= text::decimal(i));
        assert(numbered(path, j).skip(k) =~= text::decimal(j));
        text::decimal_reads_back(i);
        text::decimal_reads_back(j);
    }
}

/// The directory after the oldest segment is gone and segments down to `i + 1`
/// have moved up.
proof fn lemma_shift(dir: Map<Seq<char>, Seq<u8>>, path: Seq<char>, n: nat, done: int)
    requires
        n > 0,
        0 <= done <= n - 1,
        lookup(dir, numbered(path, n)) is None,
    ensures
        ({
            let after = move_files(dir, shift_steps(path, n).take(done));
            &&& forall|k: nat|
                n - done <= k < n ==> lookup(after, #[trigger] numbered(path, k + 1)) == lookup(
                    dir,
                    numbered(path, k),
                )
            &&& lookup(after, numbered(path, (n - done) as nat)) is None
            &&& forall|name: Seq<char>|
                (forall|k: nat| n - done <= k <= n ==> name != #[trigger] numbered(path, k))
                    ==> #[trigger] lookup(after, name) == lookup(dir, name)
        }),
    decreases done,
{
    let steps = shift_steps(path, n).take(done);
    let after = move_files(dir, steps);
    if done > 0 {
        let front = shift_steps(path, n).take(done - 1);
        lemma_shift(dir, path, n, done - 1);
        assert(steps.drop_last() =~= front);
        let mid = move_files(dir, front);
        let i = (n - done) as nat;
        assert(steps.last() == shift_step(path, i));
        let from = numbered(path, i);
        let to = numbered(path, i + 1);
        numbered_is_distinct(path, i, i + 1);
        assert(forall|k: nat| n - (done - 1) <= k <= n ==> from != #[trigger] numbered(path, k)) by {
            assert forall|k: nat| n - (done - 1) <= k <= n implies from != #[trigger] numbered(
                path,
                k,
            ) by {
                numbered_is_distinct(path, i, k);
            }
        }
        assert(lookup(mid, from) == lookup(dir, from));
        assert(lookup(mid, to) is None);
        assert(lookup(after, to) == lookup(dir, from));
        assert(lookup(after, from) is None);
        assert forall|k: nat| n - done <= k < n implies lookup(after, #[trigger] numbered(path, k + 1))
            == lookup(dir, numbered(path, k)) by {
            if k > i {
                numbered_is_distinct(path, k + 1, i);
                numbered_is_distinct(path, k + 1, i + 1);
                assert(lookup(after, numbered(path, k + 1)) == lookup(mid, numbered(path, k + 1)));
            }
        }
        assert forall|name: Seq<char>|
            (forall|k: nat| n - done <= k <= n ==> name != #[trigger] numbered(path, k)) implies #[trigger] lookup(
            after,
            name,
        ) == lookup(dir, name) by {
            assert(name != from);
            assert(name != to);
            assert(lookup(after, name) == lookup(mid, name));
        }
    } else {
        assert(steps =~= Seq::<MoveStep>::empty());
    }
}

/// A rotation on disk moves every segment one up: the current file becomes
/// segment 1, segment `k` becomes segment `k + 1`, what was the last segment
/// is gone, and no other file is touched.
pub proof fn rotation_shifts_segments(dir: Map<Seq<char>, Seq<u8>>, path: Seq<char>, n: nat)
    requires
        n > 0,
    ensures
        ({
            let after = move_files(dir, rotate_steps(path, n));
            &&& lookup(after, path) is None
            &&& lookup(dir, path) is Some ==> lookup(after, numbered(path, 1)) == lookup(dir, path)
            &&& forall|k: nat|
                1 <= k < n ==> lookup(after, #[trigger] numbered(path, k + 1)) == lookup(
                    dir,
                    numbered(path, k),
                )
            &&& forall|name: Seq<char>|
                name != path && (forall|k: nat| 1 <= k <= n ==> name != #[trigger] numbered(path, k))
                    ==> #[trigger] lookup(after, name) == lookup(dir, name)
        }),
{
    let removed = seq![MoveStep::Remove(numbered(path, n))];
    let last = MoveStep::Rename { from: path, to: numbered(path, 1), required: true };
    let d1 = dir.remove(numbered(path, n));
    assert(removed.drop_last() =~= Seq::<MoveStep>::empty());
    reveal_with_fuel(move_files, 2);
    assert(move_files(dir, removed) == d1);
    let shifts = shift_steps(path, n);
    lemma_move_adds(dir, removed, shifts);
    assert(shifts.take(n - 1) =~= shifts);
    lemma_shift(d1, path, n, n - 1);
    let d2 = move_files(d1, shifts);
    let all = rotate_steps(path, n);
    assert(all.drop_last() =~= removed + shifts);
    assert(all.last() == last);
    let after = move_files(dir, all);
    assert(after == move_file(d2, last));
    assert(forall|k: nat| 1 <= k <= n ==> path != #[trigger] numbered(path, k)) by {
        assert forall|k: nat| 1 <= k <= n implies path != #[trigger] numbered(path, k) by {
            numbered_is_distinct(path, k, k + 1);
        }
    }
    assert(lookup(d2, path) == lookup(dir, path));
    assert forall|k: nat| 1 <= k < n implies lookup(after, #[trigger] numbered(path, k + 1))
        == lookup(dir, numbered(path, k)) by {
        numbered_is_distinct(path, k + 1, 1);
        numbered_is_distinct(path, k, n);
        assert(lookup(after, numbered(path, k + 1)) == lookup(d2, numbered(path, k + 1)));
        assert(lookup(d1, numbered(path, k)) == lookup(dir, numbered(path, k)));
    }
    assert forall|name: Seq<char>|
        name != path && (forall|k: nat| 1 <= k <= n ==> name != #[trigger] numbered(path, k)) implies #[trigger] lookup(
        after,
        name,
    ) == lookup(dir, name) by {
        assert(name != numbered(path, 1));
        assert(name != numbered(path, n));
        assert(lookup(after, name) == lookup(d2, name));
        assert(lookup(d1, name) == lookup(dir, name));
    }
}

proof fn lemma_move_adds(dir: Map<Seq<char>, Seq<u8>>, a: Seq<MoveStep>, b: Seq<MoveStep>)
    ensures
        move_files(dir, a + b) == move_files(move_files(dir, a), b),
    decreases b.len(),
{
    if b.len() == 0 {
        assert(a + b =~= a);
    } else {
        lemma_move_adds(dir, a, b.drop_last());
        assert((a + b).drop_last() =~= a + b.drop_last());
        assert((a + b).last() == b.last());
    }
}

/// A numbered segment has the path of the log, a dot and its number for a name, and
/// only the move of the log itself has to succeed.
pub proof fn only_the_log_has_to_be_there(path: Seq<char>, n: nat)
    requires
        n > 0,
    ensures
        numbered(path, n) == path + "."@ + text::decimal(n),
        rotate_steps(path, n).len() == n + 1,
        rotate_steps(path, n)[0] == MoveStep::Remove(path + "."@ + text::decimal(n)),
        forall|i: int|
            1 <= i < n ==> #[trigger] rotate_steps(path, n)[i] == (MoveStep::Rename {
                from: path + "."@ + text::decimal((n - i) as nat),
                to: path + "."@ + text::decimal((n - i + 1) as nat),
                required: false,
            }),
        rotate_steps(path, n)[n as int] == (MoveStep::Rename {
            from: path,
            to: path + ".1"@,
            required: true,
        }),
{
    reveal_strlit(".");
    reveal_strlit(".1");
    assert("."@ =~= seq!['.']);
    text::decimal_is_the_shortest_text(1);
    assert(text::decimal(1) =~= seq!['1']) by {
        reveal_with_fuel(text::decimal, 2);
    }
    assert(path + seq!['.'] + seq!['1'] =~= path + ".1"@);
    assert(shift_steps(path, n).len() == n - 1);
}

} // verus!
