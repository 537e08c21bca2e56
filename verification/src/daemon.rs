//! The manager of one subprocess: its counters, its replies, and the decisions
//! of its main loop.

use vstd::prelude::*;
use vstd::string::*;

use crate::ipc;
use crate::ipc::{signal_named, signal_number, Request, Signal};
use crate::lines;
use crate::lines::count_newlines;
use crate::text;
use crate::text::{concat2, parse_unsigned, quoted, same_text, trim};

verus! {

/// How long a manager stays after its subprocess has ended, so that the exit
/// code can still be asked for.
pub const POST_EXIT_LINGER_MS: u64 = 2000;

/// How long a subprocess has between the signal to terminate and the one that
/// kills it.
pub const CHILD_KILL_GRACE_MS: u64 = 200;

/// How long a manager that was asked to close goes on after its answer.
pub const CLOSE_DELAY_MS: u64 = 50;

// ---------------------------------------------------------------------
// Counters
// ---------------------------------------------------------------------

/// What was written to the log so far.
#[derive(Clone, Copy, PartialEq, Eq, Structural)]
pub struct DaemonCounters {
    pub line_count: u64,
    /// When the last line was finished, in milliseconds since the epoch; zero
    /// where none was.
    pub last_line_at_ms: u64,
    pub bytes_written: u64,
}

/// A sum that wraps around.
pub open spec fn wrapping_sum(a: u64, b: nat) -> u64 {
    if a + b > u64::MAX {
        (a + b - u64::MAX - 1) as u64
    } else {
        (a + b) as u64
    }
}

impl Default for DaemonCounters {
    /// Nothing was written.
    fn default() -> (r: Self)
        ensures
            r == (DaemonCounters { line_count: 0, last_line_at_ms: 0, bytes_written: 0 }),
    {
        DaemonCounters { line_count: 0, last_line_at_ms: 0, bytes_written: 0 }
    }
}

impl DaemonCounters {
    /// Counts a chunk that was written at a time. The time is kept only where
    /// the chunk finishes a line.
    pub fn record(&mut self, chunk: &[u8], now_ms: u64)
        ensures
            *final(self) == recorded(*old(self), chunk@, now_ms),
    {
        let n: u64 = count_newlines(chunk);
        if n > 0 {
            self.line_count = self.line_count.wrapping_add(n);
            self.last_line_at_ms = now_ms;
        }
        let len: u64 = chunk.len() as u64;
        self.bytes_written = self.bytes_written.wrapping_add(len);
    }
}

/// The counters behind a chunk that was written at a time.
pub open spec fn recorded(c: DaemonCounters, chunk: Seq<u8>, now_ms: u64) -> DaemonCounters {
    DaemonCounters {
        line_count: wrapping_sum(c.line_count, lines::newlines(chunk)),
        last_line_at_ms: if lines::newlines(chunk) > 0 {
            now_ms
        } else {
            c.last_line_at_ms
        },
        bytes_written: wrapping_sum(c.bytes_written, chunk.len()),
    }
}

/// Counting a stream chunk by chunk gives the same number of lines and bytes as
/// counting it at once, and at one time the same counters altogether.
pub proof fn counting_is_chunk_independent(
    c: DaemonCounters,
    a: Seq<u8>,
    b: Seq<u8>,
    t: u64,
    now_ms: u64,
)
    requires
        (a + b).len() <= u64::MAX,
    ensures
        recorded(recorded(c, a, t), b, now_ms).line_count == recorded(c, a + b, now_ms).line_count,
        recorded(recorded(c, a, t), b, now_ms).bytes_written == recorded(
            c,
            a + b,
            now_ms,
        ).bytes_written,
        t == now_ms ==> recorded(recorded(c, a, t), b, now_ms) == recorded(c, a + b, now_ms),
{
    lines::count_adds(a, b, lines::NL);
    lines::count_le_len(a, lines::NL);
    lines::count_le_len(b, lines::NL);
}

// ---------------------------------------------------------------------
// Requests
// ---------------------------------------------------------------------

/// Whether the subprocess runs.
#[derive(Clone, Copy, PartialEq, Eq, Structural)]
pub enum ChildState {
    Running,
    Exited { code: Option<i32> },
}

/// What a manager knows of its subprocess.
#[derive(Clone, Copy, PartialEq, Eq, Structural)]
pub struct SharedState {
    pub child_pid: u32,
    pub state: ChildState,
    pub counters: DaemonCounters,
}

/// The reply to a request.
pub enum Reply {
    /// The subprocess runs.
    Running { child_pid: u32 },
    /// The subprocess has ended.
    Exited { code: Option<i32> },
    /// A signal is to be sent to the subprocess, and then reported.
    Signalled { pid: u32, number: i32 },
    /// The manager closes.
    Closing,
    /// State and counters.
    Summary { running: bool, child_pid: u32, exit_code: Option<i32>, counters: DaemonCounters },
    /// The request cannot be met.
    Error(String),
}

/// Whether a reply is the one to a request in a state.
pub open spec fn is_reply(r: Reply, req: Request, sh: SharedState) -> bool {
    if req.action@ == "status"@ {
        r == match sh.state {
            ChildState::Running => Reply::Running { child_pid: sh.child_pid },
            ChildState::Exited { code } => Reply::Exited { code },
        }
    } else if req.action@ == "signal"@ {
        match sig_of(req) {
            Some(sig) => r matches Reply::Signalled { pid, number } && pid == sh.child_pid
                && ipc::is_number(sig, number),
            None => r matches Reply::Error(e) && e@ == "Invalid or missing signal: "@
                + text::debug_text(
                match req.sig {
                    Some(s) => s@,
                    None => ""@,
                },
            ),
        }
    } else if req.action@ == "close"@ {
        r is Closing
    } else if req.action@ == "summary"@ {
        r == (Reply::Summary {
            running: sh.state is Running,
            child_pid: sh.child_pid,
            exit_code: match sh.state {
                ChildState::Running => None,
                ChildState::Exited { code } => code,
            },
            counters: sh.counters,
        })
    } else {
        r matches Reply::Error(e) && e@ == "Unknown action: "@ + req.action@
    }
}

/// The signal that a request asks for.
pub open spec fn sig_of(req: Request) -> Option<Signal> {
    match req.sig {
        Some(s) => ipc::signal_of(s@),
        None => None,
    }
}

/// Works out the reply to a request.
pub fn dispatch(req: &Request, sh: &SharedState) -> (r: Reply)
    ensures
        is_reply(r, *req, *sh),
{
    let action: &str = req.action.as_str();
    if same_text(action, "status") {
        match sh.state {
            ChildState::Running => Reply::Running { child_pid: sh.child_pid },
            ChildState::Exited { code } => Reply::Exited { code },
        }
    } else if same_text(action, "signal") {
        let sig: Option<Signal> = match &req.sig {
            Some(s) => signal_named(s.as_str()),
            None => None,
        };
        match sig {
            Some(s) => Reply::Signalled { pid: sh.child_pid, number: signal_number(s) },
            None => {
                let shown: &str = match &req.sig {
                    Some(s) => s.as_str(),
                    None => "",
                };
                Reply::Error(concat2("Invalid or missing signal: ", quoted(shown).as_str()))
            },
        }
    } else if same_text(action, "close") {
        Reply::Closing
    } else if same_text(action, "summary") {
        Reply::Summary {
            running: match sh.state {
                ChildState::Running => true,
                ChildState::Exited { .. } => false,
            },
            child_pid: sh.child_pid,
            exit_code: match sh.state {
                ChildState::Running => None,
                ChildState::Exited { code } => code,
            },
            counters: sh.counters,
        }
    } else {
        Reply::Error(concat2("Unknown action: ", action))
    }
}

/// A line on the socket without the white space around it. An empty one is no
/// request, and does not count as activity.
pub fn request_line<'a>(line: &'a str) -> (r: Option<&'a str>)
    ensures
        match r {
            Some(t) => t@ == text::trimmed(line@) && t@.len() > 0,
            None => text::trimmed(line@).len() == 0,
        },
{
    let t = trim(line);
    if t.unicode_len() == 0 {
        None
    } else {
        Some(t)
    }
}

/// The reply to a line that holds no request.
pub fn invalid_request(error: &str) -> (r: Reply)
    ensures
        r matches Reply::Error(e) && e@ == "Invalid JSON: "@ + error@,
{
    Reply::Error(concat2("Invalid JSON: ", error))
}

/// Only a request to close is answered by closing.
pub proof fn only_close_closes(r: Reply, req: Request, sh: SharedState)
    requires
        is_reply(r, req, sh),
    ensures
        r is Closing <==> req.action@ == "close"@,
{
    reveal_strlit("status");
    reveal_strlit("signal");
    reveal_strlit("close");
    reveal_strlit("summary");
    assert("close"@.len() == 5);
    assert("status"@.len() == 6);
    assert("signal"@.len() == 6);
    assert("summary"@.len() == 7);
}

/// The process to signal: none where the subprocess has no process id.
pub fn kill_target(pid: u32) -> (r: Option<u32>)
    ensures
        r == if pid == 0 {
            None
        } else {
            Some(pid)
        },
{
    if pid == 0 {
        None
    } else {
        Some(pid)
    }
}

// ---------------------------------------------------------------------
// The main loop
// ---------------------------------------------------------------------

/// Why a manager ended.
#[derive(Clone, Copy, Debug, PartialEq, Eq, Structural)]
pub enum ExitReason {
    ChildExited,
    Close,
    Idle,
    Signal,
    Error,
}

/// The name of a reason in the record of recent managers.
pub open spec fn reason_name(reason: ExitReason) -> Seq<char> {
    match reason {
        ExitReason::ChildExited => "child_exited"@,
        ExitReason::Close => "close"@,
        ExitReason::Idle => "idle"@,
        ExitReason::Signal => "signal"@,
        ExitReason::Error => "error"@,
    }
}

impl ExitReason {
    /// The name of a reason.
    pub fn label(self) -> (r: &'static str)
        ensures
            r@ == reason_name(self),
    {
        match self {
            ExitReason::ChildExited => "child_exited",
            ExitReason::Close => "close",
            ExitReason::Idle => "idle",
            ExitReason::Signal => "signal",
            ExitReason::Error => "error",
        }
    }
}

/// How long a manager may be idle, out of the value of the setting: a number of
/// milliseconds above zero, or no limit.
pub fn idle_timeout(value: Option<&str>) -> (r: Option<u64>)
    ensures
        match value {
            Some(v) => match text::unsigned_text(v@, u64::MAX as nat) {
                Some(n) => r == if n > 0 {
                    Some(n as u64)
                } else {
                    None
                },
                None => r is None,
            },
            None => r is None,
        },
{
    match value {
        Some(v) => match parse_unsigned(v, u64::MAX) {
            Some(n) => if n > 0 {
                Some(n)
            } else {
                None
            },
            None => None,
        },
        None => None,
    }
}

/// What can happen to a manager.
#[derive(Clone, Copy, PartialEq, Eq, Structural)]
pub enum Event {
    /// The subprocess ended.
    ChildExited(Option<i32>),
    /// The time that a manager stays after its subprocess is over.
    LingerElapsed,
    /// It was asked to close.
    CloseRequested,
    /// It got a signal to end.
    ShutdownSignal,
    /// Nothing happened for as long as it may be idle.
    IdleElapsed,
    /// A request came in.
    Activity,
}

/// What a manager does about an event.
#[derive(Clone, Copy, PartialEq, Eq, Structural)]
pub enum Action {
    /// Nothing.
    Continue,
    /// Stay for this many milliseconds after its subprocess, and note that the
    /// subprocess was of use until now.
    StartLinger { ms: u64 },
    /// Start the idle time anew.
    RearmIdle,
    /// End. Whether the subprocess has to be ended first, by `stop_steps`.
    Stop { kill_child: bool },
}

/// The state of a main loop.
#[derive(Clone, Copy, PartialEq, Eq, Structural)]
pub struct LoopState {
    pub child: ChildState,
    pub lingering: bool,
    pub idle_armed: bool,
    pub reason: ExitReason,
}

/// The state and the action behind an event. The end of the subprocess counts
/// once, the end of the lingering only while it lasts, and idle time only where
/// it is limited.
pub open spec fn next_state(s: LoopState, e: Event) -> (LoopState, Action) {
    match e {
        Event::ChildExited(code) => if s.lingering {
            (s, Action::Continue)
        } else {
            (
                LoopState {
                    child: ChildState::Exited { code },
                    lingering: true,
                    reason: ExitReason::ChildExited,
                    ..s
                },
                Action::StartLinger { ms: POST_EXIT_LINGER_MS },
            )
        },
        Event::LingerElapsed => if s.lingering {
            (s, Action::Stop { kill_child: false })
        } else {
            (s, Action::Continue)
        },
        Event::CloseRequested => (
            LoopState {
                child: ChildState::Exited { code: None },
                reason: ExitReason::Close,
                ..s
            },
            Action::Stop { kill_child: true },
        ),
        Event::ShutdownSignal => (
            LoopState { reason: ExitReason::Signal, ..s },
            Action::Stop { kill_child: true },
        ),
        Event::IdleElapsed => if s.idle_armed {
            (LoopState { reason: ExitReason::Idle, ..s }, Action::Stop { kill_child: true })
        } else {
            (s, Action::Continue)
        },
        Event::Activity => if s.idle_armed {
            (s, Action::RearmIdle)
        } else {
            (s, Action::Continue)
        },
    }
}

impl LoopState {
    /// A main loop whose subprocess runs.
    pub fn new(idle_armed: bool) -> (r: Self)
        ensures
            r == (LoopState {
                child: ChildState::Running,
                lingering: false,
                idle_armed,
                reason: ExitReason::Error,
            }),
    {
        LoopState {
            child: ChildState::Running,
            lingering: false,
            idle_armed,
            reason: ExitReason::Error,
        }
    }

    /// What to do about an event.
    pub fn on(&mut self, e: Event) -> (r: Action)
        ensures
            (*final(self), r) == next_state(*old(self), e),
    {
        match e {
            Event::ChildExited(code) => {
                if self.lingering {
                    return Action::Continue;
                }
                self.child = ChildState::Exited { code };
                self.lingering = true;
                self.reason = ExitReason::ChildExited;
                Action::StartLinger { ms: POST_EXIT_LINGER_MS }
            },
            Event::LingerElapsed => {
                if self.lingering {
                    Action::Stop { kill_child: false }
                } else {
                    Action::Continue
                }
            },
            Event::CloseRequested => {
                self.child = ChildState::Exited { code: None };
                self.reason = ExitReason::Close;
                Action::Stop { kill_child: true }
            },
            Event::ShutdownSignal => {
                self.reason = ExitReason::Signal;
                Action::Stop { kill_child: true }
            },
            Event::IdleElapsed => {
                if self.idle_armed {
                    self.reason = ExitReason::Idle;
                    Action::Stop { kill_child: true }
                } else {
                    Action::Continue
                }
            },
            Event::Activity => {
                if self.idle_armed {
                    Action::RearmIdle
                } else {
                    Action::Continue
                }
            },
        }
    }
}

/// The state behind events.
pub open spec fn run_events(s: LoopState, events: Seq<Event>) -> LoopState
    decreases events.len(),
{
    if events.len() == 0 {
        s
    } else {
        next_state(run_events(s, events.drop_last()), events.last()).0
    }
}

/// What holds in every state of a main loop that has not ended.
pub open spec fn loop_inv(s: LoopState) -> bool {
    &&& s.lingering <==> s.reason == ExitReason::ChildExited
    &&& !s.lingering ==> s.child == ChildState::Running && s.reason == ExitReason::Error
    &&& s.lingering ==> s.child is Exited
}

/// Whether no event ends a main loop.
pub open spec fn goes_on(s: LoopState, events: Seq<Event>) -> bool {
    forall|i: int|
        0 <= i < events.len() ==> !(next_state(
            run_events(s, #[trigger] events.take(i)),
            events[i],
        ).1 is Stop)
}

/// However long a main loop runs, as long as no event ends it, it stays after
/// its subprocess exactly where that has ended.
pub proof fn loop_keeps_its_invariant(s: LoopState, events: Seq<Event>)
    requires
        loop_inv(s),
        goes_on(s, events),
    ensures
        loop_inv(run_events(s, events)),
    decreases events.len(),
{
    if events.len() > 0 {
        let front = events.drop_last();
        let n = events.len() - 1;
        assert(events.take(n) =~= front);
        assert(goes_on(s, front)) by {
            assert forall|i: int| 0 <= i < front.len() implies !(next_state(
                run_events(s, #[trigger] front.take(i)),
                front[i],
            ).1 is Stop) by {
                assert(front.take(i) =~= events.take(i));
                assert(front[i] == events[i]);
            }
        }
        loop_keeps_its_invariant(s, front);
    }
}

/// A main loop ends for a reason: never with the one for an error. It ends the
/// subprocess first, unless that has ended by itself and the time after it is
/// over.
pub proof fn loop_ends_with_a_reason(s: LoopState, e: Event)
    requires
        loop_inv(s),
        next_state(s, e).1 is Stop,
    ensures
        next_state(s, e).0.reason != ExitReason::Error,
        next_state(s, e).1->kill_child || s.child is Exited,
{
}

/// The exit code of a subprocess that ended by itself can be asked for as long
/// as its manager stays: no event but a request to close changes it.
pub proof fn exit_code_stays(s: LoopState, e: Event)
    requires
        loop_inv(s),
        s.lingering,
        e != Event::CloseRequested,
    ensures
        next_state(s, e).0.child == s.child,
{
}

/// Without a limit on idle time, a manager never ends for being idle.
pub proof fn no_idle_end_without_limit(s: LoopState, e: Event)
    requires
        !s.idle_armed,
        s.reason != ExitReason::Idle,
    ensures
        next_state(s, e).0.reason != ExitReason::Idle,
        !next_state(s, e).0.idle_armed,
{
}

// ---------------------------------------------------------------------
// Ending a subprocess
// ---------------------------------------------------------------------

/// One thing to do to end a process.
#[derive(Clone, Copy, PartialEq, Eq, Structural)]
pub enum StopStep {
    /// Send a process a signal.
    Signal(u32, Signal),
    /// Send a process a signal, if it is still there.
    SignalIfAlive(u32, Signal),
    /// Wait for this many milliseconds.
    Sleep(u64),
}

/// The steps of a manager that ends: none where its subprocess need not be
/// ended or has no process id, and otherwise the signal to terminate, the grace
/// period, and the signal to kill.
pub open spec fn stop_sequence(kill_child: bool, pid: u32) -> Seq<StopStep> {
    if kill_child && pid != 0 {
        seq![
            StopStep::Signal(pid, Signal::Term),
            StopStep::Sleep(CHILD_KILL_GRACE_MS),
            StopStep::Signal(pid, Signal::Kill),
        ]
    } else {
        Seq::empty()
    }
}

/// The steps of a manager that ends, to be done in order.
pub fn stop_steps(kill_child: bool, pid: u32) -> (r: Vec<StopStep>)
    ensures
        r@ == stop_sequence(kill_child, pid),
{
    let mut out: Vec<StopStep> = Vec::new();
    if kill_child && pid != 0 {
        out.push(StopStep::Signal(pid, Signal::Term));
        out.push(StopStep::Sleep(CHILD_KILL_GRACE_MS));
        out.push(StopStep::Signal(pid, Signal::Kill));
    }
    assert(out@ =~= stop_sequence(kill_child, pid));
    out
}

/// The steps that end a process whose manager is gone: the signal to terminate,
/// the grace period, and the signal to kill if it is still there.
pub open spec fn terminate_sequence(pid: u32) -> Seq<StopStep> {
    seq![
        StopStep::Signal(pid, Signal::Term),
        StopStep::Sleep(CHILD_KILL_GRACE_MS),
        StopStep::SignalIfAlive(pid, Signal::Kill),
    ]
}

/// The steps that end a process whose manager is gone, to be done in order.
pub fn terminate_steps(pid: u32) -> (r: Vec<StopStep>)
    ensures
        r@ == terminate_sequence(pid),
{
    let mut out: Vec<StopStep> = Vec::new();
    out.push(StopStep::Signal(pid, Signal::Term));
    out.push(StopStep::Sleep(CHILD_KILL_GRACE_MS));
    out.push(StopStep::SignalIfAlive(pid, Signal::Kill));
    assert(out@ =~= terminate_sequence(pid));
    out
}

/// The steps that an action of a main loop comes down to.
pub open spec fn steps_of_action(a: Action, pid: u32) -> Seq<StopStep> {
    match a {
        Action::Stop { kill_child } => stop_sequence(kill_child, pid),
        _ => Seq::empty(),
    }
}

/// A subprocess that runs is always ended gracefully: whatever ends a main loop
/// while its subprocess runs, be it a request, a signal or idle time, the
/// subprocess gets the signal to terminate first, and the one that kills it only
/// after the grace period. It gets no signal from a loop that goes on.
pub proof fn running_children_end_gracefully(s: LoopState, e: Event, pid: u32)
    requires
        loop_inv(s),
        s.child == ChildState::Running,
        pid != 0,
    ensures
        next_state(s, e).1 is Stop ==> steps_of_action(next_state(s, e).1, pid) == seq![
            StopStep::Signal(pid, Signal::Term),
            StopStep::Sleep(CHILD_KILL_GRACE_MS),
            StopStep::Signal(pid, Signal::Kill),
        ],
        !(next_state(s, e).1 is Stop) ==> steps_of_action(next_state(s, e).1, pid).len() == 0,
{
}

/// How long a manager was of use, in milliseconds since it started: until its
/// subprocess ended, or until now.
pub fn useful_ms(child_exited_at: Option<u64>, now: u64) -> (r: u64)
    ensures
        r == match child_exited_at {
            Some(t) => t,
            None => now,
        },
{
    match child_exited_at {
        Some(t) => t,
        None => now,
    }
}

// ---------------------------------------------------------------------
// Laws
// ---------------------------------------------------------------------

/// Every line feed counts as one line and every byte as one byte, modulo what a
/// counter can hold; the time of the last line moves only when a line ends.
pub proof fn every_line_is_counted(c: DaemonCounters, chunk: Seq<u8>, now_ms: u64)
    requires
        chunk.len() <= u64::MAX,
    ensures
        recorded(c, chunk, now_ms).line_count == (c.line_count + chunk.filter(
            |b: u8| b == 10u8,
        ).len()) % 0x1_0000_0000_0000_0000,
        recorded(c, chunk, now_ms).bytes_written == (c.bytes_written + chunk.len())
            % 0x1_0000_0000_0000_0000,
        chunk.contains(10u8) ==> recorded(c, chunk, now_ms).last_line_at_ms == now_ms,
        !chunk.contains(10u8) ==> recorded(c, chunk, now_ms).last_line_at_ms == c.last_line_at_ms,
{
    lemma_newlines_filter(chunk);
    assert(forall|a: u64, b: nat|
        b <= u64::MAX ==> #[trigger] wrapping_sum(a, b) == (a + b) % 0x1_0000_0000_0000_0000);
}

proof fn lemma_newlines_filter(chunk: Seq<u8>)
    ensures
        lines::newlines(chunk) == chunk.filter(|b: u8| b == 10u8).len(),
        lines::newlines(chunk) > 0 <==> chunk.contains(10u8),
        lines::newlines(chunk) <= chunk.len(),
    decreases chunk.len(),
{
    reveal(Seq::filter);
    if chunk.len() > 0 {
        let front = chunk.drop_last();
        lemma_newlines_filter(front);
        if front.contains(10u8) {
            let i = choose|i: int| 0 <= i < front.len() && front[i] == 10u8;
            assert(chunk[i] == 10u8);
        }
        if chunk.contains(10u8) && chunk.last() != 10u8 {
            let i = choose|i: int| 0 <= i < chunk.len() && chunk[i] == 10u8;
            assert(front[i] == 10u8);
        }
    }
}

/// Each action has its own answer: the state of the subprocess, its process and the
/// signal for it, the end of the connection, all counters; anything else is an error
/// that names the action.
pub proof fn every_action_has_its_answer(r: Reply, req: Request, sh: SharedState)
    requires
        is_reply(r, req, sh),
    ensures
        req.action@ == "status"@ && sh.state is Running ==> r == (Reply::Running {
            child_pid: sh.child_pid,
        }),
        req.action@ == "status"@ && sh.state is Exited ==> r == (Reply::Exited {
            code: sh.state->code,
        }),
        req.action@ == "close"@ ==> r is Closing,
        req.action@ == "summary"@ ==> r is Summary && r->Summary_child_pid == sh.child_pid
            && r->counters == sh.counters && (r->running <==> sh.state is Running),
        req.action@ == "summary"@ && sh.state is Exited ==> r->exit_code == sh.state->code,
        req.action@ == "summary"@ && sh.state is Running ==> r->exit_code is None,
        req.action@ == "signal"@ && req.sig is Some && ipc::signal_of(req.sig->0@) is Some ==> r
            is Signalled && r->pid == sh.child_pid,
        req.action@ == "signal"@ && (req.sig is None || ipc::signal_of(req.sig->0@) is None)
            ==> r is Error,
        !seq!["status"@, "signal"@, "close"@, "summary"@].contains(req.action@) ==> r is Error
            && r->0@ == "Unknown action: "@ + req.action@,
{
    reveal_strlit("status");
    reveal_strlit("signal");
    reveal_strlit("close");
    reveal_strlit("summary");
    assert("status"@[1] == 't' && "signal"@[1] == 'i' && "close"@[1] == 'l' && "summary"@[1]
        == 'u');
    let all = seq!["status"@, "signal"@, "close"@, "summary"@];
    assert(all[0] == "status"@ && all[1] == "signal"@ && all[2] == "close"@ && all[3]
        == "summary"@);
}

/// What each event does to a loop, and what is done about it.
pub proof fn every_event_has_its_effect(s: LoopState, code: Option<i32>)
    ensures
        !s.lingering ==> next_state(s, Event::ChildExited(code)).0.child == (ChildState::Exited {
            code,
        }) && next_state(s, Event::ChildExited(code)).0.lingering && next_state(
            s,
            Event::ChildExited(code),
        ).1 == (Action::StartLinger { ms: 2000 }),
        s.lingering ==> next_state(s, Event::ChildExited(code)) == (s, Action::Continue),
        s.lingering ==> next_state(s, Event::LingerElapsed).1 == (Action::Stop {
            kill_child: false,
        }),
        !s.lingering ==> next_state(s, Event::LingerElapsed) == (s, Action::Continue),
        next_state(s, Event::CloseRequested).1 == (Action::Stop { kill_child: true }),
        next_state(s, Event::CloseRequested).0.reason is Close,
        next_state(s, Event::CloseRequested).0.child == (ChildState::Exited { code: None }),
        next_state(s, Event::ShutdownSignal).1 == (Action::Stop { kill_child: true }),
        next_state(s, Event::ShutdownSignal).0.reason is Signal,
        next_state(s, Event::ShutdownSignal).0.child == s.child,
        s.idle_armed ==> next_state(s, Event::IdleElapsed).1 == (Action::Stop { kill_child: true })
            && next_state(s, Event::IdleElapsed).0.reason is Idle && next_state(
            s,
            Event::IdleElapsed,
        ).0.child == s.child,
        !s.idle_armed ==> next_state(s, Event::IdleElapsed) == (s, Action::Continue),
        s.idle_armed ==> next_state(s, Event::Activity) == (s, Action::RearmIdle),
        !s.idle_armed ==> next_state(s, Event::Activity) == (s, Action::Continue),
{
}

/// The names of the reasons are those that the history of managers is written with.
pub proof fn reasons_have_names()
    ensures
        reason_name(ExitReason::ChildExited) == "child_exited"@,
        reason_name(ExitReason::Close) == "close"@,
        reason_name(ExitReason::Idle) == "idle"@,
        reason_name(ExitReason::Signal) == "signal"@,
        reason_name(ExitReason::Error) == "error"@,
{
}

/// A process is asked to end, has two tenths of a second for it, and is killed then;
/// nothing is done where there is no process.
pub proof fn processes_are_asked_before_they_are_killed(kill_child: bool, pid: u32)
    ensures
        kill_child && pid != 0 ==> stop_sequence(kill_child, pid) == seq![
            StopStep::Signal(pid, Signal::Term),
            StopStep::Sleep(200),
            StopStep::Signal(pid, Signal::Kill),
        ],
        !kill_child || pid == 0 ==> stop_sequence(kill_child, pid).len() == 0,
        terminate_sequence(pid) == seq![
            StopStep::Signal(pid, Signal::Term),
            StopStep::Sleep(200),
            StopStep::SignalIfAlive(pid, Signal::Kill),
        ],
        CLOSE_DELAY_MS == 50,
        POST_EXIT_LINGER_MS == 2000,
{
}

} // verus!
