//! Starting a manager, stopping one, and talking to it.

use vstd::prelude::*;
use vstd::string::*;

use crate::ipc::Response;
use crate::meta::Tags;
use crate::text;
use crate::text::{concat2, concat3, contains_text, decimal_text, quoted, same_text, trim};

verus! {

/// What a manager says of its subprocess.
pub struct StatusReply {
    pub state: Option<String>,
    pub child_pid: Option<u64>,
    pub code: Option<i64>,
}

/// A manager that serves its socket.
pub struct DaemonResult {
    pub already_running: bool,
    pub id: String,
}

/// What a new manager is told of its subprocess.
pub struct SpawnOptions<'a> {
    pub project: &'a str,
    pub name: Option<&'a str>,
    pub tags: &'a Tags,
    pub started_by_pid: Option<u32>,
    /// Stamp the lines of the log.
    pub timestamps: bool,
}

/// How long to wait between two looks at the socket of a new manager.
pub const STARTUP_POLL_MS: u64 = 25;

/// How often to look at it.
pub const STARTUP_MAX_POLLS: usize = 200;

/// How long the loser of a race waits for the winner.
pub const RACE_WAIT_MS: u64 = 200;

// ---------------------------------------------------------------------
// Starting
// ---------------------------------------------------------------------

/// What to do about the manager of an identifier.
#[derive(Clone, Copy, PartialEq, Eq, Structural)]
pub enum Reuse {
    /// Use the one that is there.
    Attach,
    /// Stop the one that is there, and start another.
    Restart,
    /// Start one.
    Start,
}

/// Decides about the manager of an identifier: one that answers is used, unless
/// it is of another version.
pub fn decide_reuse(connected: bool, version_matches: bool) -> (r: Reuse)
    ensures
        r == if !connected {
            Reuse::Start
        } else if version_matches {
            Reuse::Attach
        } else {
            Reuse::Restart
        },
{
    if !connected {
        Reuse::Start
    } else if version_matches {
        Reuse::Attach
    } else {
        Reuse::Restart
    }
}

/// Whether a manager is of a version, by the text of its version file. Without
/// one it is not.
pub fn daemon_version_matches(content: Option<&str>, version: &str) -> (r: bool)
    ensures
        r == (content matches Some(c) && text::trimmed(c@) == version@),
{
    match content {
        Some(c) => same_text(trim(c), version),
        None => false,
    }
}

/// What a list of names and values holds.
pub open spec fn env_views(v: Seq<(String, String)>) -> Seq<(Seq<char>, Seq<char>)> {
    v.map_values(|e: (String, String)| (e.0@, e.1@))
}

/// A name and a value, where the value is there.
pub open spec fn env_entry(name: Seq<char>, value: Option<Seq<char>>) -> Seq<(Seq<char>, Seq<char>)> {
    match value {
        Some(v) => seq![(name, v)],
        None => Seq::empty(),
    }
}

/// The settings that a new manager finds in its surroundings.
pub open spec fn env_of(
    id: Seq<char>,
    argv_json: Seq<char>,
    tags_json: Seq<char>,
    opts: SpawnOptions<'_>,
) -> Seq<(Seq<char>, Seq<char>)> {
    seq![
        ("AGENT_TERMINAL_DAEMON"@, "1"@),
        ("AGENT_TERMINAL_ID"@, id),
        ("AGENT_TERMINAL_CMD"@, argv_json),
        ("AGENT_TERMINAL_PROJECT"@, opts.project@),
        ("AGENT_TERMINAL_TAGS"@, tags_json),
    ] + env_entry(
        "AGENT_TERMINAL_NAME"@,
        match opts.name {
            Some(n) => Some(n@),
            None => None,
        },
    ) + env_entry(
        "AGENT_TERMINAL_STARTED_BY_PID"@,
        match opts.started_by_pid {
            Some(p) => Some(text::decimal(p as nat)),
            None => None,
        },
    ) + env_entry(
        "AGENT_TERM_TIMESTAMPS"@,
        if opts.timestamps {
            Some("1"@)
        } else {
            None
        },
    )
}

/// The settings for a new manager. The command and the tags come in the form in
/// which they are handed over.
pub fn daemon_env(id: &str, argv_json: &str, tags_json: &str, opts: &SpawnOptions<'_>) -> (r: Vec<
    (String, String),
>)
    ensures
        env_views(r@) == env_of(id@, argv_json@, tags_json@, *opts),
{
    let mut out: Vec<(String, String)> = Vec::new();
    out.push(("AGENT_TERMINAL_DAEMON".to_owned(), "1".to_owned()));
    out.push(("AGENT_TERMINAL_ID".to_owned(), id.to_owned()));
    out.push(("AGENT_TERMINAL_CMD".to_owned(), argv_json.to_owned()));
    out.push(("AGENT_TERMINAL_PROJECT".to_owned(), opts.project.to_owned()));
    out.push(("AGENT_TERMINAL_TAGS".to_owned(), tags_json.to_owned()));
    match opts.name {
        Some(n) => {
            out.push(("AGENT_TERMINAL_NAME".to_owned(), n.to_owned()));
        },
        None => {},
    }
    match opts.started_by_pid {
        Some(p) => {
            out.push(("AGENT_TERMINAL_STARTED_BY_PID".to_owned(), decimal_text(p as u64)));
        },
        None => {},
    }
    if opts.timestamps {
        out.push(("AGENT_TERM_TIMESTAMPS".to_owned(), "1".to_owned()));
    }
    assert(env_views(out@) =~= env_of(id@, argv_json@, tags_json@, *opts));
    out
}

/// What to do next while a new manager starts.
pub enum StartupStep {
    /// It serves its socket. Whether it is one that another call has started.
    Ready(bool),
    /// Look again after this many milliseconds.
    Sleep(u64),
    /// Another call was faster: look once more after this many milliseconds.
    AwaitWinner(u64),
    /// It did not start.
    Fail(String),
}

/// What is said of a manager that ended while it started, by what it wrote.
pub open spec fn startup_failure(stderr: Seq<char>) -> Seq<char> {
    let t = text::trimmed(stderr);
    if t.len() == 0 {
        "daemon exited during startup with no error output"@
    } else {
        "daemon failed to start: "@ + t
    }
}

/// Whether a manager that ended while it started has lost a race for the
/// socket, by what it wrote.
pub open spec fn lost_race(stderr: Seq<char>) -> bool {
    let t = text::trimmed(stderr);
    text::occurs(t, "Address already in use"@) || text::occurs(t, "Failed to bind"@)
}

/// What is said where a manager does not serve its socket in time.
pub open spec fn startup_timeout() -> Seq<char> {
    "daemon failed to bind socket within startup window"@
}

/// A manager that is starting.
pub struct Startup {
    polls: usize,
}

impl Startup {
    /// How often its socket was looked at.
    pub closed spec fn polls(&self) -> usize {
        self.polls
    }

    /// Whether the count of looks is within its limit.
    pub closed spec fn wf(&self) -> bool {
        self.polls <= STARTUP_MAX_POLLS
    }

    /// A manager that was just started.
    pub fn new() -> (r: Self)
        ensures
            r.polls() == 0,
            r.wf(),
    {
        Startup { polls: 0 }
    }

    /// What to do after a look at the socket, and where it does not answer, at
    /// the process: what it wrote, if it has ended.
    pub fn poll(&mut self, connected: bool, exited: Option<&str>) -> (r: StartupStep)
        requires
            old(self).wf(),
        ensures
            final(self).wf(),
            if old(self).polls() >= STARTUP_MAX_POLLS {
                &&& final(self).polls() == old(self).polls()
                &&& r matches StartupStep::Fail(e) && e@ == startup_timeout()
            } else {
                &&& final(self).polls() == old(self).polls() + 1
                &&& if connected {
                    r == StartupStep::Ready(false)
                } else {
                    match exited {
                        Some(err) => if lost_race(err@) {
                            r == StartupStep::AwaitWinner(RACE_WAIT_MS)
                        } else {
                            r matches StartupStep::Fail(e) && e@ == startup_failure(err@)
                        },
                        None => r == StartupStep::Sleep(STARTUP_POLL_MS),
                    }
                }
            },
    {
        if self.polls >= STARTUP_MAX_POLLS {
            return StartupStep::Fail(
                "daemon failed to bind socket within startup window".to_owned(),
            );
        }
        self.polls = self.polls + 1;
        if connected {
            return StartupStep::Ready(false);
        }
        match exited {
            Some(err) => {
                let t = trim(err);
                if contains_text(t, "Address already in use") || contains_text(
                    t,
                    "Failed to bind",
                ) {
                    StartupStep::AwaitWinner(RACE_WAIT_MS)
                } else {
                    StartupStep::Fail(startup_error(err))
                }
            },
            None => StartupStep::Sleep(STARTUP_POLL_MS),
        }
    }
}

/// What to do after waiting for the winner of a race.
pub fn after_race(connected: bool, stderr: &str) -> (r: StartupStep)
    ensures
        if connected {
            r == StartupStep::Ready(true)
        } else {
            r matches StartupStep::Fail(e) && e@ == startup_failure(stderr@)
        },
{
    if connected {
        StartupStep::Ready(true)
    } else {
        StartupStep::Fail(startup_error(stderr))
    }
}

/// What is said of a manager that ended while it started.
fn startup_error(stderr: &str) -> (r: String)
    ensures
        r@ == startup_failure(stderr@),
{
    let t = trim(stderr);
    if t.unicode_len() == 0 {
        "daemon exited during startup with no error output".to_owned()
    } else {
        concat2("daemon failed to start: ", t)
    }
}

// ---------------------------------------------------------------------
// Stopping a manager of another version
// ---------------------------------------------------------------------

/// How often to look whether a manager has ended, after it was asked to.
pub const STALE_PROBES: u32 = 10;

/// How long to wait before each of these looks, and after killing it.
pub const STALE_PROBE_MS: u64 = 100;

/// What to do next to stop a manager, after the signal to terminate was sent.
#[derive(Clone, Copy, PartialEq, Eq, Structural)]
pub enum StaleStep {
    /// Wait, then look whether it is still there.
    Probe,
    /// Look once more whether it is still there.
    FinalProbe,
    /// Kill it.
    Kill,
    /// Remove its files.
    CleanUp,
}

/// The step behind a look: looks go on until the manager is gone, at most ten
/// of them.
pub fn after_probe(probes: u32, alive: bool) -> (r: StaleStep)
    ensures
        r == if alive && probes < STALE_PROBES {
            StaleStep::Probe
        } else {
            StaleStep::FinalProbe
        },
{
    if alive && probes < STALE_PROBES {
        StaleStep::Probe
    } else {
        StaleStep::FinalProbe
    }
}

/// The step behind the last look: a manager that is still there is killed.
pub fn after_final_probe(alive: bool) -> (r: StaleStep)
    ensures
        r == if alive {
            StaleStep::Kill
        } else {
            StaleStep::CleanUp
        },
{
    if alive {
        StaleStep::Kill
    } else {
        StaleStep::CleanUp
    }
}

// ---------------------------------------------------------------------
// Talking
// ---------------------------------------------------------------------

/// A message on the socket: its bytes and a line feed.
pub fn frame(body: Vec<u8>) -> (r: Vec<u8>)
    ensures
        r@ == body@.push(10u8),
{
    let mut out = body;
    out.push(10);
    out
}

/// What is said of a reply that cannot be read.
pub fn invalid_response(error: &str, line: &str) -> (r: String)
    ensures
        r@ == "invalid response: "@ + error@ + " (raw: "@ + text::debug_text(line@) + ")"@,
{
    let mut out = concat3("invalid response: ", error, " (raw: ");
    out.append(quoted(line).as_str());
    out.append(")");
    out
}

/// The data of a response: an error where it failed, with the text it carries
/// or a default, and another where it carries no data.
pub fn response_data(resp: Response, failed: &str, missing: &str) -> (r: Result<
    serde_json::Value,
    String,
>)
    ensures
        if !resp.success {
            r matches Err(e) && e@ == match resp.error {
                Some(t) => t@,
                None => failed@,
            }
        } else {
            match resp.data {
                Some(d) => r == Ok::<serde_json::Value, String>(d),
                None => r matches Err(e) && e@ == missing@,
            }
        },
{
    if !resp.success {
        return match resp.error {
            Some(t) => Err(t),
            None => Err(failed.to_owned()),
        };
    }
    match resp.data {
        Some(d) => Ok(d),
        None => Err(missing.to_owned()),
    }
}

/// The data of the response to a request for the status.
pub fn status(resp: Response) -> (r: Result<serde_json::Value, String>)
    ensures
        if !resp.success {
            r matches Err(e) && e@ == match resp.error {
                Some(t) => t@,
                None => "unknown error"@,
            }
        } else {
            match resp.data {
                Some(d) => r == Ok::<serde_json::Value, String>(d),
                None => r matches Err(e) && e@ == "daemon returned no data"@,
            }
        },
{
    response_data(resp, "unknown error", "daemon returned no data")
}

/// Whether a request was met, and what is said where it was not.
pub fn response_done(resp: Response) -> (r: Result<(), String>)
    ensures
        resp.success ==> r is Ok,
        !resp.success ==> (r matches Err(e) && e@ == match resp.error {
            Some(t) => t@,
            None => "unknown error"@,
        }),
{
    if resp.success {
        Ok(())
    } else {
        match resp.error {
            Some(t) => Err(t),
            None => Err("unknown error".to_owned()),
        }
    }
}

/// A manager is told what it is to run by its environment: five entries always, the
/// others where there is something to tell.
pub proof fn managers_are_told_everything(
    id: Seq<char>,
    argv_json: Seq<char>,
    tags_json: Seq<char>,
    opts: SpawnOptions<'_>,
)
    ensures
        ({
            let env = env_of(id, argv_json, tags_json, opts);
            &&& env.contains(("AGENT_TERMINAL_DAEMON"@, "1"@))
            &&& env.contains(("AGENT_TERMINAL_ID"@, id))
            &&& env.contains(("AGENT_TERMINAL_CMD"@, argv_json))
            &&& env.contains(("AGENT_TERMINAL_PROJECT"@, opts.project@))
            &&& env.contains(("AGENT_TERMINAL_TAGS"@, tags_json))
            &&& opts.name is Some ==> env.contains(("AGENT_TERMINAL_NAME"@, opts.name->0@))
            &&& opts.started_by_pid is Some ==> env.contains(
                ("AGENT_TERMINAL_STARTED_BY_PID"@, text::decimal(opts.started_by_pid->0 as nat)),
            )
            &&& opts.timestamps ==> env.contains(("AGENT_TERM_TIMESTAMPS"@, "1"@))
            &&& env.len() == 5 + (if opts.name is Some {
                1int
            } else {
                0
            }) + (if opts.started_by_pid is Some {
                1int
            } else {
                0
            }) + (if opts.timestamps {
                1int
            } else {
                0
            })
        }),
{
    let env = env_of(id, argv_json, tags_json, opts);
    let named: int = if opts.name is Some {
        6
    } else {
        5
    };
    let started: int = if opts.started_by_pid is Some {
        named + 1
    } else {
        named
    };
    assert(env[0] == ("AGENT_TERMINAL_DAEMON"@, "1"@));
    assert(env[1] == ("AGENT_TERMINAL_ID"@, id));
    assert(env[2] == ("AGENT_TERMINAL_CMD"@, argv_json));
    assert(env[3] == ("AGENT_TERMINAL_PROJECT"@, opts.project@));
    assert(env[4] == ("AGENT_TERMINAL_TAGS"@, tags_json));
    if opts.name is Some {
        assert(env[5] == ("AGENT_TERMINAL_NAME"@, opts.name->0@));
    }
    if opts.started_by_pid is Some {
        assert(env[named] == (
            "AGENT_TERMINAL_STARTED_BY_PID"@,
            text::decimal(opts.started_by_pid->0 as nat),
        ));
    }
    if opts.timestamps {
        assert(env[started] == ("AGENT_TERM_TIMESTAMPS"@, "1"@));
    }
}

/// What a manager said before it ended is handed on, without the white space around
/// it; a manager that said nothing is reported as silent.
pub proof fn the_error_of_a_manager_is_told(a: Seq<char>, t: Seq<char>, b: Seq<char>)
    requires
        forall|i: int| 0 <= i < a.len() ==> text::is_space(#[trigger] a[i]),
        forall|i: int| 0 <= i < b.len() ==> text::is_space(#[trigger] b[i]),
        t.len() > 0 ==> !text::is_space(t[0]) && !text::is_space(t.last()),
    ensures
        t.len() > 0 ==> startup_failure(a + t + b) == "daemon failed to start: "@ + t,
        t.len() == 0 ==> startup_failure(a + t + b)
            == "daemon exited during startup with no error output"@,
        lost_race(a + t + b) <==> text::occurs(t, "Address already in use"@) || text::occurs(
            t,
            "Failed to bind"@,
        ),
{
    text::trimming_takes_the_blanks_off(a, t, b);
}

/// The waits and counts of a start.
pub proof fn starts_are_awaited()
    ensures
        STARTUP_POLL_MS * STARTUP_MAX_POLLS == 5000,
        STARTUP_POLL_MS == 25,
        RACE_WAIT_MS == 200,
        STALE_PROBES * STALE_PROBE_MS == 1000,
        STALE_PROBES == 10,
{
}

} // verus!
