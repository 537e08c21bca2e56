//! Diagnosis of the state directory.

use vstd::prelude::*;
use vstd::string::*;

use crate::text;
use crate::text::{
    chars_of,
    concat3,
    decimal_text,
    pad,
    trim,
};

verus! {

/// How many short-lived managers are too many.
pub const MISUSE_COUNT: usize = 10;

/// Below how many milliseconds a manager is short-lived.
pub const MISUSE_DURATION_MS: u64 = 2000;

/// For how many seconds managers that have ended count.
pub const MISUSE_WINDOW_SECS: u64 = 3600;

/// What to do.
pub struct DoctorOptions {
    pub fix: bool,
    pub json: bool,
}

/// A manager that is alive.
pub struct LiveEntry {
    pub id: String,
    pub daemon_pid: u32,
    pub child_pid: Option<u32>,
    pub name: Option<String>,
    pub project: String,
}

/// Files whose manager is gone.
pub struct StaleEntry {
    pub id: String,
    pub reason: String,
}

/// A subprocess whose manager is gone.
pub struct OrphanEntry {
    pub id: String,
    pub child_pid: u32,
}

/// What was found in the state directory.
pub struct DoctorReport {
    pub live: Vec<LiveEntry>,
    pub stale: Vec<StaleEntry>,
    pub orphans: Vec<OrphanEntry>,
    /// Advice.
    pub warnings: Vec<String>,
}

impl Default for DoctorReport {
    /// Nothing was found.
    fn default() -> (r: Self)
        ensures
            r.live@.len() == 0,
            r.stale@.len() == 0,
            r.orphans@.len() == 0,
            r.warnings@.len() == 0,
    {
        DoctorReport {
            live: Vec::new(),
            stale: Vec::new(),
            orphans: Vec::new(),
            warnings: Vec::new(),
        }
    }
}

// ---------------------------------------------------------------------
// Views
// ---------------------------------------------------------------------

/// What a `LiveEntry` holds.
pub struct LiveView {
    pub id: Seq<char>,
    pub daemon_pid: u32,
    pub child_pid: Option<u32>,
    pub name: Option<Seq<char>>,
    pub project: Seq<char>,
}

/// What a `StaleEntry` holds.
pub struct StaleView {
    pub id: Seq<char>,
    pub reason: Seq<char>,
}

/// What an `OrphanEntry` holds.
pub struct OrphanView {
    pub id: Seq<char>,
    pub child_pid: u32,
}

/// The characters of an optional string.
pub open spec fn opt_view(s: Option<String>) -> Option<Seq<char>> {
    match s {
        Some(t) => Some(t@),
        None => None,
    }
}

impl View for LiveEntry {
    type V = LiveView;

    open spec fn view(&self) -> LiveView {
        LiveView {
            id: self.id@,
            daemon_pid: self.daemon_pid,
            child_pid: self.child_pid,
            name: opt_view(self.name),
            project: self.project@,
        }
    }
}

impl View for StaleEntry {
    type V = StaleView;

    open spec fn view(&self) -> StaleView {
        StaleView { id: self.id@, reason: self.reason@ }
    }
}

impl View for OrphanEntry {
    type V = OrphanView;

    open spec fn view(&self) -> OrphanView {
        OrphanView { id: self.id@, child_pid: self.child_pid }
    }
}

/// What a list of live managers holds.
pub open spec fn live_views(v: Seq<LiveEntry>) -> Seq<LiveView> {
    v.map_values(|e: LiveEntry| e@)
}

/// What a list of stale files holds.
pub open spec fn stale_views(v: Seq<StaleEntry>) -> Seq<StaleView> {
    v.map_values(|e: StaleEntry| e@)
}

/// What a list of orphans holds.
pub open spec fn orphan_views(v: Seq<OrphanEntry>) -> Seq<OrphanView> {
    v.map_values(|e: OrphanEntry| e@)
}

// ---------------------------------------------------------------------
// What is looked at
// ---------------------------------------------------------------------

/// What is read of metadata.
pub struct ProbeMeta {
    pub child_pid: Option<u32>,
    pub name: Option<String>,
    pub project: String,
}

/// A pid file: the process id in it if there is one, whether that process is
/// alive, the metadata beside it if they could be read, and whether the
/// subprocess that they name is alive.
pub struct PidState {
    pub id: String,
    pub pid: Option<u32>,
    pub alive: bool,
    pub meta: Option<ProbeMeta>,
    pub child_alive: bool,
}

/// A socket, and whether there is a pid file beside it.
pub struct SockState {
    pub id: String,
    pub pid_file: bool,
}

/// Metadata, whether there is a pid file beside them, the subprocess that they
/// name, and whether it is alive.
pub struct MetaState {
    pub id: String,
    pub pid_file: bool,
    pub child_pid: Option<u32>,
    pub child_alive: bool,
}

/// The managers that are alive.
pub open spec fn live_of(pids: Seq<PidState>) -> Seq<LiveView>
    decreases pids.len(),
{
    if pids.len() == 0 {
        Seq::empty()
    } else {
        let front = live_of(pids.drop_last());
        let p = pids.last();
        if p.pid is Some && p.alive {
            front.push(
                LiveView {
                    id: p.id@,
                    daemon_pid: p.pid->0,
                    child_pid: match p.meta {
                        Some(m) => m.child_pid,
                        None => None,
                    },
                    name: match p.meta {
                        Some(m) => opt_view(m.name),
                        None => None,
                    },
                    project: match p.meta {
                        Some(m) => m.project@,
                        None => ""@,
                    },
                },
            )
        } else {
            front
        }
    }
}

/// The pid files whose manager is gone.
pub open spec fn stale_pids(pids: Seq<PidState>) -> Seq<StaleView>
    decreases pids.len(),
{
    if pids.len() == 0 {
        Seq::empty()
    } else {
        let front = stale_pids(pids.drop_last());
        let p = pids.last();
        match p.pid {
            Some(_) => if p.alive {
                front
            } else {
                front.push(StaleView { id: p.id@, reason: "daemon process gone"@ })
            },
            None => front.push(StaleView { id: p.id@, reason: "unreadable .pid"@ }),
        }
    }
}

/// The subprocesses that outlived the manager of a pid file.
pub open spec fn orphans_of_pids(pids: Seq<PidState>) -> Seq<OrphanView>
    decreases pids.len(),
{
    if pids.len() == 0 {
        Seq::empty()
    } else {
        let front = orphans_of_pids(pids.drop_last());
        let p = pids.last();
        if p.pid is Some && !p.alive && p.child_alive && (p.meta matches Some(m)
            && m.child_pid is Some) {
            front.push(OrphanView { id: p.id@, child_pid: p.meta->0.child_pid->0 })
        } else {
            front
        }
    }
}

/// The sockets without a pid file.
pub open spec fn stale_socks(socks: Seq<SockState>) -> Seq<StaleView>
    decreases socks.len(),
{
    if socks.len() == 0 {
        Seq::empty()
    } else {
        let front = stale_socks(socks.drop_last());
        let s = socks.last();
        if s.pid_file {
            front
        } else {
            front.push(StaleView { id: s.id@, reason: "orphan .sock"@ })
        }
    }
}

/// The metadata without a pid file.
pub open spec fn stale_metas(metas: Seq<MetaState>) -> Seq<StaleView>
    decreases metas.len(),
{
    if metas.len() == 0 {
        Seq::empty()
    } else {
        let front = stale_metas(metas.drop_last());
        let m = metas.last();
        if m.pid_file {
            front
        } else {
            front.push(StaleView { id: m.id@, reason: "orphan .meta"@ })
        }
    }
}

/// The subprocesses that are alive without a pid file.
pub open spec fn orphans_of_metas(metas: Seq<MetaState>) -> Seq<OrphanView>
    decreases metas.len(),
{
    if metas.len() == 0 {
        Seq::empty()
    } else {
        let front = orphans_of_metas(metas.drop_last());
        let m = metas.last();
        if !m.pid_file && m.child_pid is Some && m.child_alive {
            front.push(OrphanView { id: m.id@, child_pid: m.child_pid->0 })
        } else {
            front
        }
    }
}

/// Puts together what was found.
pub fn scan(
    pids: Vec<PidState>,
    socks: Vec<SockState>,
    metas: Vec<MetaState>,
    warning: Option<String>,
) -> (r: DoctorReport)
    ensures
        live_views(r.live@) == live_of(pids@),
        stale_views(r.stale@) == stale_pids(pids@) + stale_socks(socks@) + stale_metas(metas@),
        orphan_views(r.orphans@) == orphans_of_pids(pids@) + orphans_of_metas(metas@),
        r.warnings@ == match warning {
            Some(w) => seq![w],
            None => Seq::empty(),
        },
{
    let ghost all_pids = pids@;
    let ghost all_socks = socks@;
    let ghost all_metas = metas@;
    let mut live: Vec<LiveEntry> = Vec::new();
    let mut stale: Vec<StaleEntry> = Vec::new();
    let mut orphans: Vec<OrphanEntry> = Vec::new();
    let mut warnings: Vec<String> = Vec::new();
    proof {
        assert(all_pids.take(0).len() == 0);
        assert(live_views(live@) =~= Seq::empty());
        assert(stale_views(stale@) =~= Seq::empty());
        assert(orphan_views(orphans@) =~= Seq::empty());
    }
    for p in it: pids
        invariant
            it.seq() == all_pids,
            live_views(live@) == live_of(all_pids.take(it.index())),
            stale_views(stale@) == stale_pids(all_pids.take(it.index())),
            orphan_views(orphans@) == orphans_of_pids(all_pids.take(it.index())),
    {
        let ghost next = all_pids.take(it.index() + 1);
        let ghost live0 = live@;
        let ghost stale0 = stale@;
        let ghost orphans0 = orphans@;
        proof {
            assert(next.drop_last() =~= all_pids.take(it.index()));
            assert(next.last() == p);
        }
        let PidState { id, pid, alive, meta, child_alive } = p;
        match pid {
            Some(daemon_pid) => {
                if alive {
                    let (child_pid, name, project): (Option<u32>, Option<String>, String) =
                        match meta {
                        Some(m) => (m.child_pid, m.name, m.project),
                        None => (None, None, "".to_owned()),
                    };
                    live.push(LiveEntry { id, daemon_pid, child_pid, name, project });
                    assert(live_views(live@) =~= live_views(live0).push(live@.last()@));
                } else {
                    let child: Option<u32> = match meta {
                        Some(m) => if child_alive {
                            m.child_pid
                        } else {
                            None
                        },
                        None => None,
                    };
                    match child {
                        Some(child_pid) => {
                            orphans.push(OrphanEntry { id: id.clone(), child_pid });
                            assert(orphan_views(orphans@) =~= orphan_views(orphans0).push(
                                orphans@.last()@,
                            ));
                        },
                        None => {},
                    }
                    stale.push(StaleEntry { id, reason: "daemon process gone".to_owned() });
                    assert(stale_views(stale@) =~= stale_views(stale0).push(stale@.last()@));
                }
            },
            None => {
                stale.push(StaleEntry { id, reason: "unreadable .pid".to_owned() });
                assert(stale_views(stale@) =~= stale_views(stale0).push(stale@.last()@));
            },
        }
    }
    proof {
        assert(all_pids.take(all_pids.len() as int) =~= all_pids);
        assert(all_socks.take(0).len() == 0);
        assert(stale_pids(all_pids) + stale_socks(all_socks.take(0)) =~= stale_pids(all_pids));
    }
    for s in it: socks
        invariant
            it.seq() == all_socks,
            stale_views(stale@) == stale_pids(all_pids) + stale_socks(
                all_socks.take(it.index()),
            ),
    {
        let ghost next = all_socks.take(it.index() + 1);
        let ghost stale0 = stale@;
        proof {
            assert(next.drop_last() =~= all_socks.take(it.index()));
            assert(next.last() == s);
        }
        let SockState { id, pid_file } = s;
        if !pid_file {
            stale.push(StaleEntry { id, reason: "orphan .sock".to_owned() });
            assert(stale_views(stale@) =~= stale_views(stale0).push(stale@.last()@));
            assert(stale_views(stale@) =~= stale_pids(all_pids) + stale_socks(next));
        }
    }
    proof {
        assert(all_socks.take(all_socks.len() as int) =~= all_socks);
        assert(all_metas.take(0).len() == 0);
        assert(stale_pids(all_pids) + stale_socks(all_socks) + stale_metas(all_metas.take(0))
            =~= stale_pids(all_pids) + stale_socks(all_socks));
        assert(orphans_of_pids(all_pids) + orphans_of_metas(all_metas.take(0))
            =~= orphans_of_pids(all_pids));
    }
    for m in it: metas
        invariant
            it.seq() == all_metas,
            stale_views(stale@) == stale_pids(all_pids) + stale_socks(all_socks) + stale_metas(
                all_metas.take(it.index()),
            ),
            orphan_views(orphans@) == orphans_of_pids(all_pids) + orphans_of_metas(
                all_metas.take(it.index()),
            ),
    {
        let ghost next = all_metas.take(it.index() + 1);
        let ghost stale0 = stale@;
        let ghost orphans0 = orphans@;
        proof {
            assert(next.drop_last() =~= all_metas.take(it.index()));
            assert(next.last() == m);
        }
        let MetaState { id, pid_file, child_pid, child_alive } = m;
        if !pid_file {
            match child_pid {
                Some(child) => {
                    if child_alive {
                        orphans.push(OrphanEntry { id: id.clone(), child_pid: child });
                        assert(orphan_views(orphans@) =~= orphan_views(orphans0).push(
                            orphans@.last()@,
                        ));
                        assert(orphan_views(orphans@) =~= orphans_of_pids(all_pids)
                            + orphans_of_metas(next));
                    }
                },
                None => {},
            }
            stale.push(StaleEntry { id, reason: "orphan .meta".to_owned() });
            assert(stale_views(stale@) =~= stale_views(stale0).push(stale@.last()@));
            assert(stale_views(stale@) =~= stale_pids(all_pids) + stale_socks(all_socks)
                + stale_metas(next));
        }
    }
    assert(all_metas.take(all_metas.len() as int) =~= all_metas);
    match warning {
        Some(w) => {
            warnings.push(w);
        },
        None => {},
    }
    DoctorReport { live, stale, orphans, warnings }
}

/// Whether a report shows a problem.
pub open spec fn has_issues(r: DoctorReport) -> bool {
    r.stale@.len() > 0 || r.orphans@.len() > 0 || r.warnings@.len() > 0
}

/// The exit code: one where there is a problem and it is not to be fixed.
pub fn exit_code(r: &DoctorReport, opts: &DoctorOptions) -> (code: u8)
    ensures
        code == if has_issues(*r) && !opts.fix {
            1u8
        } else {
            0u8
        },
{
    let issues = r.stale.len() > 0 || r.orphans.len() > 0 || r.warnings.len() > 0;
    if issues && !opts.fix {
        1
    } else {
        0
    }
}

/// A live manager and its subprocess are never taken for stale or for orphans:
/// a pid file leads to exactly one of a live entry and a stale one, and to an
/// orphan only together with a stale one.
pub proof fn live_managers_are_left_alone(pids: Seq<PidState>)
    ensures
        live_of(pids).len() + stale_pids(pids).len() == pids.len(),
        orphans_of_pids(pids).len() <= stale_pids(pids).len(),
        forall|i: int|
            0 <= i < live_of(pids).len() ==> exists|k: int|
                0 <= k < pids.len() && (#[trigger] pids[k]).alive && pids[k].id@ == (
                #[trigger] live_of(pids)[i]).id,
        forall|i: int|
            0 <= i < orphans_of_pids(pids).len() ==> exists|k: int|
                0 <= k < pids.len() && !(#[trigger] pids[k]).alive && pids[k].id@ == (
                #[trigger] orphans_of_pids(pids)[i]).id,
    decreases pids.len(),
{
    if pids.len() > 0 {
        let front = pids.drop_last();
        let n = pids.len() - 1;
        live_managers_are_left_alone(front);
        assert forall|i: int| 0 <= i < live_of(pids).len() implies exists|k: int|
            0 <= k < pids.len() && (#[trigger] pids[k]).alive && pids[k].id@ == (
            #[trigger] live_of(pids)[i]).id by {
            if i < live_of(front).len() {
                assert(live_of(pids)[i] == live_of(front)[i]);
                let k = choose|k: int|
                    0 <= k < front.len() && (#[trigger] front[k]).alive && front[k].id@ == live_of(
                        front,
                    )[i].id;
                assert(pids[k] == front[k]);
            } else {
                assert(pids[n].alive);
            }
        }
        assert forall|i: int| 0 <= i < orphans_of_pids(pids).len() implies exists|k: int|
            0 <= k < pids.len() && !(#[trigger] pids[k]).alive && pids[k].id@ == (
            #[trigger] orphans_of_pids(pids)[i]).id by {
            if i < orphans_of_pids(front).len() {
                assert(orphans_of_pids(pids)[i] == orphans_of_pids(front)[i]);
                let k = choose|k: int|
                    0 <= k < front.len() && !(#[trigger] front[k]).alive && front[k].id@
                        == orphans_of_pids(front)[i].id;
                assert(pids[k] == front[k]);
            } else {
                assert(!pids[n].alive);
            }
        }
    }
}

// ---------------------------------------------------------------------
// Fixing
// ---------------------------------------------------------------------

/// One thing to do to fix a problem.
pub enum FixStep {
    /// Remove the files of an identifier.
    CleanUp(String),
    /// End a process, by `daemon::terminate_steps`.
    Terminate(u32),
}

/// What a `FixStep` holds.
pub enum FixView {
    CleanUp(Seq<char>),
    Terminate(u32),
}

impl View for FixStep {
    type V = FixView;

    open spec fn view(&self) -> FixView {
        match *self {
            FixStep::CleanUp(id) => FixView::CleanUp(id@),
            FixStep::Terminate(pid) => FixView::Terminate(pid),
        }
    }
}

/// What a list of steps holds.
pub open spec fn fix_views(v: Seq<FixStep>) -> Seq<FixView> {
    v.map_values(|s: FixStep| s@)
}

/// The steps for stale files.
pub open spec fn stale_fixes(stale: Seq<StaleView>) -> Seq<FixView> {
    stale.map_values(|s: StaleView| FixView::CleanUp(s.id))
}

/// The steps for orphans: each is ended, and its files are removed.
pub open spec fn orphan_fixes(orphans: Seq<OrphanView>) -> Seq<FixView>
    decreases orphans.len(),
{
    if orphans.len() == 0 {
        Seq::empty()
    } else {
        let o = orphans.last();
        orphan_fixes(orphans.drop_last()).push(FixView::Terminate(o.child_pid)).push(
            FixView::CleanUp(o.id),
        )
    }
}

/// The steps that fix what a report shows.
pub fn apply_fixes(r: &DoctorReport) -> (steps: Vec<FixStep>)
    ensures
        fix_views(steps@) == stale_fixes(stale_views(r.stale@)) + orphan_fixes(
            orphan_views(r.orphans@),
        ),
{
    let mut out: Vec<FixStep> = Vec::new();
    let ghost stale = stale_views(r.stale@);
    let ghost orphans = orphan_views(r.orphans@);
    let mut i: usize = 0;
    assert(fix_views(out@) =~= stale_fixes(stale.take(0)));
    while i < r.stale.len()
        invariant
            i <= r.stale@.len(),
            stale == stale_views(r.stale@),
            fix_views(out@) == stale_fixes(stale.take(i as int)),
        decreases r.stale@.len() - i,
    {
        let ghost before = out@;
        out.push(FixStep::CleanUp(r.stale[i].id.clone()));
        assert(fix_views(out@) =~= fix_views(before).push(FixView::CleanUp(stale[i as int].id)));
        assert(stale_fixes(stale.take(i + 1)) =~= stale_fixes(stale.take(i as int)).push(
            FixView::CleanUp(stale[i as int].id),
        ));
        i += 1;
    }
    assert(stale.take(stale.len() as int) =~= stale);
    let mut k: usize = 0;
    assert(orphans.take(0).len() == 0);
    assert(stale_fixes(stale) + orphan_fixes(orphans.take(0)) =~= stale_fixes(stale));
    while k < r.orphans.len()
        invariant
            k <= r.orphans@.len(),
            orphans == orphan_views(r.orphans@),
            fix_views(out@) == stale_fixes(stale) + orphan_fixes(orphans.take(k as int)),
        decreases r.orphans@.len() - k,
    {
        let ghost before = out@;
        let ghost next = orphans.take(k + 1);
        let o = &r.orphans[k];
        assert(next.drop_last() =~= orphans.take(k as int));
        assert(next.last() == o@);
        out.push(FixStep::Terminate(o.child_pid));
        out.push(FixStep::CleanUp(o.id.clone()));
        assert(fix_views(out@) =~= fix_views(before).push(FixView::Terminate(o.child_pid)).push(
            FixView::CleanUp(o.id@),
        ));
        assert(fix_views(out@) =~= stale_fixes(stale) + orphan_fixes(next));
        k += 1;
    }
    assert(orphans.take(orphans.len() as int) =~= orphans);
    out
}

// ---------------------------------------------------------------------
// Showing
// ---------------------------------------------------------------------

/// The line that shows a live manager.
pub open spec fn live_line(e: LiveView) -> Seq<char> {
    let child = match e.child_pid {
        Some(p) => text::decimal(p as nat),
        None => "-"@,
    };
    let name = match e.name {
        Some(n) => n,
        None => "-"@,
    };
    "  "@ + text::padded(e.id, 14) + " pid="@ + text::padded(
        text::decimal(e.daemon_pid as nat),
        6,
    ) + " child="@ + text::padded(child, 6) + " name="@ + text::padded(name, 14) + " project="@
        + e.project + "\n"@
}

/// The line that shows stale files.
pub open spec fn stale_line(e: StaleView) -> Seq<char> {
    "  "@ + e.id + " ("@ + e.reason + ")\n"@
}

/// The line that shows an orphan.
pub open spec fn orphan_line(e: OrphanView) -> Seq<char> {
    "  "@ + e.id + " child_pid="@ + text::decimal(e.child_pid as nat) + "\n"@
}

/// The line that shows a piece of advice.
pub open spec fn warning_line(w: Seq<char>) -> Seq<char> {
    "  ! "@ + w + "\n"@
}

/// A heading and lines under it, and nothing where there are no lines.
pub open spec fn section(heading: Seq<char>, all: Seq<Seq<char>>) -> Seq<char> {
    if all.len() == 0 {
        Seq::empty()
    } else {
        heading + joined(all)
    }
}

/// Texts one after the other.
pub open spec fn joined(all: Seq<Seq<char>>) -> Seq<char>
    decreases all.len(),
{
    if all.len() == 0 {
        Seq::empty()
    } else {
        joined(all.drop_last()) + all.last()
    }
}

/// The lines that a report shows to people.
pub open spec fn human_text(r: DoctorReport) -> Seq<char> {
    if r.live@.len() == 0 && !has_issues(r) {
        "agent-terminal: clean (no live, no stale, no orphans)\n"@
    } else {
        section(
            "live daemons:\n"@,
            live_views(r.live@).map_values(|e: LiveView| live_line(e)),
        ) + section(
            "stale entries:\n"@,
            stale_views(r.stale@).map_values(|e: StaleView| stale_line(e)),
        ) + section(
            "orphan children (daemon vanished):\n"@,
            orphan_views(r.orphans@).map_values(|e: OrphanView| orphan_line(e)),
        ) + section(
            "warnings:\n"@,
            r.warnings@.map_values(|w: String| warning_line(w@)),
        )
    }
}

/// Shows a live manager.
fn show_live(e: &LiveEntry) -> (s: String)
    ensures
        s@ == live_line(e@),
{
    let child: String = match e.child_pid {
        Some(p) => decimal_text(p as u64),
        None => "-".to_owned(),
    };
    let name: &str = match &e.name {
        Some(n) => n.as_str(),
        None => "-",
    };
    let mut out = "  ".to_owned();
    out.append(pad(e.id.as_str(), 14).as_str());
    out.append(" pid=");
    out.append(pad(decimal_text(e.daemon_pid as u64).as_str(), 6).as_str());
    out.append(" child=");
    out.append(pad(child.as_str(), 6).as_str());
    out.append(" name=");
    out.append(pad(name, 14).as_str());
    out.append(" project=");
    out.append(e.project.as_str());
    out.append("\n");
    out
}

/// A heading and lines under it.
fn show_section(heading: &str, all: &Vec<String>) -> (s: String)
    ensures
        s@ == section(heading@, all@.map_values(|t: String| t@)),
{
    let ghost texts = all@.map_values(|t: String| t@);
    if all.len() == 0 {
        return String::new();
    }
    let mut out = heading.to_owned();
    let mut i: usize = 0;
    assert(texts.take(0).len() == 0);
    assert(heading@ + Seq::<char>::empty() =~= heading@);
    while i < all.len()
        invariant
            i <= all@.len(),
            texts == all@.map_values(|t: String| t@),
            out@ == heading@ + joined(texts.take(i as int)),
        decreases all@.len() - i,
    {
        assert(texts.take(i + 1).drop_last() =~= texts.take(i as int));
        assert(texts.take(i + 1).last() == all@[i as int]@);
        out.append(all[i].as_str());
        assert(out@ =~= heading@ + joined(texts.take(i + 1)));
        i += 1;
    }
    assert(texts.take(texts.len() as int) =~= texts);
    out
}

/// Shows a report to people.
pub fn print_human(r: &DoctorReport) -> (s: String)
    ensures
        s@ == human_text(*r),
{
    if r.live.len() == 0 && r.stale.len() == 0 && r.orphans.len() == 0 && r.warnings.len() == 0 {
        return "agent-terminal: clean (no live, no stale, no orphans)\n".to_owned();
    }
    let mut live: Vec<String> = Vec::new();
    let mut i: usize = 0;
    while i < r.live.len()
        invariant
            i <= r.live@.len(),
            live@.len() == i,
            forall|k: int| 0 <= k < i ==> (#[trigger] live@[k])@ == live_line(r.live@[k]@),
        decreases r.live@.len() - i,
    {
        live.push(show_live(&r.live[i]));
        i += 1;
    }
    let mut stale: Vec<String> = Vec::new();
    let mut j: usize = 0;
    while j < r.stale.len()
        invariant
            j <= r.stale@.len(),
            stale@.len() == j,
            forall|k: int| 0 <= k < j ==> (#[trigger] stale@[k])@ == stale_line(r.stale@[k]@),
        decreases r.stale@.len() - j,
    {
        let e = &r.stale[j];
        let mut t = concat3("  ", e.id.as_str(), " (");
        t.append(e.reason.as_str());
        t.append(")\n");
        stale.push(t);
        j += 1;
    }
    let mut orphans: Vec<String> = Vec::new();
    let mut k: usize = 0;
    while k < r.orphans.len()
        invariant
            k <= r.orphans@.len(),
            orphans@.len() == k,
            forall|n: int|
                0 <= n < k ==> (#[trigger] orphans@[n])@ == orphan_line(r.orphans@[n]@),
        decreases r.orphans@.len() - k,
    {
        let e = &r.orphans[k];
        let mut t = concat3("  ", e.id.as_str(), " child_pid=");
        t.append(decimal_text(e.child_pid as u64).as_str());
        t.append("\n");
        orphans.push(t);
        k += 1;
    }
    let mut warnings: Vec<String> = Vec::new();
    let mut w: usize = 0;
    while w < r.warnings.len()
        invariant
            w <= r.warnings@.len(),
            warnings@.len() == w,
            forall|n: int|
                0 <= n < w ==> (#[trigger] warnings@[n])@ == warning_line(r.warnings@[n]@),
        decreases r.warnings@.len() - w,
    {
        warnings.push(concat3("  ! ", r.warnings[w].as_str(), "\n"));
        w += 1;
    }
    proof {
        assert(live@.map_values(|t: String| t@) =~= live_views(r.live@).map_values(
            |e: LiveView| live_line(e),
        ));
        assert(stale@.map_values(|t: String| t@) =~= stale_views(r.stale@).map_values(
            |e: StaleView| stale_line(e),
        ));
        assert(orphans@.map_values(|t: String| t@) =~= orphan_views(r.orphans@).map_values(
            |e: OrphanView| orphan_line(e),
        ));
        assert(warnings@.map_values(|t: String| t@) =~= r.warnings@.map_values(
            |t: String| warning_line(t@),
        ));
    }
    let mut out = show_section("live daemons:\n", &live);
    out.append(show_section("stale entries:\n", &stale).as_str());
    out.append(show_section("orphan children (daemon vanished):\n", &orphans).as_str());
    out.append(show_section("warnings:\n", &warnings).as_str());
    out
}

// ---------------------------------------------------------------------
// Misuse
// ---------------------------------------------------------------------

/// The record of a manager that has ended.
#[derive(Clone, Copy, PartialEq, Eq, Structural)]
pub struct RecentEntry {
    /// Seconds since the epoch.
    pub exited_at: u64,
    pub duration_ms: u64,
}

/// The pieces of a text between line feeds.
pub open spec fn text_lines(s: Seq<char>) -> Seq<Seq<char>>
    decreases s.len(),
{
    let k = text::first_index(s, '\n');
    if 0 <= k < s.len() {
        seq![s.take(k)] + text_lines(s.skip(k + 1))
    } else {
        seq![s]
    }
}

/// The lines of a text without the white space around them, empty ones left
/// out.
pub open spec fn kept_lines(all: Seq<Seq<char>>) -> Seq<Seq<char>>
    decreases all.len(),
{
    if all.len() == 0 {
        Seq::empty()
    } else {
        let rest = kept_lines(all.drop_first());
        let t = text::trimmed(all[0]);
        if t.len() == 0 {
            rest
        } else {
            seq![t] + rest
        }
    }
}

/// The records in the text of the file of recent managers, one per line.
pub fn record_lines(content: &str) -> (r: Vec<String>)
    ensures
        r@.map_values(|t: String| t@) == kept_lines(text_lines(content@)),
{
    let chars = chars_of(content);
    let n: usize = chars.len();
    let ghost want = kept_lines(text_lines(content@));
    let mut out: Vec<String> = Vec::new();
    let mut start: usize = 0;
    assert(content@.skip(0) =~= content@);
    assert(out@.map_values(|t: String| t@) + want =~= want);
    loop
        invariant
            start <= n,
            n == chars.len(),
            chars@ == content@,
            want == out@.map_values(|t: String| t@) + kept_lines(
                text_lines(content@.skip(start as int)),
            ),
            want == kept_lines(text_lines(content@)),
        decreases n - start,
    {
        let ghost rest = content@.skip(start as int);
        let ghost k = text::first_index(rest, '\n');
        proof {
            text::first_index_is_first(rest, '\n');
        }
        let mut end: usize = start;
        while end < n && chars[end] != '\n'
            invariant
                start <= end <= n,
                n == chars.len(),
                chars@ == content@,
                forall|j: int| start <= j < end ==> chars@[j] != '\n',
            decreases n - end,
        {
            end += 1;
        }
        proof {
            if end - start < k {
                assert(rest[end - start] == chars@[end as int]);
            }
            if k < end - start {
                assert(rest[k] == chars@[start + k]);
            }
        }
        assert(k == end - start);
        let piece = content.substring_char(start, end);
        assert(piece@ =~= rest.take(k));
        let line = trim(piece);
        let ghost before = out@.map_values(|t: String| t@);
        let ghost pieces = text_lines(rest);
        proof {
            if end < n {
                assert(rest.skip(k + 1) =~= content@.skip(end + 1));
                assert(pieces.drop_first() =~= text_lines(content@.skip(end + 1)));
            } else {
                assert(rest.take(k) =~= rest);
                assert(pieces.drop_first() =~= Seq::<Seq<char>>::empty());
            }
            assert(pieces[0] == piece@);
        }
        if line.unicode_len() > 0 {
            out.push(line.to_owned());
            assert(out@.map_values(|t: String| t@) =~= before.push(line@));
        }
        assert(out@.map_values(|t: String| t@) + kept_lines(pieces.drop_first()) =~= want);
        if end >= n {
            assert(kept_lines(pieces.drop_first()).len() == 0);
            assert(out@.map_values(|t: String| t@) =~= want);
            return out;
        }
        start = end + 1;
    }
}

/// Whether a manager counts as misuse: it ended of late, and was short-lived.
pub open spec fn is_misuse(e: RecentEntry, now: u64) -> bool {
    (now < e.exited_at || now - e.exited_at <= MISUSE_WINDOW_SECS) && e.duration_ms
        < MISUSE_DURATION_MS
}

/// How many managers count as misuse.
pub open spec fn misuse_count(entries: Seq<RecentEntry>, now: u64) -> nat
    decreases entries.len(),
{
    if entries.len() == 0 {
        0
    } else {
        misuse_count(entries.drop_last(), now) + if is_misuse(entries.last(), now) {
            1nat
        } else {
            0nat
        }
    }
}

/// What is said of too many short-lived managers.
pub open spec fn misuse_text(count: nat) -> Seq<char> {
    "Detected "@ + text::decimal(count)
        + " short-lived daemons (<2s each) in the past hour. For one-shot commands, run them through `bash` directly instead of `agent-terminal spawn`."@
}

/// Warns of too many short-lived managers.
pub fn misuse_warning(entries: &[RecentEntry], now: u64) -> (r: Option<String>)
    ensures
        match r {
            Some(t) => misuse_count(entries@, now) >= MISUSE_COUNT && t@ == misuse_text(
                misuse_count(entries@, now),
            ),
            None => misuse_count(entries@, now) < MISUSE_COUNT,
        },
{
    let mut count: usize = 0;
    let mut i: usize = 0;
    assert(entries@.take(0).len() == 0);
    while i < entries.len()
        invariant
            i <= entries@.len(),
            count <= i,
            count == misuse_count(entries@.take(i as int), now),
        decreases entries@.len() - i,
    {
        let e = entries[i];
        assert(entries@.take(i + 1).drop_last() =~= entries@.take(i as int));
        assert(entries@.take(i + 1).last() == e);
        if now.saturating_sub(e.exited_at) <= MISUSE_WINDOW_SECS && e.duration_ms
            < MISUSE_DURATION_MS {
            count += 1;
        }
        i += 1;
    }
    assert(entries@.take(entries@.len() as int) =~= entries@);
    if count >= MISUSE_COUNT {
        Some(
            concat3(
                "Detected ",
                decimal_text(count as u64).as_str(),
                " short-lived daemons (<2s each) in the past hour. For one-shot commands, run them through `bash` directly instead of `agent-terminal spawn`.",
            ),
        )
    } else {
        None
    }
}

// ---------------------------------------------------------------------
// Laws
// ---------------------------------------------------------------------

/// Every manager that is alive is reported once, in order, with what its metadata
/// say of it.
pub proof fn every_live_manager_is_reported(pids: Seq<PidState>)
    ensures
        live_of(pids).len() == pids.filter(|p: PidState| p.pid is Some && p.alive).len(),
        forall|i: int|
            0 <= i < live_of(pids).len() ==> ({
                let p = pids.filter(|p: PidState| p.pid is Some && p.alive)[i];
                let e = #[trigger] live_of(pids)[i];
                &&& e.id == p.id@
                &&& e.daemon_pid == p.pid->0
                &&& p.meta is Some ==> e.child_pid == p.meta->0.child_pid && e.project
                    == p.meta->0.project@ && (p.meta->0.name is None ==> e.name is None) && (
                p.meta->0.name is Some ==> e.name == Some(p.meta->0.name->0@))
                &&& p.meta is None ==> e.child_pid is None && e.name is None
            }),
    decreases pids.len(),
{
    reveal(Seq::filter);
    if pids.len() > 0 {
        every_live_manager_is_reported(pids.drop_last());
    }
}

/// Every pid file whose manager is gone is reported as stale, once and in order, and
/// so is every socket and all metadata without a pid file.
pub proof fn every_leftover_is_reported(
    pids: Seq<PidState>,
    socks: Seq<SockState>,
    metas: Seq<MetaState>,
)
    ensures
        stale_pids(pids).map_values(|e: StaleView| e.id) == pids.filter(
            |p: PidState| !(p.pid is Some && p.alive),
        ).map_values(|p: PidState| p.id@),
        stale_socks(socks).map_values(|e: StaleView| e.id) == socks.filter(
            |s: SockState| !s.pid_file,
        ).map_values(|s: SockState| s.id@),
        stale_metas(metas).map_values(|e: StaleView| e.id) == metas.filter(
            |m: MetaState| !m.pid_file,
        ).map_values(|m: MetaState| m.id@),
        forall|i: int|
            0 <= i < stale_socks(socks).len() ==> (#[trigger] stale_socks(socks)[i]).reason
                == "orphan .sock"@,
        forall|i: int|
            0 <= i < stale_metas(metas).len() ==> (#[trigger] stale_metas(metas)[i]).reason
                == "orphan .meta"@,
{
    lemma_stale_pids(pids);
    lemma_stale_socks(socks);
    lemma_stale_metas(metas);
}

proof fn lemma_stale_pids(pids: Seq<PidState>)
    ensures
        stale_pids(pids).map_values(|e: StaleView| e.id) == pids.filter(
            |p: PidState| !(p.pid is Some && p.alive),
        ).map_values(|p: PidState| p.id@),
    decreases pids.len(),
{
    reveal(Seq::filter);
    let f = |e: StaleView| e.id;
    let g = |p: PidState| p.id@;
    let c = |p: PidState| !(p.pid is Some && p.alive);
    if pids.len() > 0 {
        let front = pids.drop_last();
        let p = pids.last();
        lemma_stale_pids(front);
        if c(p) {
            assert(front.filter(c).push(p).map_values(g) =~= front.filter(c).map_values(g).push(
                p.id@,
            ));
            assert(stale_pids(pids).map_values(f) =~= stale_pids(front).map_values(f).push(p.id@));
        }
    } else {
        assert(stale_pids(pids).map_values(f) =~= pids.filter(c).map_values(g));
    }
}

proof fn lemma_stale_socks(socks: Seq<SockState>)
    ensures
        stale_socks(socks).map_values(|e: StaleView| e.id) == socks.filter(
            |s: SockState| !s.pid_file,
        ).map_values(|s: SockState| s.id@),
        forall|i: int|
            0 <= i < stale_socks(socks).len() ==> (#[trigger] stale_socks(socks)[i]).reason
                == "orphan .sock"@,
    decreases socks.len(),
{
    reveal(Seq::filter);
    let f = |e: StaleView| e.id;
    let g = |s: SockState| s.id@;
    let c = |s: SockState| !s.pid_file;
    if socks.len() > 0 {
        let front = socks.drop_last();
        let s = socks.last();
        lemma_stale_socks(front);
        if c(s) {
            assert(front.filter(c).push(s).map_values(g) =~= front.filter(c).map_values(g).push(
                s.id@,
            ));
            assert(stale_socks(socks).map_values(f) =~= stale_socks(front).map_values(f).push(
                s.id@,
            ));
        }
    } else {
        assert(stale_socks(socks).map_values(f) =~= socks.filter(c).map_values(g));
    }
}

proof fn lemma_stale_metas(metas: Seq<MetaState>)
    ensures
        stale_metas(metas).map_values(|e: StaleView| e.id) == metas.filter(
            |m: MetaState| !m.pid_file,
        ).map_values(|m: MetaState| m.id@),
        forall|i: int|
            0 <= i < stale_metas(metas).len() ==> (#[trigger] stale_metas(metas)[i]).reason
                == "orphan .meta"@,
    decreases metas.len(),
{
    reveal(Seq::filter);
    let f = |e: StaleView| e.id;
    let g = |m: MetaState| m.id@;
    let c = |m: MetaState| !m.pid_file;
    if metas.len() > 0 {
        let front = metas.drop_last();
        let m = metas.last();
        lemma_stale_metas(front);
        if c(m) {
            assert(front.filter(c).push(m).map_values(g) =~= front.filter(c).map_values(g).push(
                m.id@,
            ));
            assert(stale_metas(metas).map_values(f) =~= stale_metas(front).map_values(f).push(
                m.id@,
            ));
        }
    } else {
        assert(stale_metas(metas).map_values(f) =~= metas.filter(c).map_values(g));
    }
}

/// A pid file says why it is stale: it cannot be read, or its process is gone.
pub proof fn a_stale_pid_file_says_why(pids: Seq<PidState>, p: PidState)
    ensures
        p.pid is None ==> stale_pids(pids.push(p)) == stale_pids(pids).push(
            StaleView { id: p.id@, reason: "unreadable .pid"@ },
        ),
        p.pid is Some && !p.alive ==> stale_pids(pids.push(p)) == stale_pids(pids).push(
            StaleView { id: p.id@, reason: "daemon process gone"@ },
        ),
        p.pid is Some && p.alive ==> stale_pids(pids.push(p)) == stale_pids(pids),
{
    assert(pids.push(p).drop_last() =~= pids);
}

/// A subprocess is an orphan where it is alive and its manager is known to be gone,
/// and every such one is reported once, in order.
pub proof fn every_orphan_is_reported(pids: Seq<PidState>, metas: Seq<MetaState>)
    ensures
        ({
            let gone = pids.filter(
                |p: PidState|
                    p.pid is Some && !p.alive && p.child_alive && p.meta is Some
                        && p.meta->0.child_pid is Some,
            );
            &&& orphans_of_pids(pids).len() == gone.len()
            &&& forall|i: int|
                0 <= i < gone.len() ==> (#[trigger] orphans_of_pids(pids)[i]).id == gone[i].id@
                    && orphans_of_pids(pids)[i].child_pid == gone[i].meta->0.child_pid->0
        }),
        ({
            let gone = metas.filter(
                |m: MetaState| !m.pid_file && m.child_pid is Some && m.child_alive,
            );
            &&& orphans_of_metas(metas).len() == gone.len()
            &&& forall|i: int|
                0 <= i < gone.len() ==> (#[trigger] orphans_of_metas(metas)[i]).id == gone[i].id@
                    && orphans_of_metas(metas)[i].child_pid == gone[i].child_pid->0
        }),
    decreases pids.len() + metas.len(),
{
    reveal(Seq::filter);
    if pids.len() > 0 {
        every_orphan_is_reported(pids.drop_last(), metas);
    } else if metas.len() > 0 {
        every_orphan_is_reported(pids, metas.drop_last());
    }
}

/// Mending cleans up every stale entry, and ends every orphan before it cleans up
/// behind it.
pub proof fn every_problem_is_mended(
    stale: Seq<StaleView>,
    orphans: Seq<OrphanView>,
    o: OrphanView,
)
    ensures
        stale_fixes(stale).len() == stale.len(),
        forall|i: int|
            0 <= i < stale.len() ==> #[trigger] stale_fixes(stale)[i] == FixView::CleanUp(
                stale[i].id,
            ),
        orphan_fixes(Seq::empty()).len() == 0,
        orphan_fixes(orphans.push(o)) == orphan_fixes(orphans) + seq![
            FixView::Terminate(o.child_pid),
            FixView::CleanUp(o.id),
        ],
        orphan_fixes(orphans).len() == 2 * orphans.len(),
        forall|i: int|
            0 <= i < orphans.len() ==> orphan_fixes(orphans)[2 * i] == FixView::Terminate(
                (#[trigger] orphans[i]).child_pid,
            ) && orphan_fixes(orphans)[2 * i + 1] == FixView::CleanUp(orphans[i].id),
    decreases orphans.len(),
{
    assert(orphans.push(o).drop_last() =~= orphans);
    assert(orphan_fixes(orphans.push(o)) =~= orphan_fixes(orphans) + seq![
        FixView::Terminate(o.child_pid),
        FixView::CleanUp(o.id),
    ]);
    if orphans.len() > 0 {
        let front = orphans.drop_last();
        every_problem_is_mended(stale, front, orphans.last());
        assert forall|i: int| 0 <= i < orphans.len() implies orphan_fixes(orphans)[2 * i]
            == FixView::Terminate((#[trigger] orphans[i]).child_pid) && orphan_fixes(
            orphans,
        )[2 * i + 1] == FixView::CleanUp(orphans[i].id) by {
            if i < front.len() {
                assert(front[i] == orphans[i]);
            }
        }
    }
}

/// There is a problem wherever anything but a live manager is reported.
pub proof fn anything_but_live_managers_is_a_problem(r: DoctorReport)
    ensures
        has_issues(r) <==> !(r.stale@.len() == 0 && r.orphans@.len() == 0 && r.warnings@.len() == 0),
{
}

/// The lines of a section follow each other, all of them, behind its heading; an
/// empty section is not shown.
pub proof fn sections_show_every_line(heading: Seq<char>, all: Seq<Seq<char>>, line: Seq<char>)
    ensures
        joined(all) == all.flatten(),
        section(heading, Seq::empty()).len() == 0,
        section(heading, all.push(line)) == heading + all.push(line).flatten(),
        forall|i: int|
            0 <= i < all.len() ==> text::occurs(section(heading, all), #[trigger] all[i]),
    decreases all.len(),
{
    assert(all.push(line).drop_last() =~= all);
    if all.len() > 0 {
        let front = all.drop_last();
        sections_show_every_line(heading, front, all.last());
        front.lemma_flatten_push(all.last());
        assert(front.push(all.last()) =~= all);
        text::a_text_occurs_in_itself(joined(front), all.last());
        text::longer_texts_hold_more(joined(front), all.last());
        lemma_joined_holds(all);
        text::longer_texts_hold_more_behind(heading, joined(all));
    } else {
        assert(joined(all) =~= all.flatten());
    }
    all.lemma_flatten_push(line);
}

proof fn lemma_joined_holds(all: Seq<Seq<char>>)
    ensures
        forall|i: int| 0 <= i < all.len() ==> text::occurs(joined(all), #[trigger] all[i]),
    decreases all.len(),
{
    if all.len() > 0 {
        let front = all.drop_last();
        lemma_joined_holds(front);
        text::a_text_occurs_in_itself(joined(front), all.last());
        text::longer_texts_hold_more(joined(front), all.last());
        assert forall|i: int| 0 <= i < all.len() implies text::occurs(
            joined(all),
            #[trigger] all[i],
        ) by {
            if i < front.len() {
                assert(all[i] == front[i]);
            }
        }
    }
}

/// A diagnosis shows every entry that it has.
pub proof fn a_diagnosis_is_shown_whole(r: DoctorReport)
    ensures
        forall|i: int|
            0 <= i < r.live@.len() ==> text::occurs(
                human_text(r),
                live_line((#[trigger] r.live@[i])@),
            ),
        forall|i: int|
            0 <= i < r.stale@.len() ==> text::occurs(
                human_text(r),
                "  "@ + (#[trigger] r.stale@[i]).id@ + " ("@ + r.stale@[i].reason@ + ")\n"@,
            ),
        forall|i: int|
            0 <= i < r.orphans@.len() ==> text::occurs(
                human_text(r),
                "  "@ + (#[trigger] r.orphans@[i]).id@ + " child_pid="@ + text::decimal(
                    r.orphans@[i].child_pid as nat,
                ) + "\n"@,
            ),
        forall|i: int|
            0 <= i < r.warnings@.len() ==> text::occurs(
                human_text(r),
                "  ! "@ + (#[trigger] r.warnings@[i])@ + "\n"@,
            ),
        r.live@.len() == 0 && r.stale@.len() == 0 && r.orphans@.len() == 0 && r.warnings@.len() == 0
            ==> human_text(r) == "agent-terminal: clean (no live, no stale, no orphans)\n"@,
{
    let a = live_views(r.live@).map_values(|e: LiveView| live_line(e));
    let b = stale_views(r.stale@).map_values(|e: StaleView| stale_line(e));
    let c = orphan_views(r.orphans@).map_values(|e: OrphanView| orphan_line(e));
    let d = r.warnings@.map_values(|w: String| warning_line(w@));
    let sa = section("live daemons:\n"@, a);
    let sb = section("stale entries:\n"@, b);
    let sc = section("orphan children (daemon vanished):\n"@, c);
    let sd = section("warnings:\n"@, d);
    sections_show_every_line("live daemons:\n"@, a, Seq::empty());
    sections_show_every_line("stale entries:\n"@, b, Seq::empty());
    sections_show_every_line("orphan children (daemon vanished):\n"@, c, Seq::empty());
    sections_show_every_line("warnings:\n"@, d, Seq::empty());
    text::longer_texts_hold_more(sa, sb);
    text::longer_texts_hold_more(sa + sb, sc);
    text::longer_texts_hold_more(sa + sb + sc, sd);
    text::longer_texts_hold_more_behind(sa, sb);
    text::longer_texts_hold_more_behind(sa + sb, sc);
    text::longer_texts_hold_more_behind(sa + sb + sc, sd);
    assert forall|i: int| 0 <= i < r.live@.len() implies text::occurs(
        human_text(r),
        live_line((#[trigger] r.live@[i])@),
    ) by {
        assert(a[i] == live_line(r.live@[i]@));
    }
    assert forall|i: int| 0 <= i < r.stale@.len() implies text::occurs(
        human_text(r),
        "  "@ + (#[trigger] r.stale@[i]).id@ + " ("@ + r.stale@[i].reason@ + ")\n"@,
    ) by {
        assert(b[i] == stale_line(r.stale@[i]@));
    }
    assert forall|i: int| 0 <= i < r.orphans@.len() implies text::occurs(
        human_text(r),
        "  "@ + (#[trigger] r.orphans@[i]).id@ + " child_pid="@ + text::decimal(
            r.orphans@[i].child_pid as nat,
        ) + "\n"@,
    ) by {
        assert(c[i] == orphan_line(r.orphans@[i]@));
    }
    assert forall|i: int| 0 <= i < r.warnings@.len() implies text::occurs(
        human_text(r),
        "  ! "@ + (#[trigger] r.warnings@[i])@ + "\n"@,
    ) by {
        assert(d[i] == warning_line(r.warnings@[i]@));
    }
}

/// The line of a manager shows its identifier, its processes, its name and its
/// project.
pub proof fn a_manager_is_shown_whole(e: LiveView)
    ensures
        text::occurs(live_line(e), "  "@ + e.id),
        text::occurs(live_line(e), " pid="@ + text::decimal(e.daemon_pid as nat)),
        e.child_pid is Some ==> text::occurs(
            live_line(e),
            " child="@ + text::decimal(e.child_pid->0 as nat),
        ),
        e.child_pid is None ==> text::occurs(live_line(e), " child="@ + "-"@),
        e.name is Some ==> text::occurs(live_line(e), " name="@ + e.name->0),
        e.name is None ==> text::occurs(live_line(e), " name="@ + "-"@),
        text::occurs(live_line(e), " project="@ + e.project),
{
    let child = match e.child_pid {
        Some(p) => text::decimal(p as nat),
        None => "-"@,
    };
    let name = match e.name {
        Some(n) => n,
        None => "-"@,
    };
    let pid = text::decimal(e.daemon_pid as nat);
    let t1 = "  "@;
    let t2 = t1 + text::padded(e.id, 14);
    let t3 = t2 + " pid="@;
    let t4 = t3 + text::padded(pid, 6);
    let t5 = t4 + " child="@;
    let t6 = t5 + text::padded(child, 6);
    let t7 = t6 + " name="@;
    let t8 = t7 + text::padded(name, 14);
    let t9 = t8 + " project="@;
    let t10 = t9 + e.project;
    assert(live_line(e) == t10 + "\n"@);
    lemma_padded_stands(Seq::empty(), "  "@, e.id, 14);
    assert(Seq::<char>::empty() + "  "@ =~= "  "@);
    lemma_padded_stands(t2, " pid="@, pid, 6);
    lemma_padded_stands(t4, " child="@, child, 6);
    lemma_padded_stands(t6, " name="@, name, 14);
    text::two_parts_stand_together(t8, " project="@, e.project);
    text::longer_texts_hold_more(t2, " pid="@);
    text::longer_texts_hold_more(t3, text::padded(pid, 6));
    text::longer_texts_hold_more(t4, " child="@);
    text::longer_texts_hold_more(t5, text::padded(child, 6));
    text::longer_texts_hold_more(t6, " name="@);
    text::longer_texts_hold_more(t7, text::padded(name, 14));
    text::longer_texts_hold_more(t8, " project="@);
    text::longer_texts_hold_more(t9, e.project);
    text::longer_texts_hold_more(t10, "\n"@);
}

proof fn lemma_padded_stands(a: Seq<char>, x: Seq<char>, s: Seq<char>, width: nat)
    ensures
        text::occurs(a + x + text::padded(s, width), x + s),
{
    text::padding_only_fills_up(0, s, width);
    let p = text::padded(s, width);
    let blanks = p.skip(s.len() as int);
    assert(p =~= s + blanks) by {
        assert(p =~= p.take(s.len() as int) + blanks);
    }
    text::two_parts_stand_together(a, x, s);
    text::longer_texts_hold_more(a + x + s, blanks);
    assert(a + x + s + blanks =~= a + x + p);
}

/// The records of a file are its lines without the white space around them, and
/// without those that are empty then.
pub proof fn every_record_is_read(t: Seq<char>, rest: Seq<char>, all: Seq<Seq<char>>)
    requires
        !t.contains('\n'),
    ensures
        text_lines(t + seq!['\n'] + rest) == seq![t] + text_lines(rest),
        text_lines(t) == seq![t],
        kept_lines(Seq::empty()).len() == 0,
        text::trimmed(t).len() > 0 ==> kept_lines(seq![t] + all) == seq![text::trimmed(t)]
            + kept_lines(all),
        text::trimmed(t).len() == 0 ==> kept_lines(seq![t] + all) == kept_lines(all),
{
    let s = t + seq!['\n'] + rest;
    text::first_index_is_first(s, '\n');
    text::first_index_is_first(t, '\n');
    let k = text::first_index(s, '\n');
    assert(s[t.len() as int] == '\n');
    if k < t.len() {
        assert(s[k] == t[k]);
        assert(t.contains(t[k]));
    }
    assert(k == t.len());
    assert(s.take(k) =~= t);
    assert(s.skip(k + 1) =~= rest);
    assert((seq![t] + all).drop_first() =~= all);
}

/// A short life counts as misuse for an hour, and ten of them make a warning.
pub proof fn short_lives_count_for_an_hour(entries: Seq<RecentEntry>, now: u64)
    ensures
        misuse_count(entries, now) == entries.filter(
            |e: RecentEntry| (now <= e.exited_at + 3600) && e.duration_ms < 2000,
        ).len(),
        MISUSE_COUNT == 10,
        text::occurs(misuse_text(entries.len()), "Detected "@ + text::decimal(entries.len())),
    decreases entries.len(),
{
    reveal(Seq::filter);
    if entries.len() > 0 {
        short_lives_count_for_an_hour(entries.drop_last(), now);
    }
    let n = text::decimal(entries.len());
    text::a_text_occurs_in_itself(Seq::empty(), "Detected "@ + n);
    text::longer_texts_hold_more(
        "Detected "@ + n,
        " short-lived daemons (<2s each) in the past hour. For one-shot commands, run them through `bash` directly instead of `agent-terminal spawn`."@,
    );
}

/// Each kind of entry stands under its own heading, and the headings keep their order.
pub proof fn entries_stand_under_their_heading(r: DoctorReport)
    requires
        r.live@.len() > 0,
        r.stale@.len() > 0,
        r.orphans@.len() > 0,
        r.warnings@.len() > 0,
    ensures
        human_text(r) == "live daemons:\n"@ + r.live@.map_values(
            |e: LiveEntry| live_line(e@),
        ).flatten() + ("stale entries:\n"@ + r.stale@.map_values(
            |e: StaleEntry| "  "@ + e.id@ + " ("@ + e.reason@ + ")\n"@,
        ).flatten()) + ("orphan children (daemon vanished):\n"@ + r.orphans@.map_values(
            |e: OrphanEntry|
                "  "@ + e.id@ + " child_pid="@ + text::decimal(e.child_pid as nat) + "\n"@,
        ).flatten()) + ("warnings:\n"@ + r.warnings@.map_values(
            |w: String| "  ! "@ + w@ + "\n"@,
        ).flatten()),
{
    let a = live_views(r.live@).map_values(|e: LiveView| live_line(e));
    let b = stale_views(r.stale@).map_values(|e: StaleView| stale_line(e));
    let c = orphan_views(r.orphans@).map_values(|e: OrphanView| orphan_line(e));
    let d = r.warnings@.map_values(|w: String| warning_line(w@));
    sections_show_every_line(Seq::empty(), a, Seq::empty());
    sections_show_every_line(Seq::empty(), b, Seq::empty());
    sections_show_every_line(Seq::empty(), c, Seq::empty());
    sections_show_every_line(Seq::empty(), d, Seq::empty());
    assert(a =~= r.live@.map_values(|e: LiveEntry| live_line(e@)));
    assert(b =~= r.stale@.map_values(
        |e: StaleEntry| "  "@ + e.id@ + " ("@ + e.reason@ + ")\n"@,
    ));
    assert(c =~= r.orphans@.map_values(
        |e: OrphanEntry|
            "  "@ + e.id@ + " child_pid="@ + text::decimal(e.child_pid as nat) + "\n"@,
    ));
    assert(d =~= r.warnings@.map_values(|w: String| "  ! "@ + w@ + "\n"@));
}

} // verus!
