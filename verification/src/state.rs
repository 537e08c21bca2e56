//! The state directory and the files in it.

use vstd::prelude::*;
use vstd::string::*;

use crate::ids;
use crate::text;
use crate::text::{chars_of, concat2, concat3, parse_unsigned, trim};

verus! {

/// The endings of the files that a manager writes beside the log, and that are
/// removed once it is gone. The log itself stays.
pub const SIDECAR_SUFFIXES: [&'static str; 5] = [".pid", ".version", ".cmd", ".sock", ".meta"];

// ---------------------------------------------------------------------
// Paths
// ---------------------------------------------------------------------

/// A name looked up in a directory. An absolute name stands for itself.
pub open spec fn path_join(dir: Seq<char>, name: Seq<char>) -> Seq<char> {
    if dir.len() == 0 || (name.len() > 0 && name[0] == '/') {
        name
    } else if dir.last() == '/' {
        dir + name
    } else {
        dir + seq!['/'] + name
    }
}

/// Looks a name up in a directory.
pub fn join_path(dir: &str, name: &str) -> (r: String)
    ensures
        r@ == path_join(dir@, name@),
{
    let d = chars_of(dir);
    let n = chars_of(name);
    if d.len() == 0 || (n.len() > 0 && n[0] == '/') {
        return name.to_owned();
    }
    if d[d.len() - 1] == '/' {
        concat2(dir, name)
    } else {
        proof {
            reveal_strlit("/");
        }
        assert("/"@ =~= seq!['/']);
        concat3(dir, "/", name)
    }
}

/// The state directory: an explicit setting, else a directory in the runtime
/// directory, else one in the home directory, else one in the directory for
/// temporary files. Empty settings count as missing.
pub open spec fn state_dir(
    explicit: Option<Seq<char>>,
    runtime: Option<Seq<char>>,
    home: Option<Seq<char>>,
    temp: Seq<char>,
) -> Seq<char> {
    if explicit matches Some(d) && d.len() > 0 {
        explicit->0
    } else if runtime matches Some(d) && d.len() > 0 {
        path_join(runtime->0, "agent-term"@)
    } else if home is Some {
        path_join(home->0, ".agent-term"@)
    } else {
        path_join(temp, "agent-term"@)
    }
}

/// The characters of an optional string.
pub open spec fn opt_chars(value: Option<&str>) -> Option<Seq<char>> {
    match value {
        Some(v) => Some(v@),
        None => None,
    }
}

/// Works out the state directory.
pub fn resolve_state_dir(
    explicit: Option<&str>,
    runtime: Option<&str>,
    home: Option<&str>,
    temp: &str,
) -> (r: String)
    ensures
        r@ == state_dir(opt_chars(explicit), opt_chars(runtime), opt_chars(home), temp@),
{
    match explicit {
        Some(d) => {
            if d.unicode_len() > 0 {
                return d.to_owned();
            }
        },
        None => {},
    }
    match runtime {
        Some(d) => {
            if d.unicode_len() > 0 {
                return join_path(d, "agent-term");
            }
        },
        None => {},
    }
    match home {
        Some(h) => join_path(h, ".agent-term"),
        None => join_path(temp, "agent-term"),
    }
}

/// The path of a file of a subprocess.
pub open spec fn file_path(dir: Seq<char>, id: Seq<char>, suffix: Seq<char>) -> Seq<char> {
    path_join(dir, id + suffix)
}

/// The path of a file of a subprocess.
pub fn path_with(dir: &str, id: &str, suffix: &str) -> (r: String)
    ensures
        r@ == file_path(dir@, id@, suffix@),
{
    join_path(dir, concat2(id, suffix).as_str())
}

/// Where the process id of the manager is kept.
pub fn pid_path(dir: &str, id: &str) -> (r: String)
    ensures
        r@ == file_path(dir@, id@, ".pid"@),
{
    path_with(dir, id, ".pid")
}

/// Where the version of the manager is kept.
pub fn version_path(dir: &str, id: &str) -> (r: String)
    ensures
        r@ == file_path(dir@, id@, ".version"@),
{
    path_with(dir, id, ".version")
}

/// Where the command is kept.
pub fn cmd_path(dir: &str, id: &str) -> (r: String)
    ensures
        r@ == file_path(dir@, id@, ".cmd"@),
{
    path_with(dir, id, ".cmd")
}

/// The socket of the manager.
pub fn sock_path(dir: &str, id: &str) -> (r: String)
    ensures
        r@ == file_path(dir@, id@, ".sock"@),
{
    path_with(dir, id, ".sock")
}

/// Where the metadata are kept.
pub fn meta_path(dir: &str, id: &str) -> (r: String)
    ensures
        r@ == file_path(dir@, id@, ".meta"@),
{
    path_with(dir, id, ".meta")
}

/// The log.
pub fn log_path(dir: &str, id: &str) -> (r: String)
    ensures
        r@ == file_path(dir@, id@, ".log"@),
{
    path_with(dir, id, ".log")
}

/// Where the lifetimes of recent managers are kept.
pub fn recent_log_path(dir: &str) -> (r: String)
    ensures
        r@ == path_join(dir@, "recent.jsonl"@),
{
    join_path(dir, "recent.jsonl")
}

/// The endings of the files to clean up.
pub open spec fn suffixes() -> Seq<Seq<char>> {
    seq![".pid"@, ".version"@, ".cmd"@, ".sock"@, ".meta"@]
}

/// What each string of a list holds.
pub open spec fn string_views(v: Seq<String>) -> Seq<Seq<char>> {
    v.map_values(|s: String| s@)
}

/// The files to remove for a subprocess whose manager is gone.
pub open spec fn cleanup_paths(dir: Seq<char>, id: Seq<char>) -> Seq<Seq<char>> {
    suffixes().map_values(|s: Seq<char>| file_path(dir, id, s))
}

/// The files to remove for a subprocess whose manager is gone.
pub fn cleanup_stale_files(dir: &str, id: &str) -> (r: Vec<String>)
    ensures
        string_views(r@) == cleanup_paths(dir@, id@),
{
    let mut out: Vec<String> = Vec::new();
    let mut i: usize = 0;
    while i < SIDECAR_SUFFIXES.len()
        invariant
            i <= 5,
            SIDECAR_SUFFIXES@.len() == 5,
            string_views(out@) == cleanup_paths(dir@, id@).take(i as int),
        decreases 5 - i,
    {
        let ghost before = out@;
        out.push(path_with(dir, id, SIDECAR_SUFFIXES[i]));
        assert(SIDECAR_SUFFIXES@[i as int]@ == suffixes()[i as int]);
        assert(string_views(out@) =~= string_views(before).push(
            file_path(dir@, id@, suffixes()[i as int]),
        ));
        assert(cleanup_paths(dir@, id@).take(i + 1) =~= cleanup_paths(dir@, id@).take(
            i as int,
        ).push(file_path(dir@, id@, suffixes()[i as int])));
        i += 1;
    }
    assert(cleanup_paths(dir@, id@).take(5) =~= cleanup_paths(dir@, id@));
    out
}

// ---------------------------------------------------------------------
// Laws about names
// ---------------------------------------------------------------------

/// Whether a text is one of the endings that are in use.
pub open spec fn is_suffix(s: Seq<char>) -> bool {
    suffixes().contains(s) || s == ".log"@
}

proof fn lemma_suffix_starts_with_dot(s: Seq<char>)
    requires
        is_suffix(s),
    ensures
        s.len() > 0,
        s[0] == '.',
{
    reveal_strlit(".pid");
    reveal_strlit(".version");
    reveal_strlit(".cmd");
    reveal_strlit(".sock");
    reveal_strlit(".meta");
    reveal_strlit(".log");
    if suffixes().contains(s) {
        let k = suffixes().index_of(s);
        assert(s == suffixes()[k]);
    }
}

/// The log is not among the files that are removed.
pub proof fn log_is_no_sidecar()
    ensures
        !suffixes().contains(".log"@),
{
    reveal_strlit(".pid");
    reveal_strlit(".version");
    reveal_strlit(".cmd");
    reveal_strlit(".sock");
    reveal_strlit(".meta");
    reveal_strlit(".log");
    if suffixes().contains(".log"@) {
        let k = suffixes().index_of(".log"@);
        assert(suffixes()[k] == ".log"@);
        assert(".log"@[1] == 'l');
        assert(".pid"@[1] == 'p');
        assert(".version"@[1] == 'v');
        assert(".cmd"@[1] == 'c');
        assert(".sock"@[1] == 's');
        assert(".meta"@[1] == 'm');
    }
}

/// Files of different subprocesses, or with different endings, have different
/// paths.
pub proof fn files_do_not_collide(
    dir: Seq<char>,
    a: Seq<char>,
    b: Seq<char>,
    s: Seq<char>,
    t: Seq<char>,
)
    requires
        ids::valid_id(a),
        ids::valid_id(b),
        is_suffix(s),
        is_suffix(t),
        file_path(dir, a, s) == file_path(dir, b, t),
    ensures
        a == b,
        s == t,
{
    lemma_suffix_starts_with_dot(s);
    lemma_suffix_starts_with_dot(t);
    let x = a + s;
    let y = b + t;
    assert(x[0] == a[0]);
    assert(y[0] == b[0]);
    assert(ids::is_id_char(a[0]));
    assert(ids::is_id_char(b[0]));
    assert(x == y) by {
        if dir.len() > 0 {
            let p = file_path(dir, a, s);
            if dir.last() == '/' {
                assert(p.skip(dir.len() as int) =~= x);
                assert((dir + y).skip(dir.len() as int) =~= y);
            } else {
                assert(p.skip(dir.len() as int + 1) =~= x);
                assert((dir + seq!['/'] + y).skip(dir.len() as int + 1) =~= y);
            }
        }
    }
    let n = a.len() as int;
    let m = b.len() as int;
    assert(x[n] == '.');
    assert(y[m] == '.');
    if n < m {
        assert(y[n] == b[n]);
        assert(ids::is_id_char(b[n]));
    }
    if m < n {
        assert(x[m] == a[m]);
        assert(ids::is_id_char(a[m]));
    }
    assert(x.take(n) =~= a);
    assert(y.take(n) =~= b);
    assert(x.skip(n) =~= s);
    assert(y.skip(n) =~= t);
}

/// Cleaning up after one subprocess removes neither a log nor any file of
/// another subprocess.
pub proof fn cleanup_spares_logs_and_others(
    dir: Seq<char>,
    a: Seq<char>,
    b: Seq<char>,
    s: Seq<char>,
)
    requires
        ids::valid_id(a),
        ids::valid_id(b),
        is_suffix(s),
        a != b || s == ".log"@,
    ensures
        !cleanup_paths(dir, a).contains(file_path(dir, b, s)),
{
    let c = cleanup_paths(dir, a);
    let f = file_path(dir, b, s);
    if c.contains(f) {
        let k = c.index_of(f);
        let t = suffixes()[k];
        assert(suffixes().contains(t));
        assert(f == file_path(dir, a, t));
        files_do_not_collide(dir, b, a, s, t);
        log_is_no_sidecar();
    }
}

/// With an identifier that was checked, every file lies directly in the state
/// directory.
pub proof fn files_stay_in_the_directory(dir: Seq<char>, id: Seq<char>, s: Seq<char>)
    requires
        ids::valid_id(id),
        is_suffix(s),
        dir.len() > 0,
    ensures
        file_path(dir, id, s) == dir + (if dir.last() == '/' {
            Seq::<char>::empty()
        } else {
            seq!['/']
        }) + (id + s),
        !id.contains('/'),
{
    assert((id + s)[0] == id[0]);
    assert(ids::is_id_char(id[0]));
    assert(dir + Seq::<char>::empty() =~= dir);
}

// ---------------------------------------------------------------------
// Processes
// ---------------------------------------------------------------------

/// The process id in the text of a pid file: a number, with white space around
/// it.
pub open spec fn pid_in(content: Seq<char>) -> Option<nat> {
    text::unsigned_text(text::trimmed(content), u32::MAX as nat)
}

/// Reads the text of a pid file.
pub fn parse_pid(content: &str) -> (r: Option<u32>)
    ensures
        match pid_in(content@) {
            Some(n) => r == Some(n as u32),
            None => r is None,
        },
{
    match parse_unsigned(trim(content), u32::MAX as u64) {
        Some(n) => Some(n as u32),
        None => None,
    }
}

/// The error code for "no such process".
pub const NO_SUCH_PROCESS: i32 = 3;

/// `libc::ESRCH`, which is 3 on Linux, on macOS and on the BSDs.
#[verifier::external_body]
fn esrch() -> (r: i32)
    ensures
        r == NO_SUCH_PROCESS,
{
    libc::ESRCH
}

/// Whether a process is alive, given what sending it the null signal returned
/// and the error code of that call: it is, unless there is no such process. In
/// particular a process that may not be signalled is alive.
pub fn is_pid_alive(kill_result: i32, errno: Option<i32>) -> (r: bool)
    ensures
        r == (kill_result == 0 || errno != Some(NO_SUCH_PROCESS)),
{
    kill_result == 0 || match errno {
        Some(e) => e != esrch(),
        None => true,
    }
}

/// A name goes into a directory behind one slash; a name that starts with a slash
/// stands for itself, and so does a name without a directory.
pub proof fn names_go_into_directories(dir: Seq<char>, name: Seq<char>)
    ensures
        dir.len() > 0 && dir.last() != '/' && (name.len() == 0 || name[0] != '/') ==> path_join(
            dir,
            name,
        ) == dir + "/"@ + name,
        name.len() == 0 || name[0] != '/' ==> path_join(dir + "/"@, name) == dir + "/"@ + name,
        path_join(dir, "/"@ + name) == "/"@ + name,
        path_join(Seq::empty(), name) == name,
{
    reveal_strlit("/");
    assert("/"@ =~= seq!['/']);
    assert((dir + "/"@).last() == '/');
    assert(("/"@ + name)[0] == '/');
}

/// The directory is the one that was named; else one of the runtime directory, of the
/// home directory, or of the temporary directory, in that order. An empty name counts
/// as none.
pub proof fn the_named_directory_comes_first(
    explicit: Seq<char>,
    runtime: Option<Seq<char>>,
    home: Option<Seq<char>>,
    temp: Seq<char>,
)
    ensures
        explicit.len() > 0 ==> state_dir(Some(explicit), runtime, home, temp) == explicit,
        state_dir(Some(Seq::empty()), runtime, home, temp) == state_dir(None, runtime, home, temp),
        runtime is Some && runtime->0.len() > 0 ==> state_dir(None, runtime, home, temp)
            == path_join(runtime->0, "agent-term"@),
        state_dir(None, Some(Seq::empty()), home, temp) == state_dir(None, None, home, temp),
        home is Some ==> state_dir(None, None, home, temp) == path_join(home->0, ".agent-term"@),
        state_dir(None, None, None, temp) == path_join(temp, "agent-term"@),
{
}

/// Cleaning up takes the five files of a manager, and nothing else.
pub proof fn cleaning_up_takes_five_files(dir: Seq<char>, id: Seq<char>)
    ensures
        cleanup_paths(dir, id) == seq![
            path_join(dir, id + ".pid"@),
            path_join(dir, id + ".version"@),
            path_join(dir, id + ".cmd"@),
            path_join(dir, id + ".sock"@),
            path_join(dir, id + ".meta"@),
        ],
{
}

/// The process that a pid file names is read back, whatever white space stands around
/// it; what is no number names no process.
pub proof fn process_numbers_read_back(a: Seq<char>, n: nat, b: Seq<char>)
    requires
        forall|i: int| 0 <= i < a.len() ==> text::is_space(#[trigger] a[i]),
        forall|i: int| 0 <= i < b.len() ==> text::is_space(#[trigger] b[i]),
    ensures
        n <= u32::MAX ==> pid_in(a + text::decimal(n) + b) == Some(n),
        n > u32::MAX ==> pid_in(a + text::decimal(n) + b) is None,
        pid_in(a + b) is None,
{
    let d = text::decimal(n);
    text::decimal_is_the_shortest_text(n);
    assert(!text::is_space(d[0]) && !text::is_space(d.last())) by {
        text::white_space_cannot_be_seen(d[0]);
        text::white_space_cannot_be_seen(d.last());
    }
    text::trimming_takes_the_blanks_off(a, d, b);
    text::trimming_takes_the_blanks_off(a, Seq::empty(), b);
    assert(a + Seq::<char>::empty() + b =~= a + b);
    text::numbers_are_read(n, u32::MAX as nat, Seq::empty());
}

} // verus!
