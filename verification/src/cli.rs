//! The verbs of the command line, and the ones that start, list and stop
//! subprocesses.

use vstd::prelude::*;
use vstd::string::*;
use vstd::utf8::*;

use crate::client::StatusReply;
use crate::doctor::DoctorOptions;
use crate::grep::GrepOptions;
use crate::ids;
use crate::ids::is_valid_id;
use crate::ipc;
use crate::ipc::Request;
use crate::meta;
use crate::meta::{Meta, PidProbe, Tags, SCHEMA_VERSION};
use crate::slice::SliceOptions;
use crate::state;
use crate::state::log_path;
use crate::summary::SummaryOptions;
use crate::tail::TailOptions;
use crate::text;
use crate::text::{
    chars_of,
    concat2,
    concat3,
    decimal_text,
    has_char,
    index_of_char,
    is_whitespace,
    pad,
    quoted,
    same_text,
    strip_prefix,
    text_le,
    to_upper,
};
use crate::wait;
use crate::wait::WaitOptions;

verus! {

// ---------------------------------------------------------------------
// Verbs
// ---------------------------------------------------------------------

/// A command line.
pub struct Cli {
    pub command: Command,
}

/// A verb and its arguments.
#[allow(inconsistent_fields)]
pub enum Command {
    Spawn {
        id: Option<String>,
        project: Option<String>,
        name: Option<String>,
        tags: Vec<String>,
        timestamps: bool,
        argv: Vec<String>,
    },
    List { project: Option<String>, tags: Vec<String>, all: bool, json: bool },
    Status { id: String },
    Tail {
        id: String,
        follow: bool,
        strip_ansi: bool,
        lines: Option<u64>,
        bytes: Option<String>,
        head: Option<u64>,
        reverse: bool,
        cursor: Option<u64>,
        json: bool,
        since: Option<String>,
        until: Option<String>,
        keep_timestamps: bool,
        grep: Option<String>,
        around: usize,
        limit: Option<u64>,
    },
    Wait {
        id: String,
        pattern: Option<String>,
        pattern_file: Option<String>,
        timeout: Option<String>,
        multiline: bool,
        json: bool,
    },
    Kill { id: String, signal: String },
    Grep {
        id: String,
        pattern: Option<String>,
        pattern_file: Option<String>,
        around: usize,
        limit: Option<u64>,
        since: Option<String>,
        until: Option<String>,
        strip_ansi: bool,
        match_full_line: bool,
        json: bool,
        multiline: bool,
    },
    Slice {
        id: String,
        from: Option<String>,
        to: Option<String>,
        from_cursor: Option<u64>,
        to_cursor: Option<u64>,
        strip_ansi: bool,
        keep_timestamps: bool,
        json: bool,
    },
    Summary {
        id: String,
        json: bool,
        recent_window: String,
        error_pattern: Option<String>,
        warning_pattern: Option<String>,
    },
    Doctor { fix: bool, json: bool },
}

/// What a verb comes down to.
#[allow(inconsistent_fields)]
pub enum Route {
    Spawn {
        id: Option<String>,
        project: Option<String>,
        name: Option<String>,
        tags: Vec<String>,
        timestamps: bool,
        argv: Vec<String>,
    },
    List { project: Option<String>, tags: Vec<String>, all: bool, json: bool },
    Status { id: String },
    Kill { id: String, signal: String },
    Tail(TailOptions),
    Wait(WaitOptions),
    Grep(GrepOptions),
    Slice(SliceOptions),
    Summary(SummaryOptions),
    Doctor(DoctorOptions),
}

/// What a verb comes down to. Reading a log with a pattern is searching it.
pub open spec fn route_of(c: Command) -> Route {
    match c {
        Command::Spawn { id, project, name, tags, timestamps, argv } => Route::Spawn {
            id,
            project,
            name,
            tags,
            timestamps,
            argv,
        },
        Command::List { project, tags, all, json } => Route::List { project, tags, all, json },
        Command::Status { id } => Route::Status { id },
        Command::Kill { id, signal } => Route::Kill { id, signal },
        Command::Tail {
            id,
            follow,
            strip_ansi,
            lines,
            bytes,
            head,
            reverse,
            cursor,
            json,
            since,
            until,
            keep_timestamps,
            grep,
            around,
            limit,
        } => match grep {
            Some(p) => Route::Grep(
                GrepOptions {
                    id,
                    pattern: Some(p),
                    pattern_file: None,
                    around,
                    limit,
                    since,
                    until,
                    strip_ansi,
                    match_full_line: false,
                    json,
                    multiline: false,
                    ignore_case: false,
                },
            ),
            None => Route::Tail(
                TailOptions {
                    id,
                    follow,
                    strip_ansi,
                    lines,
                    bytes,
                    head,
                    reverse,
                    cursor,
                    json,
                    since,
                    until,
                    keep_timestamps,
                },
            ),
        },
        Command::Wait { id, pattern, pattern_file, timeout, multiline, json } => Route::Wait(
            WaitOptions { id, pattern, pattern_file, timeout, multiline, json },
        ),
        Command::Grep {
            id,
            pattern,
            pattern_file,
            around,
            limit,
            since,
            until,
            strip_ansi,
            match_full_line,
            json,
            multiline,
        } => Route::Grep(
            GrepOptions {
                id,
                pattern,
                pattern_file,
                around,
                limit,
                since,
                until,
                strip_ansi,
                match_full_line,
                json,
                multiline,
                ignore_case: false,
            },
        ),
        Command::Slice {
            id,
            from,
            to,
            from_cursor,
            to_cursor,
            strip_ansi,
            keep_timestamps,
            json,
        } => Route::Slice(
            SliceOptions {
                id,
                from,
                to,
                from_cursor,
                to_cursor,
                strip_ansi,
                keep_timestamps,
                json,
            },
        ),
        Command::Summary { id, json, recent_window, error_pattern, warning_pattern } =>
            Route::Summary(
            SummaryOptions {
                id,
                json,
                recent_window: Some(recent_window),
                error_pattern,
                warning_pattern,
            },
        ),
        Command::Doctor { fix, json } => Route::Doctor(DoctorOptions { fix, json }),
    }
}

/// Works out what a command line comes down to.
pub fn run(cli: Cli) -> (r: Route)
    ensures
        r == route_of(cli.command),
{
    match cli.command {
        Command::Spawn { id, project, name, tags, timestamps, argv } => Route::Spawn {
            id,
            project,
            name,
            tags,
            timestamps,
            argv,
        },
        Command::List { project, tags, all, json } => Route::List { project, tags, all, json },
        Command::Status { id } => Route::Status { id },
        Command::Kill { id, signal } => Route::Kill { id, signal },
        Command::Tail {
            id,
            follow,
            strip_ansi,
            lines,
            bytes,
            head,
            reverse,
            cursor,
            json,
            since,
            until,
            keep_timestamps,
            grep,
            around,
            limit,
        } => match grep {
            Some(p) => Route::Grep(
                GrepOptions {
                    id,
                    pattern: Some(p),
                    pattern_file: None,
                    around,
                    limit,
                    since,
                    until,
                    strip_ansi,
                    match_full_line: false,
                    json,
                    multiline: false,
                    ignore_case: false,
                },
            ),
            None => Route::Tail(
                TailOptions {
                    id,
                    follow,
                    strip_ansi,
                    lines,
                    bytes,
                    head,
                    reverse,
                    cursor,
                    json,
                    since,
                    until,
                    keep_timestamps,
                },
            ),
        },
        Command::Wait { id, pattern, pattern_file, timeout, multiline, json } => Route::Wait(
            WaitOptions { id, pattern, pattern_file, timeout, multiline, json },
        ),
        Command::Grep {
            id,
            pattern,
            pattern_file,
            around,
            limit,
            since,
            until,
            strip_ansi,
            match_full_line,
            json,
            multiline,
        } => Route::Grep(
            GrepOptions {
                id,
                pattern,
                pattern_file,
                around,
                limit,
                since,
                until,
                strip_ansi,
                match_full_line,
                json,
                multiline,
                ignore_case: false,
            },
        ),
        Command::Slice {
            id,
            from,
            to,
            from_cursor,
            to_cursor,
            strip_ansi,
            keep_timestamps,
            json,
        } => Route::Slice(
            SliceOptions {
                id,
                from,
                to,
                from_cursor,
                to_cursor,
                strip_ansi,
                keep_timestamps,
                json,
            },
        ),
        Command::Summary { id, json, recent_window, error_pattern, warning_pattern } =>
            Route::Summary(
            SummaryOptions {
                id,
                json,
                recent_window: Some(recent_window),
                error_pattern,
                warning_pattern,
            },
        ),
        Command::Doctor { fix, json } => Route::Doctor(DoctorOptions { fix, json }),
    }
}

// ---------------------------------------------------------------------
// Starting
// ---------------------------------------------------------------------

/// The identifier of a new subprocess: the one asked for, or a new one.
pub fn choose_id(asked: Option<String>, fresh: String) -> (r: Result<String, String>)
    ensures
        match asked {
            Some(s) => if ids::valid_id(s@) {
                r == Ok::<String, String>(s)
            } else {
                r matches Err(e) && e@ == "invalid --id "@ + text::debug_text(s@)
                    + ": must be 1-64 chars, [a-z0-9_-] only"@
            },
            None => r == Ok::<String, String>(fresh),
        },
{
    match asked {
        Some(s) => {
            if is_valid_id(s.as_str()) {
                Ok(s)
            } else {
                Err(
                    concat3(
                        "invalid --id ",
                        quoted(s.as_str()).as_str(),
                        ": must be 1-64 chars, [a-z0-9_-] only",
                    ),
                )
            }
        },
        None => Ok(fresh),
    }
}

/// Why a name is refused, if it is.
pub open spec fn name_error(n: Seq<char>) -> Option<Seq<char>> {
    if n.len() == 0 {
        Some("--name cannot be empty"@)
    } else if encode_utf8(n).len() > 128 {
        Some("--name must be ≤128 chars"@)
    } else if n.contains('/') || n.contains('\\') || n.contains('\n') || n.contains('\0') {
        Some("--name must not contain '/', '\\\\', newline, or NUL"@)
    } else {
        None
    }
}

/// Checks a name.
pub fn validate_name(n: &str) -> (r: Result<(), String>)
    ensures
        match name_error(n@) {
            Some(e) => r matches Err(t) && t@ == e,
            None => r is Ok,
        },
{
    if n.unicode_len() == 0 {
        return Err("--name cannot be empty".to_owned());
    }
    if n.as_bytes().len() > 128 {
        return Err("--name must be ≤128 chars".to_owned());
    }
    if has_char(n, '/') || has_char(n, '\\') || has_char(n, '\n') || has_char(n, '\0') {
        return Err("--name must not contain '/', '\\\\', newline, or NUL".to_owned());
    }
    Ok(())
}

/// The key and the value of an annotation, or why it is refused.
pub open spec fn tag_of(entry: Seq<char>) -> Result<(Seq<char>, Seq<char>), Seq<char>> {
    let k = text::first_index(entry, '=');
    if k >= entry.len() {
        Err("--tag "@ + text::debug_text(entry) + " is missing '=' (expected K=V)"@)
    } else if k == 0 {
        Err("--tag "@ + text::debug_text(entry) + " has empty key"@)
    } else {
        Ok((entry.take(k), entry.skip(k + 1)))
    }
}

/// The keys and values of annotations, or why the first bad one is refused.
pub open spec fn tags_of(raw: Seq<String>) -> Result<Seq<(Seq<char>, Seq<char>)>, Seq<char>>
    decreases raw.len(),
{
    if raw.len() == 0 {
        Ok(Seq::empty())
    } else {
        match tags_of(raw.drop_last()) {
            Err(e) => Err(e),
            Ok(front) => match tag_of(raw.last()@) {
                Err(e) => Err(e),
                Ok(kv) => Ok(front.push(kv)),
            },
        }
    }
}

proof fn lemma_first_tag_error(raw: Seq<String>, n: int)
    requires
        0 <= n <= raw.len(),
        tags_of(raw.take(n)) is Err,
    ensures
        tags_of(raw) == tags_of(raw.take(n)),
    decreases raw.len() - n,
{
    if n < raw.len() {
        assert(raw.take(n + 1).drop_last() =~= raw.take(n));
        lemma_first_tag_error(raw, n + 1);
    } else {
        assert(raw.take(n) =~= raw);
    }
}

/// Reads annotations of the form `K=V`. A later one replaces an earlier one of
/// the same key.
pub fn parse_tags(raw: &[String]) -> (r: Result<Tags, String>)
    ensures
        match tags_of(raw@) {
            Ok(kvs) => r matches Ok(t) && t@ == meta::tag_map(kvs),
            Err(e) => r matches Err(t) && t@ == e,
        },
{
    let mut out = Tags::new();
    let mut i: usize = 0;
    assert(raw@.take(0).len() == 0);
    while i < raw.len()
        invariant
            i <= raw@.len(),
            tags_of(raw@.take(i as int)) matches Ok(kvs) && out@ == meta::tag_map(kvs),
        decreases raw@.len() - i,
    {
        let entry: &str = raw[i].as_str();
        assert(raw@.take(i + 1).drop_last() =~= raw@.take(i as int));
        assert(raw@.take(i + 1).last()@ == entry@);
        let chars = chars_of(entry);
        let n: usize = chars.len();
        let k: usize = index_of_char(&chars, '=');
        proof {
            text::first_index_is_first(entry@, '=');
        }
        if k >= n {
            proof {
                lemma_first_tag_error(raw@, i + 1);
            }
            return Err(
                concat3("--tag ", quoted(entry).as_str(), " is missing '=' (expected K=V)"),
            );
        }
        if k == 0 {
            proof {
                lemma_first_tag_error(raw@, i + 1);
            }
            return Err(concat3("--tag ", quoted(entry).as_str(), " has empty key"));
        }
        let key = entry.substring_char(0, k);
        let value = entry.substring_char(k + 1, n);
        assert(key@ =~= entry@.take(k as int));
        assert(value@ =~= entry@.skip(k + 1));
        proof {
            let kvs = tags_of(raw@.take(i as int))->Ok_0;
            assert(kvs.push((key@, value@)).drop_last() =~= kvs);
        }
        out.insert(key.to_owned(), value.to_owned());
        i += 1;
    }
    assert(raw@.take(raw@.len() as int) =~= raw@);
    Ok(out)
}

/// Of two annotations of the same key, the later one counts; other keys keep
/// their values.
pub proof fn later_tags_win(kvs: Seq<(Seq<char>, Seq<char>)>, kv: (Seq<char>, Seq<char>))
    ensures
        meta::tag_map(kvs.push(kv)).contains_key(kv.0),
        meta::tag_map(kvs.push(kv))[kv.0] == kv.1,
        forall|k: Seq<char>|
            k != kv.0 ==> (#[trigger] meta::tag_map(kvs.push(kv)).contains_key(k)
                <==> meta::tag_map(kvs).contains_key(k)) && meta::tag_map(kvs.push(kv))[k]
                == meta::tag_map(kvs)[k],
{
    assert(kvs.push(kv).drop_last() =~= kvs);
}

/// Whether a manager has a name in a project.
pub open spec fn has_name(m: Meta, project: Seq<char>, name: Seq<char>) -> bool {
    m.project@ == project && (m.name matches Some(n) && n@ == name)
}

/// The first manager that has a name in a project.
pub open spec fn name_holder(
    metas: Seq<(String, Meta)>,
    project: Seq<char>,
    name: Seq<char>,
) -> Option<Seq<char>>
    decreases metas.len(),
{
    if metas.len() == 0 {
        None
    } else if has_name(metas[0].1, project, name) {
        Some(metas[0].0@)
    } else {
        name_holder(metas.drop_first(), project, name)
    }
}

/// Checks that no manager that is alive has a name in a project.
pub fn check_name_free(metas: &Vec<(String, Meta)>, project: &str, name: &str) -> (r: Result<
    (),
    String,
>)
    ensures
        match name_holder(metas@, project@, name@) {
            Some(id) => r matches Err(t) && t@ == "name "@ + text::debug_text(name@)
                + " already in use by id "@ + id,
            None => r is Ok,
        },
{
    let mut i: usize = 0;
    assert(metas@.skip(0) =~= metas@);
    while i < metas.len()
        invariant
            i <= metas@.len(),
            name_holder(metas@, project@, name@) == name_holder(
                metas@.skip(i as int),
                project@,
                name@,
            ),
        decreases metas@.len() - i,
    {
        let (id, m) = &metas[i];
        assert(metas@.skip(i as int)[0] == metas@[i as int]);
        let same_name = match &m.name {
            Some(n) => same_text(n.as_str(), name),
            None => false,
        };
        if same_text(m.project.as_str(), project) && same_name {
            let mut out = concat3("name ", quoted(name).as_str(), " already in use by id ");
            out.append(id.as_str());
            return Err(out);
        }
        assert(metas@.skip(i as int).drop_first() =~= metas@.skip(i + 1));
        i += 1;
    }
    Ok(())
}

/// A name that is free is held by no manager of the project.
pub proof fn free_names_are_unique(
    metas: Seq<(String, Meta)>,
    project: Seq<char>,
    name: Seq<char>,
)
    ensures
        name_holder(metas, project, name) is None <==> forall|i: int|
            0 <= i < metas.len() ==> !has_name((#[trigger] metas[i]).1, project, name),
    decreases metas.len(),
{
    if metas.len() > 0 {
        let rest = metas.drop_first();
        free_names_are_unique(rest, project, name);
        assert(forall|i: int| 0 <= i < rest.len() ==> rest[i] == metas[i + 1]);
        if name_holder(metas, project, name) is None {
            assert forall|i: int| 0 <= i < metas.len() implies !has_name(
                (#[trigger] metas[i]).1,
                project,
                name,
            ) by {
                if i > 0 {
                    assert(metas[i] == rest[i - 1]);
                }
            }
        } else if !has_name(metas[0].1, project, name) {
            let k = choose|k: int| 0 <= k < rest.len() && has_name(rest[k].1, project, name);
            assert(has_name(metas[k + 1].1, project, name));
        }
    }
}

/// Whether no two managers have the same name in the same project.
pub open spec fn names_differ(metas: Seq<(String, Meta)>) -> bool {
    forall|i: int, j: int|
        #![trigger metas[i], metas[j]]
        0 <= i < j < metas.len() && metas[i].1.project@ == metas[j].1.project@ ==> match (
            metas[i].1.name,
            metas[j].1.name,
        ) {
            (Some(a), Some(b)) => a@ != b@,
            _ => true,
        }
}

/// Names stay unique in each project: a manager that starts without a name, or
/// with one that is free in its project, shares it with no other.
pub proof fn names_stay_unique(metas: Seq<(String, Meta)>, new: (String, Meta))
    requires
        names_differ(metas),
        new.1.name matches Some(n) ==> name_holder(metas, new.1.project@, n@) is None,
    ensures
        names_differ(metas.push(new)),
{
    let all = metas.push(new);
    assert forall|i: int, j: int|
        #![trigger all[i], all[j]]
        0 <= i < j < all.len() && all[i].1.project@ == all[j].1.project@ implies match (
        all[i].1.name,
        all[j].1.name,
    ) {
        (Some(a), Some(b)) => a@ != b@,
        _ => true,
    } by {
        assert(all[i] == metas[i]);
        if j < metas.len() {
            assert(all[j] == metas[j]);
        } else {
            match new.1.name {
                Some(n) => {
                    free_names_are_unique(metas, new.1.project@, n@);
                    assert(!has_name(metas[i].1, new.1.project@, n@));
                },
                None => {},
            }
        }
    }
}

/// The path that a project is given by: the one asked for, or the current
/// directory, which the system may fail to tell.
pub fn project_input(asked: Option<String>, cwd: Result<String, String>) -> (r: Result<
    String,
    String,
>)
    ensures
        match asked {
            Some(p) => r == Ok::<String, String>(p),
            None => match cwd {
                Ok(c) => r == Ok::<String, String>(c),
                Err(e) => r matches Err(t) && t@ == "cannot read $PWD: "@ + e@,
            },
        },
{
    match asked {
        Some(p) => Ok(p),
        None => match cwd {
            Ok(c) => Ok(c),
            Err(e) => Err(concat2("cannot read $PWD: ", e.as_str())),
        },
    }
}

/// What a new subprocess is started with.
pub struct SpawnPlan {
    pub id: String,
    pub project: String,
    pub name: Option<String>,
    pub tags: Tags,
}

/// Why a subprocess is not started, if it is not: the identifier, the project,
/// the name, the annotations and then whether the name is free are looked at in
/// this order.
pub open spec fn spawn_error(
    asked: Option<String>,
    project: Result<String, String>,
    name: Option<String>,
    raw_tags: Seq<String>,
    metas: Seq<(String, Meta)>,
) -> Option<Seq<char>> {
    if asked matches Some(s) && !ids::valid_id(s@) {
        Some(
            "invalid --id "@ + text::debug_text(asked->0@)
                + ": must be 1-64 chars, [a-z0-9_-] only"@,
        )
    } else {
        match project {
            Err(e) => Some("spawn: "@ + e@),
            Ok(p) => if name matches Some(n) && name_error(n@) is Some {
                Some("spawn: "@ + name_error(name->0@)->0)
            } else {
                match tags_of(raw_tags) {
                    Err(e) => Some("spawn: "@ + e),
                    Ok(_) => if name matches Some(n) && name_holder(metas, p@, n@) is Some {
                        Some(
                            "spawn: "@ + ("name "@ + text::debug_text(name->0@)
                                + " already in use by id "@ + name_holder(metas, p@, name->0@)->0),
                        )
                    } else {
                        None
                    },
                }
            },
        }
    }
}

/// Checks what a new subprocess is to be started with, against the managers that
/// are alive.
pub fn plan_spawn(
    asked: Option<String>,
    fresh: String,
    project: Result<String, String>,
    name: Option<String>,
    raw_tags: &[String],
    metas: &Vec<(String, Meta)>,
) -> (r: Result<SpawnPlan, String>)
    ensures
        match spawn_error(asked, project, name, raw_tags@, metas@) {
            Some(e) => r matches Err(t) && t@ == e,
            None => r matches Ok(p) && p.id == (match asked {
                Some(s) => s,
                None => fresh,
            }) && p.project == project->Ok_0 && p.name == name && p.tags@ == meta::tag_map(
                tags_of(raw_tags@)->Ok_0,
            ),
        },
{
    let id = match choose_id(asked, fresh) {
        Ok(id) => id,
        Err(e) => {
            return Err(e);
        },
    };
    let project = match project {
        Ok(p) => p,
        Err(e) => {
            return Err(concat2("spawn: ", e.as_str()));
        },
    };
    match &name {
        Some(n) => match validate_name(n.as_str()) {
            Ok(_) => {},
            Err(e) => {
                return Err(concat2("spawn: ", e.as_str()));
            },
        },
        None => {},
    }
    let tags = match parse_tags(raw_tags) {
        Ok(t) => t,
        Err(e) => {
            return Err(concat2("spawn: ", e.as_str()));
        },
    };
    match &name {
        Some(n) => match check_name_free(metas, project.as_str(), n.as_str()) {
            Ok(_) => {},
            Err(e) => {
                return Err(concat2("spawn: ", e.as_str()));
            },
        },
        None => {},
    }
    Ok(SpawnPlan { id, project, name, tags })
}

/// The process that asked, out of what the system says of the parent.
pub fn parent_pid(raw: i32) -> (r: Option<u32>)
    ensures
        r == if raw > 0 {
            Some(raw as u32)
        } else {
            None
        },
{
    if raw > 0 {
        Some(raw as u32)
    } else {
        None
    }
}

// ---------------------------------------------------------------------
// Names in place of identifiers
// ---------------------------------------------------------------------

/// Whether a manager has an identifier.
pub open spec fn has_id(metas: Seq<(String, Meta)>, id: Seq<char>) -> bool {
    exists|i: int| 0 <= i < metas.len() && (#[trigger] metas[i]).0@ == id
}

/// The identifier that an argument stands for: itself, where there is a manager
/// or a log of that identifier, else that of the manager which has it for a name
/// in the project, and itself where there is none.
pub open spec fn target_of(
    arg: Seq<char>,
    has_log: bool,
    metas: Seq<(String, Meta)>,
    project: Seq<char>,
) -> Seq<char> {
    if has_log || has_id(metas, arg) {
        arg
    } else {
        match name_holder(metas, project, arg) {
            Some(id) => id,
            None => arg,
        }
    }
}

/// Works out the identifier that an argument stands for, given whether there is
/// a log of that identifier, and the managers that are alive.
pub fn resolve_target(
    arg: &str,
    has_log: bool,
    metas: &Vec<(String, Meta)>,
    project: &str,
) -> (r: String)
    ensures
        r@ == target_of(arg@, has_log, metas@, project@),
{
    if has_log {
        return arg.to_owned();
    }
    let mut i: usize = 0;
    while i < metas.len()
        invariant
            i <= metas@.len(),
            forall|j: int| 0 <= j < i ==> (#[trigger] metas@[j]).0@ != arg@,
        decreases metas@.len() - i,
    {
        if same_text(metas[i].0.as_str(), arg) {
            return arg.to_owned();
        }
        i += 1;
    }
    let mut k: usize = 0;
    assert(metas@.skip(0) =~= metas@);
    while k < metas.len()
        invariant
            k <= metas@.len(),
            !has_log,
            !has_id(metas@, arg@),
            name_holder(metas@, project@, arg@) == name_holder(
                metas@.skip(k as int),
                project@,
                arg@,
            ),
        decreases metas@.len() - k,
    {
        let (id, m) = &metas[k];
        assert(metas@.skip(k as int)[0] == metas@[k as int]);
        let same_name = match &m.name {
            Some(n) => same_text(n.as_str(), arg),
            None => false,
        };
        if same_text(m.project.as_str(), project) && same_name {
            return id.as_str().to_owned();
        }
        assert(metas@.skip(k as int).drop_first() =~= metas@.skip(k + 1));
        k += 1;
    }
    arg.to_owned()
}

proof fn lemma_name_holder(
    metas: Seq<(String, Meta)>,
    project: Seq<char>,
    name: Seq<char>,
    i: int,
)
    requires
        0 <= i < metas.len(),
        has_name(metas[i].1, project, name),
    ensures
        exists|k: int|
            0 <= k <= i && has_name((#[trigger] metas[k]).1, project, name) && name_holder(
                metas,
                project,
                name,
            ) == Some(metas[k].0@),
    decreases metas.len(),
{
    if has_name(metas[0].1, project, name) {
        assert(name_holder(metas, project, name) == Some(metas[0].0@));
    } else {
        let rest = metas.drop_first();
        assert(rest[i - 1] == metas[i]);
        lemma_name_holder(rest, project, name, i - 1);
        let k = choose|k: int|
            0 <= k <= i - 1 && has_name((#[trigger] rest[k]).1, project, name) && name_holder(
                rest,
                project,
                name,
            ) == Some(rest[k].0@);
        assert(metas[k + 1] == rest[k]);
    }
}

/// A name leads to the manager that has it in the project, as long as nothing
/// has it for an identifier.
pub proof fn names_lead_to_managers(
    metas: Seq<(String, Meta)>,
    project: Seq<char>,
    name: Seq<char>,
    i: int,
)
    requires
        names_differ(metas),
        0 <= i < metas.len(),
        has_name(metas[i].1, project, name),
        !has_id(metas, name),
    ensures
        target_of(name, false, metas, project) == metas[i].0@,
{
    lemma_name_holder(metas, project, name, i);
    let k = choose|k: int|
        0 <= k <= i && has_name((#[trigger] metas[k]).1, project, name) && name_holder(
            metas,
            project,
            name,
        ) == Some(metas[k].0@);
    if k < i {
        assert(metas[k].1.project@ == metas[i].1.project@);
    }
}

/// The argument of a verb that stands for a subprocess.
pub open spec fn route_arg(route: Route) -> Option<String> {
    match route {
        Route::Status { id } => Some(id),
        Route::Kill { id, .. } => Some(id),
        Route::Tail(o) => Some(o.id),
        Route::Wait(o) => Some(o.id),
        Route::Grep(o) => Some(o.id),
        Route::Slice(o) => Some(o.id),
        Route::Summary(o) => Some(o.id),
        _ => None,
    }
}

/// The argument of a verb that stands for a subprocess.
pub fn route_target<'a>(route: &'a Route) -> (r: Option<&'a str>)
    ensures
        match route_arg(*route) {
            Some(id) => r matches Some(t) && t@ == id@,
            None => r is None,
        },
{
    match route {
        Route::Status { id } => Some(id.as_str()),
        Route::Kill { id, .. } => Some(id.as_str()),
        Route::Tail(o) => Some(o.id.as_str()),
        Route::Wait(o) => Some(o.id.as_str()),
        Route::Grep(o) => Some(o.id.as_str()),
        Route::Slice(o) => Some(o.id.as_str()),
        Route::Summary(o) => Some(o.id.as_str()),
        _ => None,
    }
}

/// A verb with another argument for the subprocess, and everything else the same.
pub open spec fn retargeted(route: Route, id: String) -> Route {
    match route {
        Route::Status { .. } => Route::Status { id },
        Route::Kill { signal, .. } => Route::Kill { id, signal },
        Route::Tail(o) => Route::Tail(TailOptions { id, ..o }),
        Route::Wait(o) => Route::Wait(WaitOptions { id, ..o }),
        Route::Grep(o) => Route::Grep(GrepOptions { id, ..o }),
        Route::Slice(o) => Route::Slice(SliceOptions { id, ..o }),
        Route::Summary(o) => Route::Summary(SummaryOptions { id, ..o }),
        _ => route,
    }
}

/// Puts the identifier of the subprocess in place of its name in a verb.
pub fn resolve_route(
    route: Route,
    has_log: bool,
    metas: &Vec<(String, Meta)>,
    project: &str,
) -> (r: Route)
    ensures
        match route_arg(route) {
            Some(arg) => exists|id: String|
                id@ == target_of(arg@, has_log, metas@, project@) && r == #[trigger] retargeted(
                    route,
                    id,
                ),
            None => r == route,
        },
{
    let id: String = match route_target(&route) {
        Some(arg) => resolve_target(arg, has_log, metas, project),
        None => {
            return route;
        },
    };
    let ghost g = id;
    let r = match route {
        Route::Status { .. } => Route::Status { id },
        Route::Kill { signal, .. } => Route::Kill { id, signal },
        Route::Tail(o) => Route::Tail(TailOptions { id, ..o }),
        Route::Wait(o) => Route::Wait(WaitOptions { id, ..o }),
        Route::Grep(o) => Route::Grep(GrepOptions { id, ..o }),
        Route::Slice(o) => Route::Slice(SliceOptions { id, ..o }),
        Route::Summary(o) => Route::Summary(SummaryOptions { id, ..o }),
        other => other,
    };
    assert(r == retargeted(route, g));
    r
}

// ---------------------------------------------------------------------
// Listing
// ---------------------------------------------------------------------

/// One row of the list.
pub struct ListEntry {
    pub schema_version: u32,
    pub id: String,
    pub name: Option<String>,
    pub project: String,
    pub tags: Tags,
    pub cmd: Vec<String>,
    pub cwd: String,
    pub started_at: u64,
    pub started_by_pid: Option<u32>,
    pub log_path: String,
    /// `running` or `exited`, as the manager says; `running` where it does not
    /// answer.
    pub state: String,
    pub child_pid: Option<u32>,
    pub exit_code: Option<i32>,
    pub uptime_ms: u64,
}

/// Whether metadata are those that stand in for metadata not written yet.
pub open spec fn is_fallback(m: Meta, dir: Seq<char>, id: Seq<char>) -> bool {
    &&& m.schema_version == SCHEMA_VERSION
    &&& m.id@ == id
    &&& m.name is None
    &&& m.project@ == ""@
    &&& m.tags@ == Map::<Seq<char>, Seq<char>>::empty()
    &&& m.cmd@.len() == 0
    &&& m.cwd@ == ""@
    &&& m.started_at == 0
    &&& m.started_by_pid is None
    &&& m.child_pid is None
    &&& m.log_path@ == state::file_path(dir, id, ".log"@)
}

/// Metadata that stand in for metadata not written yet.
pub fn fallback_meta(dir: &str, id: &str) -> (r: Meta)
    ensures
        is_fallback(r, dir@, id@),
{
    Meta {
        schema_version: SCHEMA_VERSION,
        id: id.to_owned(),
        name: None,
        project: "".to_owned(),
        tags: Tags::new(),
        cmd: Vec::new(),
        cwd: "".to_owned(),
        started_at: 0,
        started_by_pid: None,
        child_pid: None,
        log_path: log_path(dir, id),
    }
}

/// Whether a pair is the entry for the pid file of a live manager.
pub open spec fn is_entry_for(e: (String, Meta), p: PidProbe, dir: Seq<char>) -> bool {
    e.0 == p.id && match p.meta {
        Some(m) => e.1 == m,
        None => is_fallback(e.1, dir, p.id@),
    }
}

/// The pid files of managers that are alive, in order.
pub open spec fn live_probes(probes: Seq<PidProbe>) -> Seq<PidProbe>
    decreases probes.len(),
{
    if probes.len() == 0 {
        Seq::empty()
    } else {
        let front = live_probes(probes.drop_last());
        if meta::is_live(probes.last()) {
            front.push(probes.last())
        } else {
            front
        }
    }
}

/// The identifiers of pid files whose manager is gone, in order.
pub open spec fn dead_ids(probes: Seq<PidProbe>) -> Seq<Seq<char>>
    decreases probes.len(),
{
    if probes.len() == 0 {
        Seq::empty()
    } else {
        let front = dead_ids(probes.drop_last());
        if meta::is_live(probes.last()) {
            front
        } else {
            front.push(probes.last().id@)
        }
    }
}

/// Sorts pid files into managers that are alive and identifiers to clean up
/// after.
pub fn walk_state_dir(dir: &str, probes: Vec<PidProbe>) -> (r: (Vec<(String, Meta)>, Vec<String>))
    ensures
        r.0@.len() == live_probes(probes@).len(),
        forall|i: int|
            0 <= i < r.0@.len() ==> is_entry_for(
                #[trigger] r.0@[i],
                live_probes(probes@)[i],
                dir@,
            ),
        state::string_views(r.1@) == dead_ids(probes@),
{
    let ghost all = probes@;
    let mut live: Vec<(String, Meta)> = Vec::new();
    let mut dead: Vec<String> = Vec::new();
    proof {
        assert(all.take(0).len() == 0);
        assert(state::string_views(dead@) =~= Seq::empty());
    }
    for p in it: probes
        invariant
            it.seq() == all,
            live@.len() == live_probes(all.take(it.index())).len(),
            forall|i: int|
                0 <= i < live@.len() ==> is_entry_for(
                    #[trigger] live@[i],
                    live_probes(all.take(it.index()))[i],
                    dir@,
                ),
            state::string_views(dead@) == dead_ids(all.take(it.index())),
    {
        let ghost next = all.take(it.index() + 1);
        let ghost dead0 = dead@;
        proof {
            assert(next.drop_last() =~= all.take(it.index()));
            assert(next.last() == p);
        }
        let PidProbe { id, pid, alive, meta: known } = p;
        if pid.is_some() && alive {
            let m = match known {
                Some(m) => m,
                None => fallback_meta(dir, id.as_str()),
            };
            live.push((id, m));
        } else {
            dead.push(id);
            assert(state::string_views(dead@) =~= state::string_views(dead0).push(id@));
        }
    }
    assert(all.take(all.len() as int) =~= all);
    (live, dead)
}

/// The identifiers of sockets without a pid file, in order.
pub open spec fn lone_socks(socks: Seq<(String, bool)>) -> Seq<Seq<char>>
    decreases socks.len(),
{
    if socks.len() == 0 {
        Seq::empty()
    } else {
        let front = lone_socks(socks.drop_last());
        if socks.last().1 {
            front
        } else {
            front.push(socks.last().0@)
        }
    }
}

/// The identifiers to clean up after because their socket has no pid file. Each
/// socket comes with whether there is a pid file beside it.
pub fn orphan_socks(socks: Vec<(String, bool)>) -> (r: Vec<String>)
    ensures
        state::string_views(r@) == lone_socks(socks@),
{
    let ghost all = socks@;
    let mut out: Vec<String> = Vec::new();
    proof {
        assert(all.take(0).len() == 0);
        assert(state::string_views(out@) =~= Seq::empty());
    }
    for s in it: socks
        invariant
            it.seq() == all,
            state::string_views(out@) == lone_socks(all.take(it.index())),
    {
        let ghost next = all.take(it.index() + 1);
        let ghost before = out@;
        proof {
            assert(next.drop_last() =~= all.take(it.index()));
            assert(next.last() == s);
        }
        let (id, pid_file) = s;
        if !pid_file {
            out.push(id);
            assert(state::string_views(out@) =~= state::string_views(before).push(id@));
        }
    }
    assert(all.take(all.len() as int) =~= all);
    out
}

/// What is listed.
pub struct ListPlan {
    /// The project that is listed, and all of them where there is none.
    pub project: Option<String>,
    /// The annotations that an entry must carry.
    pub tags: Tags,
}

/// Works out what is listed: one project, unless all are asked for, and the
/// annotations.
pub fn plan_list(all: bool, project: Result<String, String>, raw_tags: &[String]) -> (r: Result<
    ListPlan,
    String,
>)
    ensures
        if !all && project is Err {
            r matches Err(t) && t@ == "list: "@ + project->Err_0@
        } else {
            match tags_of(raw_tags@) {
                Err(e) => r matches Err(t) && t@ == "list: "@ + e,
                Ok(kvs) => r matches Ok(p) && p.project == (if all {
                    None
                } else {
                    Some(project->Ok_0)
                }) && p.tags@ == meta::tag_map(kvs),
            }
        },
{
    let filter: Option<String> = if all {
        None
    } else {
        match project {
            Ok(p) => Some(p),
            Err(e) => {
                return Err(concat2("list: ", e.as_str()));
            },
        }
    };
    match parse_tags(raw_tags) {
        Ok(tags) => Ok(ListPlan { project: filter, tags }),
        Err(e) => Err(concat2("list: ", e.as_str())),
    }
}

/// Whether metadata carry every annotation that is asked for.
pub open spec fn has_tags(m: Meta, wanted: Map<Seq<char>, Seq<char>>) -> bool {
    forall|k: Seq<char>| #[trigger]
        wanted.contains_key(k) ==> m.tags@.contains_key(k) && m.tags@[k] == wanted[k]
}

/// Whether an entry is to be listed.
pub open spec fn is_wanted(
    e: (String, Meta),
    project: Option<Seq<char>>,
    tags: Map<Seq<char>, Seq<char>>,
) -> bool {
    (project matches Some(p) ==> e.1.project@ == p) && has_tags(e.1, tags)
}

/// Whether an entry comes before another one: it started earlier, or at the
/// same time with an identifier that comes first.
pub open spec fn entry_le(a: (String, Meta), b: (String, Meta)) -> bool {
    a.1.started_at < b.1.started_at || (a.1.started_at == b.1.started_at && text::lex_le(
        a.0@,
        b.0@,
    ))
}

/// Puts an entry behind the last one that does not come later.
pub open spec fn insert_entry(sorted: Seq<(String, Meta)>, e: (String, Meta)) -> Seq<
    (String, Meta),
>
    decreases sorted.len(),
{
    if sorted.len() == 0 || entry_le(sorted.last(), e) {
        sorted.push(e)
    } else {
        insert_entry(sorted.drop_last(), e).push(sorted.last())
    }
}

/// The entries to be listed, in order.
pub open spec fn listed(
    all: Seq<(String, Meta)>,
    project: Option<Seq<char>>,
    tags: Map<Seq<char>, Seq<char>>,
) -> Seq<(String, Meta)>
    decreases all.len(),
{
    if all.len() == 0 {
        Seq::empty()
    } else {
        let front = listed(all.drop_last(), project, tags);
        if is_wanted(all.last(), project, tags) {
            insert_entry(front, all.last())
        } else {
            front
        }
    }
}

/// Whether metadata carry every annotation that is asked for.
fn carries_tags(m: &Meta, wanted: &Tags) -> (r: bool)
    ensures
        r == has_tags(*m, wanted@),
{
    let n: usize = wanted.len();
    let ghost kvs = wanted.list();
    proof {
        wanted.view_is_the_list();
        meta::tag_map_is_the_list(kvs);
    }
    let mut i: usize = 0;
    while i < n
        invariant
            i <= n,
            n == kvs.len(),
            kvs == wanted.list(),
            forall|j: int|
                0 <= j < n ==> wanted@.contains_key((#[trigger] kvs[j]).0) && wanted@[kvs[j].0]
                    == kvs[j].1,
            forall|j: int|
                0 <= j < i ==> m.tags@.contains_key((#[trigger] kvs[j]).0) && m.tags@[kvs[j].0]
                    == kvs[j].1,
        decreases n - i,
    {
        let (k, v) = wanted.entry(i);
        assert(kvs[i as int] == (k@, v@));
        let same = match m.tags.get(k) {
            Some(found) => same_text(found, v),
            None => false,
        };
        if !same {
            return false;
        }
        i += 1;
    }
    assert forall|k: Seq<char>| #[trigger] wanted@.contains_key(k) implies m.tags@.contains_key(k)
        && m.tags@[k] == wanted@[k] by {
        let j = choose|j: int| 0 <= j < kvs.len() && (#[trigger] kvs[j]).0 == k;
        assert(kvs[j].0 == k);
    }
    true
}

/// Whether an entry comes before another one.
fn comes_before(a: &(String, Meta), b: &(String, Meta)) -> (r: bool)
    ensures
        r == entry_le(*a, *b),
{
    if a.1.started_at != b.1.started_at {
        a.1.started_at < b.1.started_at
    } else {
        text_le(a.0.as_str(), b.0.as_str())
    }
}

/// Puts an entry behind the last one that does not come later.
fn insert_sorted(sorted: &mut Vec<(String, Meta)>, e: (String, Meta))
    ensures
        final(sorted)@ == insert_entry(old(sorted)@, e),
{
    let ghost before = sorted@;
    let mut i: usize = sorted.len();
    assert(before.take(i as int) =~= before);
    assert(before.skip(i as int) =~= Seq::empty());
    assert(insert_entry(before, e) =~= insert_entry(before.take(i as int), e) + before.skip(
        i as int,
    ));
    while i > 0 && !comes_before(&sorted[i - 1], &e)
        invariant
            i <= before.len(),
            sorted@ == before,
            insert_entry(before, e) == insert_entry(before.take(i as int), e) + before.skip(
                i as int,
            ),
        decreases i,
    {
        let ghost front = before.take(i as int);
        assert(front.drop_last() =~= before.take(i - 1));
        assert(front.last() == before[i - 1]);
        assert(insert_entry(before.take(i - 1), e).push(before[i - 1]) + before.skip(i as int)
            =~= insert_entry(before.take(i - 1), e) + before.skip(i - 1));
        i -= 1;
    }
    proof {
        let front = before.take(i as int);
        if i > 0 {
            assert(front.last() == before[i - 1]);
        }
        assert(insert_entry(front, e) == front.push(e));
        assert(before.insert(i as int, e) =~= front.push(e) + before.skip(i as int));
    }
    sorted.insert(i, e);
}

/// Picks the entries to be listed and puts them in order.
pub fn select_entries(
    all: Vec<(String, Meta)>,
    project: Option<&str>,
    tags: &Tags,
) -> (r: Vec<(String, Meta)>)
    ensures
        r@ == listed(all@, state::opt_chars(project), tags@),
{
    let ghost entries = all@;
    let ghost filter = state::opt_chars(project);
    let mut out: Vec<(String, Meta)> = Vec::new();
    proof {
        assert(entries.take(0).len() == 0);
        assert(out@ =~= Seq::empty());
    }
    for e in it: all
        invariant
            it.seq() == entries,
            filter == state::opt_chars(project),
            out@ == listed(entries.take(it.index()), filter, tags@),
    {
        proof {
            assert(entries.take(it.index() + 1).drop_last() =~= entries.take(it.index()));
            assert(entries.take(it.index() + 1).last() == e);
        }
        let in_project = match project {
            Some(p) => same_text(e.1.project.as_str(), p),
            None => true,
        };
        if in_project && carries_tags(&e.1, tags) {
            insert_sorted(&mut out, e);
        }
    }
    assert(entries.take(entries.len() as int) =~= entries);
    out
}

/// Whether entries come in order.
pub open spec fn in_order(all: Seq<(String, Meta)>) -> bool {
    forall|i: int, j: int|
        0 <= i <= j < all.len() ==> entry_le(#[trigger] all[i], #[trigger] all[j])
}

proof fn lemma_entry_le_total(a: (String, Meta), b: (String, Meta))
    ensures
        entry_le(a, b) || entry_le(b, a),
{
    text::lex_le_is_total(a.0@, b.0@);
}

proof fn lemma_entry_le_trans(a: (String, Meta), b: (String, Meta), c: (String, Meta))
    requires
        entry_le(a, b),
        entry_le(b, c),
    ensures
        entry_le(a, c),
{
    if a.1.started_at == b.1.started_at && b.1.started_at == c.1.started_at {
        text::lex_le_is_transitive(a.0@, b.0@, c.0@);
    }
}

proof fn lemma_insert_entry(sorted: Seq<(String, Meta)>, e: (String, Meta))
    requires
        in_order(sorted),
    ensures
        in_order(insert_entry(sorted, e)),
        insert_entry(sorted, e).to_multiset() == sorted.to_multiset().insert(e),
        forall|i: int|
            0 <= i < insert_entry(sorted, e).len() ==> entry_le(
                #[trigger] insert_entry(sorted, e)[i],
                if sorted.len() > 0 && !entry_le(sorted.last(), e) {
                    sorted.last()
                } else {
                    e
                },
            ),
    decreases sorted.len(),
{
    broadcast use vstd::seq_lib::group_to_multiset_ensures;

    let r = insert_entry(sorted, e);
    lemma_entry_le_total(e, e);
    if sorted.len() == 0 || entry_le(sorted.last(), e) {
        assert forall|i: int| 0 <= i < r.len() implies entry_le(#[trigger] r[i], e) by {
            if i < sorted.len() {
                assert(entry_le(sorted[i], sorted[sorted.len() - 1]));
                lemma_entry_le_trans(sorted[i], sorted.last(), e);
            }
        }
        assert forall|i: int, j: int| 0 <= i <= j < r.len() implies entry_le(
            #[trigger] r[i],
            #[trigger] r[j],
        ) by {
            if j < sorted.len() {
                assert(entry_le(sorted[i], sorted[j]));
            }
        }
    } else {
        let front = sorted.drop_last();
        let last = sorted.last();
        assert(in_order(front)) by {
            assert forall|i: int, j: int| 0 <= i <= j < front.len() implies entry_le(
                #[trigger] front[i],
                #[trigger] front[j],
            ) by {
                assert(entry_le(sorted[i], sorted[j]));
            }
        }
        lemma_insert_entry(front, e);
        let mid = insert_entry(front, e);
        lemma_entry_le_total(last, e);
        lemma_entry_le_total(last, last);
        if front.len() > 0 {
            assert(entry_le(sorted[sorted.len() - 2], sorted[sorted.len() - 1]));
        }
        assert(sorted =~= front.push(last));
        assert forall|i: int| 0 <= i < mid.len() implies entry_le(#[trigger] mid[i], last) by {
            if front.len() > 0 && !entry_le(front.last(), e) {
                lemma_entry_le_trans(mid[i], front.last(), last);
            } else {
                lemma_entry_le_trans(mid[i], e, last);
            }
        }
        assert forall|i: int| 0 <= i < r.len() implies entry_le(#[trigger] r[i], last) by {
            if i < mid.len() {
                assert(r[i] == mid[i]);
            }
        }
        assert forall|i: int, j: int| 0 <= i <= j < r.len() implies entry_le(
            #[trigger] r[i],
            #[trigger] r[j],
        ) by {
            if j < mid.len() {
                assert(entry_le(mid[i], mid[j]));
            } else if i < mid.len() {
                assert(entry_le(mid[i], last));
            }
        }
        assert(r.to_multiset() == mid.to_multiset().insert(last));
        assert(sorted.to_multiset() == front.to_multiset().insert(last));
        assert(r.to_multiset() =~= sorted.to_multiset().insert(e));
    }
}

/// The entries that are wanted, as they come.
pub open spec fn wanted_entries(
    all: Seq<(String, Meta)>,
    project: Option<Seq<char>>,
    tags: Map<Seq<char>, Seq<char>>,
) -> Seq<(String, Meta)> {
    all.filter(|e: (String, Meta)| is_wanted(e, project, tags))
}

/// The list comes in the order of start times, and of identifiers among those
/// that started together, and holds exactly the entries that are wanted, each
/// as often as it is there.
pub proof fn list_is_sorted_and_complete(
    all: Seq<(String, Meta)>,
    project: Option<Seq<char>>,
    tags: Map<Seq<char>, Seq<char>>,
)
    ensures
        in_order(listed(all, project, tags)),
        listed(all, project, tags).to_multiset() == wanted_entries(
            all,
            project,
            tags,
        ).to_multiset(),
    decreases all.len(),
{
    broadcast use vstd::seq_lib::group_to_multiset_ensures;

    let pred = |e: (String, Meta)| is_wanted(e, project, tags);
    reveal(Seq::filter);
    if all.len() > 0 {
        let front = all.drop_last();
        list_is_sorted_and_complete(front, project, tags);
        if is_wanted(all.last(), project, tags) {
            lemma_insert_entry(listed(front, project, tags), all.last());
            assert(all.filter(pred) =~= front.filter(pred).push(all.last()));
        }
    } else {
        assert(listed(all, project, tags) =~= all.filter(pred));
    }
}

/// Whether the manager says that its subprocess has ended.
pub open spec fn says_exited(s: StatusReply) -> bool {
    s.state matches Some(t) && t@ == "exited"@
}

/// The state, the subprocess and the exit code that are shown: what the manager
/// says, where it has a socket and answers, and otherwise just that it runs. The
/// state is always `running` or `exited`.
pub open spec fn shown_state(sock: bool, reply: Option<StatusReply>) -> (
    Seq<char>,
    Option<u32>,
    Option<i32>,
) {
    match reply {
        Some(s) => if sock {
            (
                if says_exited(s) {
                    "exited"@
                } else {
                    "running"@
                },
                match s.child_pid {
                    Some(p) => Some(p as u32),
                    None => None,
                },
                wait::reply_code(s.code),
            )
        } else {
            ("running"@, None, None)
        },
        None => ("running"@, None, None),
    }
}

/// Works out the state, the subprocess and the exit code that are shown.
pub fn query_state(sock: bool, reply: Option<StatusReply>) -> (r: (
    String,
    Option<u32>,
    Option<i32>,
))
    ensures
        (r.0@, r.1, r.2) == shown_state(sock, reply),
{
    if !sock {
        return ("running".to_owned(), None, None);
    }
    match reply {
        Some(s) => {
            let exited: bool = match &s.state {
                Some(t) => same_text(t.as_str(), "exited"),
                None => false,
            };
            let shown: String = if exited {
                "exited".to_owned()
            } else {
                "running".to_owned()
            };
            let child_pid: Option<u32> = match s.child_pid {
                Some(p) => Some(p as u32),
                None => None,
            };
            let exit_code: Option<i32> = match s.code {
                Some(c) => Some(c as i32),
                None => None,
            };
            (shown, child_pid, exit_code)
        },
        None => ("running".to_owned(), None, None),
    }
}

/// How long ago a start was, in milliseconds; zero where it lies ahead.
pub open spec fn uptime(now_secs: nat, started_at: nat) -> nat {
    if started_at > now_secs {
        0
    } else if (now_secs - started_at) * 1000 > u64::MAX {
        u64::MAX as nat
    } else {
        ((now_secs - started_at) * 1000) as nat
    }
}

/// Whether a row shows a manager.
pub open spec fn is_row(
    e: ListEntry,
    id: String,
    m: Meta,
    now_secs: u64,
    sock: bool,
    reply: Option<StatusReply>,
) -> bool {
    &&& e.schema_version == m.schema_version
    &&& e.id == id
    &&& e.name == m.name
    &&& e.project == m.project
    &&& e.tags == m.tags
    &&& e.cmd == m.cmd
    &&& e.cwd == m.cwd
    &&& e.started_at == m.started_at
    &&& e.started_by_pid == m.started_by_pid
    &&& e.log_path == m.log_path
    &&& (e.state@, e.child_pid, e.exit_code) == shown_state(sock, reply)
    &&& e.uptime_ms == uptime(now_secs as nat, m.started_at as nat)
}

/// Makes a row of the list.
pub fn build_entry(
    id: String,
    m: Meta,
    now_secs: u64,
    sock: bool,
    reply: Option<StatusReply>,
) -> (r: ListEntry)
    ensures
        is_row(r, id, m, now_secs, sock, reply),
{
    let (shown, child_pid, exit_code) = query_state(sock, reply);
    let uptime_ms: u64 = match now_secs.checked_sub(m.started_at) {
        Some(d) => match d.checked_mul(1000) {
            Some(ms) => ms,
            None => u64::MAX,
        },
        None => 0,
    };
    ListEntry {
        schema_version: m.schema_version,
        id,
        name: m.name,
        project: m.project,
        tags: m.tags,
        cmd: m.cmd,
        cwd: m.cwd,
        started_at: m.started_at,
        started_by_pid: m.started_by_pid,
        log_path: m.log_path,
        state: shown,
        child_pid,
        exit_code,
        uptime_ms,
    }
}

// ---------------------------------------------------------------------
// The table
// ---------------------------------------------------------------------

/// A text cut to `max` characters, the last of them a mark where it was cut.
pub open spec fn cut(s: Seq<char>, max: nat) -> Seq<char> {
    if s.len() <= max {
        s
    } else {
        s.take(max - 1).push('…')
    }
}

/// Cuts a text to `max` characters.
pub fn truncate(s: &str, max: usize) -> (r: String)
    requires
        max > 0 || s@.len() == 0,
    ensures
        r@ == cut(s@, max as nat),
        r@.len() <= max,
{
    let n: usize = s.unicode_len();
    if n <= max {
        return s.to_owned();
    }
    let front = s.substring_char(0, max - 1);
    assert(front@ =~= s@.take(max - 1));
    let mut out = front.to_owned();
    out.push('…');
    out
}

/// A time for people, in its two largest units.
pub open spec fn uptime_text(ms: nat) -> Seq<char> {
    let s = ms / 1000;
    if s < 60 {
        text::decimal(s) + "s"@
    } else if s < 3600 {
        text::decimal(s / 60) + "m"@ + text::decimal(s % 60) + "s"@
    } else if s < 86400 {
        text::decimal(s / 3600) + "h"@ + text::decimal((s % 3600) / 60) + "m"@
    } else {
        text::decimal(s / 86400) + "d"@ + text::decimal((s % 86400) / 3600) + "h"@
    }
}

/// Two numbers with their units behind them.
fn two_units(a: u64, a_unit: &str, b: u64, b_unit: &str) -> (r: String)
    ensures
        r@ == text::decimal(a as nat) + a_unit@ + text::decimal(b as nat) + b_unit@,
{
    let mut out = concat3(decimal_text(a).as_str(), a_unit, decimal_text(b).as_str());
    out.append(b_unit);
    out
}

/// Shows a time for people.
pub fn format_uptime(ms: u64) -> (r: String)
    ensures
        r@ == uptime_text(ms as nat),
{
    let s: u64 = ms / 1000;
    if s < 60 {
        concat2(decimal_text(s).as_str(), "s")
    } else if s < 3600 {
        two_units(s / 60, "m", s % 60, "s")
    } else if s < 86400 {
        two_units(s / 3600, "h", (s % 3600) / 60, "m")
    } else {
        two_units(s / 86400, "d", (s % 86400) / 3600, "h")
    }
}

/// Whether an argument has to be quoted to be read back as one.
pub open spec fn needs_quotes(a: Seq<char>) -> bool {
    a.len() == 0 || exists|i: int|
        0 <= i < a.len() && (text::is_space(#[trigger] a[i]) || a[i] == '\'')
}

/// An argument, quoted if it has to be.
pub open spec fn shown_arg(a: Seq<char>) -> Seq<char> {
    if needs_quotes(a) {
        text::debug_text(a)
    } else {
        a
    }
}

/// Arguments with a blank between each two, quoted if they have to be.
pub open spec fn joined_args(argv: Seq<String>) -> Seq<char>
    decreases argv.len(),
{
    if argv.len() == 0 {
        Seq::empty()
    } else if argv.len() == 1 {
        shown_arg(argv[0]@)
    } else {
        joined_args(argv.drop_last()) + " "@ + shown_arg(argv.last()@)
    }
}

/// Shows an argument.
fn show_arg(a: &str) -> (r: String)
    ensures
        r@ == shown_arg(a@),
{
    let chars = chars_of(a);
    if chars.len() == 0 {
        return quoted(a);
    }
    let mut i: usize = 0;
    while i < chars.len()
        invariant
            i <= chars.len(),
            chars@ == a@,
            chars.len() > 0,
            forall|j: int| 0 <= j < i ==> !text::is_space(#[trigger] a@[j]) && a@[j] != '\'',
        decreases chars.len() - i,
    {
        let c = chars[i];
        if is_whitespace(c) || c == '\'' {
            assert(text::is_space(a@[i as int]) || a@[i as int] == '\'');
            return quoted(a);
        }
        i += 1;
    }
    a.to_owned()
}

/// Shows arguments on one line.
pub fn shell_join(argv: &Vec<String>) -> (r: String)
    ensures
        r@ == joined_args(argv@),
{
    let mut out = String::new();
    let mut i: usize = 0;
    assert(out@ =~= joined_args(argv@.take(0)));
    while i < argv.len()
        invariant
            i <= argv@.len(),
            out@ == joined_args(argv@.take(i as int)),
        decreases argv@.len() - i,
    {
        let shown = show_arg(argv[i].as_str());
        assert(argv@.take(i + 1).drop_last() =~= argv@.take(i as int));
        assert(argv@.take(i + 1).last() == argv@[i as int]);
        if i > 0 {
            out.append(" ");
            out.append(shown.as_str());
        } else {
            out = shown;
        }
        i += 1;
    }
    assert(argv@.take(argv@.len() as int) =~= argv@);
    out
}

/// The heading of the table.
pub open spec fn table_head() -> Seq<char> {
    text::padded("ID"@, 14) + " "@ + text::padded("NAME"@, 14) + " "@ + text::padded(
        "PROJECT"@,
        28,
    ) + " "@ + text::padded("STATE"@, 8) + " "@ + text::padded("UPTIME"@, 8) + " CMD\n"@
}

/// A line of the table.
pub open spec fn table_line(e: ListEntry) -> Seq<char> {
    let name = match e.name {
        Some(n) => n@,
        None => "-"@,
    };
    text::padded(cut(e.id@, 13), 14) + " "@ + text::padded(cut(name, 13), 14) + " "@
        + text::padded(cut(e.project@, 27), 28) + " "@ + text::padded(cut(e.state@, 7), 8) + " "@
        + text::padded(uptime_text(e.uptime_ms as nat), 8) + " "@ + joined_args(e.cmd@) + "\n"@
}

/// The table.
pub open spec fn table(entries: Seq<ListEntry>) -> Seq<char>
    decreases entries.len(),
{
    if entries.len() == 0 {
        table_head()
    } else {
        table(entries.drop_last()) + table_line(entries.last())
    }
}

/// Shows a line of the table.
fn show_line(e: &ListEntry) -> (r: String)
    ensures
        r@ == table_line(*e),
{
    let name: &str = match &e.name {
        Some(n) => n.as_str(),
        None => "-",
    };
    let mut out = pad(truncate(e.id.as_str(), 13).as_str(), 14);
    out.append(" ");
    out.append(pad(truncate(name, 13).as_str(), 14).as_str());
    out.append(" ");
    out.append(pad(truncate(e.project.as_str(), 27).as_str(), 28).as_str());
    out.append(" ");
    out.append(pad(truncate(e.state.as_str(), 7).as_str(), 8).as_str());
    out.append(" ");
    out.append(pad(format_uptime(e.uptime_ms).as_str(), 8).as_str());
    out.append(" ");
    out.append(shell_join(&e.cmd).as_str());
    out.append("\n");
    out
}

/// Shows the table.
pub fn render_table(entries: &Vec<ListEntry>) -> (r: String)
    ensures
        r@ == table(entries@),
{
    let mut out = pad("ID", 14);
    out.append(" ");
    out.append(pad("NAME", 14).as_str());
    out.append(" ");
    out.append(pad("PROJECT", 28).as_str());
    out.append(" ");
    out.append(pad("STATE", 8).as_str());
    out.append(" ");
    out.append(pad("UPTIME", 8).as_str());
    out.append(" CMD\n");
    let mut i: usize = 0;
    assert(entries@.take(0).len() == 0);
    while i < entries.len()
        invariant
            i <= entries@.len(),
            out@ == table(entries@.take(i as int)),
        decreases entries@.len() - i,
    {
        assert(entries@.take(i + 1).drop_last() =~= entries@.take(i as int));
        assert(entries@.take(i + 1).last() == entries@[i as int]);
        out.append(show_line(&entries[i]).as_str());
        i += 1;
    }
    assert(entries@.take(entries@.len() as int) =~= entries@);
    out
}

// ---------------------------------------------------------------------
// Stopping
// ---------------------------------------------------------------------

/// Checks an identifier.
pub fn check_id(id: &str) -> (r: Result<(), String>)
    ensures
        ids::valid_id(id@) ==> r is Ok,
        !ids::valid_id(id@) ==> (r matches Err(t) && t@ == "invalid id "@ + text::debug_text(id@)),
{
    if is_valid_id(id) {
        Ok(())
    } else {
        Err(concat2("invalid id ", quoted(id).as_str()))
    }
}

/// The action and the signal of a request.
pub open spec fn request_view(r: Request) -> (Seq<char>, Option<Seq<char>>) {
    (
        r.action@,
        match r.sig {
            Some(s) => Some(s@),
            None => None,
        },
    )
}

/// The requests that stop a subprocess, each of which has to be met before the
/// next one is sent: a signal first, where it is another one than the signal to
/// terminate, which closing sends by itself.
pub fn kill_requests(signal: &str) -> (r: Vec<Request>)
    ensures
        ({
            let close = ("close"@, None::<Seq<char>>);
            if ipc::bare_name(signal@) == "TERM"@ {
                r@.len() == 1 && request_view(r@[0]) == close
            } else {
                r@.len() == 2 && request_view(r@[0]) == ("signal"@, Some(signal@)) && request_view(
                    r@[1],
                ) == close
            }
        }),
{
    let up = to_upper(signal);
    let bare: &str = match strip_prefix(up.as_str(), "SIG") {
        Some(rest) => rest,
        None => up.as_str(),
    };
    let mut out: Vec<Request> = Vec::new();
    if !same_text(bare, "TERM") {
        out.push(Request { action: "signal".to_owned(), sig: Some(signal.to_owned()) });
    }
    out.push(Request { action: "close".to_owned(), sig: None });
    out
}

// ---------------------------------------------------------------------
// Laws
// ---------------------------------------------------------------------

/// A table is its heading and a row for every entry, in order.
pub proof fn a_table_has_a_row_for_every_entry(es: Seq<ListEntry>, e: ListEntry)
    ensures
        table(es.push(e)) == table(es) + table_line(e),
        table(Seq::empty()) == table_head(),
        table(es) == table_head() + es.map_values(|x: ListEntry| table_line(x)).flatten(),
        forall|i: int|
            0 <= i < es.len() ==> text::occurs(table(es), table_line(#[trigger] es[i])),
    decreases es.len(),
{
    let f = |x: ListEntry| table_line(x);
    assert(es.push(e).drop_last() =~= es);
    if es.len() > 0 {
        let front = es.drop_last();
        a_table_has_a_row_for_every_entry(front, es.last());
        assert(es.map_values(f) =~= front.map_values(f).push(table_line(es.last())));
        front.map_values(f).lemma_flatten_push(table_line(es.last()));
        assert(table(es) =~= table_head() + es.map_values(f).flatten());
        text::longer_texts_hold_more(table(front), table_line(es.last()));
        text::a_text_occurs_in_itself(table(front), table_line(es.last()));
        assert forall|i: int| 0 <= i < es.len() implies text::occurs(
            table(es),
            table_line(#[trigger] es[i]),
        ) by {
            if i < front.len() {
                assert(es[i] == front[i]);
            }
        }
    } else {
        assert(es.map_values(f) =~= Seq::<Seq<char>>::empty());
        assert(table_head() + Seq::<char>::empty() =~= table_head());
    }
}

/// A row shows the identifier, the name, the project and the state in their columns,
/// cut to fit, then the uptime and the command, and ends its line.
pub proof fn a_row_has_its_columns(e: ListEntry)
    ensures
        ({
            let row = table_line(e);
            let name = match e.name {
                Some(n) => n@,
                None => seq!['-'],
            };
            &&& row.len() > 76
            &&& row.last() == '\n'
            &&& e.id@.len() <= 13 ==> row.take(e.id@.len() as int) == e.id@
            &&& name.len() <= 13 ==> row.subrange(15, 15int + name.len()) == name
            &&& e.project@.len() <= 27 ==> row.subrange(30, 30int + e.project@.len()) == e.project@
            &&& e.state@.len() <= 7 ==> row.subrange(59, 59int + e.state@.len()) == e.state@
            &&& e.id@.len() > 13 ==> row.take(13) == e.id@.take(12).push('…')
            &&& name.len() > 13 ==> row.subrange(15, 28) == name.take(12).push('…')
            &&& e.project@.len() > 27 ==> row.subrange(30, 57) == e.project@.take(26).push('…')
            &&& e.state@.len() > 7 ==> row.subrange(59, 66) == e.state@.take(6).push('…')
            &&& row.subrange(68, 68int + uptime_text(e.uptime_ms as nat).len()) == uptime_text(
                e.uptime_ms as nat,
            )
            &&& text::occurs(row, seq![' '] + joined_args(e.cmd@) + seq!['\n'])
        }),
{
    reveal_strlit("-");
    reveal_strlit(" ");
    reveal_strlit("\n");
    assert("-"@ =~= seq!['-']);
    assert(" "@ =~= seq![' ']);
    assert("\n"@ =~= seq!['\n']);
    let name = match e.name {
        Some(n) => n@,
        None => "-"@,
    };
    let a = cut(e.id@, 13);
    let b = cut(name, 13);
    let c = cut(e.project@, 27);
    let d = cut(e.state@, 7);
    let u = uptime_text(e.uptime_ms as nat);
    text::padding_only_fills_up(0, a, 14);
    text::padding_only_fills_up(0, b, 14);
    text::padding_only_fills_up(0, c, 28);
    text::padding_only_fills_up(0, d, 8);
    text::padding_only_fills_up(0, u, 8);
    let t1 = text::padded(a, 14);
    let t2 = t1 + " "@;
    let t3 = t2 + text::padded(b, 14);
    let t4 = t3 + " "@;
    let t5 = t4 + text::padded(c, 28);
    let t6 = t5 + " "@;
    let t7 = t6 + text::padded(d, 8);
    let t8 = t7 + " "@;
    let t9 = t8 + text::padded(u, 8);
    let t10 = t9 + " "@;
    let t11 = t10 + joined_args(e.cmd@);
    let row = t11 + "\n"@;
    assert(row == table_line(e));
    assert(a.len() <= 13 && b.len() <= 13 && c.len() <= 27 && d.len() <= 7);
    assert(t2.len() == 15 && t4.len() == 30 && t6.len() == 59 && t8.len() == 68);
    lemma_column(Seq::empty(), a, 14);
    assert(Seq::<char>::empty() + t1 =~= t1);
    lemma_column(t2, b, 14);
    lemma_column(t4, c, 28);
    lemma_column(t6, d, 8);
    lemma_column(t8, u, 8);
    lemma_start_stays(t1, " "@);
    lemma_start_stays(t2, text::padded(b, 14));
    lemma_start_stays(t3, " "@);
    lemma_start_stays(t4, text::padded(c, 28));
    lemma_start_stays(t5, " "@);
    lemma_start_stays(t6, text::padded(d, 8));
    lemma_start_stays(t7, " "@);
    lemma_start_stays(t8, text::padded(u, 8));
    lemma_start_stays(t9, " "@);
    lemma_start_stays(t10, joined_args(e.cmd@));
    lemma_start_stays(t11, "\n"@);
    assert(row.take(a.len() as int) =~= row.subrange(0, a.len() as int));
    text::two_parts_stand_together(t9, " "@ + joined_args(e.cmd@), "\n"@);
    assert(t9 + (" "@ + joined_args(e.cmd@)) =~= t11);
}

proof fn lemma_column(before: Seq<char>, s: Seq<char>, width: nat)
    ensures
        (before + text::padded(s, width)).subrange(
            before.len() as int,
            before.len() as int + s.len(),
        ) == s,
        before.len() + s.len() <= (before + text::padded(s, width)).len(),
{
    text::padding_only_fills_up(0, s, width);
    let all = before + text::padded(s, width);
    assert(all.subrange(before.len() as int, before.len() as int + s.len())
        =~= text::padded(s, width).take(s.len() as int));
}

proof fn lemma_start_stays(s: Seq<char>, x: Seq<char>)
    ensures
        forall|i: int, j: int|
            0 <= i <= j <= s.len() ==> #[trigger] (s + x).subrange(i, j) == s.subrange(i, j),
{
    assert forall|i: int, j: int| 0 <= i <= j <= s.len() implies #[trigger] (s + x).subrange(i, j)
        == s.subrange(i, j) by {
        assert((s + x).subrange(i, j) =~= s.subrange(i, j));
    }
}

/// The heading names each column where the column starts.
pub proof fn the_heading_names_the_columns()
    ensures
        table_head().len() == 81,
        table_head().subrange(0, 2) == "ID"@,
        table_head().subrange(15, 19) == "NAME"@,
        table_head().subrange(30, 37) == "PROJECT"@,
        table_head().subrange(59, 64) == "STATE"@,
        table_head().subrange(68, 74) == "UPTIME"@,
        table_head().subrange(76, 81) == " CMD\n"@,
{
    reveal_strlit("ID");
    reveal_strlit("NAME");
    reveal_strlit("PROJECT");
    reveal_strlit("STATE");
    reveal_strlit("UPTIME");
    reveal_strlit(" CMD\n");
    reveal_strlit(" ");
    text::padding_only_fills_up(0, "ID"@, 14);
    text::padding_only_fills_up(0, "NAME"@, 14);
    text::padding_only_fills_up(0, "PROJECT"@, 28);
    text::padding_only_fills_up(0, "STATE"@, 8);
    text::padding_only_fills_up(0, "UPTIME"@, 8);
    let t1 = text::padded("ID"@, 14);
    let t2 = t1 + " "@;
    let t3 = t2 + text::padded("NAME"@, 14);
    let t4 = t3 + " "@;
    let t5 = t4 + text::padded("PROJECT"@, 28);
    let t6 = t5 + " "@;
    let t7 = t6 + text::padded("STATE"@, 8);
    let t8 = t7 + " "@;
    let t9 = t8 + text::padded("UPTIME"@, 8);
    let head = t9 + " CMD\n"@;
    assert(head == table_head());
    assert(t2.len() == 15 && t4.len() == 30 && t6.len() == 59 && t8.len() == 68 && t9.len() == 76);
    lemma_column(Seq::empty(), "ID"@, 14);
    assert(Seq::<char>::empty() + t1 =~= t1);
    lemma_column(t2, "NAME"@, 14);
    lemma_column(t4, "PROJECT"@, 28);
    lemma_column(t6, "STATE"@, 8);
    lemma_column(t8, "UPTIME"@, 8);
    lemma_start_stays(t1, " "@);
    lemma_start_stays(t2, text::padded("NAME"@, 14));
    lemma_start_stays(t3, " "@);
    lemma_start_stays(t4, text::padded("PROJECT"@, 28));
    lemma_start_stays(t5, " "@);
    lemma_start_stays(t6, text::padded("STATE"@, 8));
    lemma_start_stays(t7, " "@);
    lemma_start_stays(t8, text::padded("UPTIME"@, 8));
    lemma_start_stays(t9, " CMD\n"@);
    assert(head.subrange(76, 81) =~= " CMD\n"@);
}

/// A text that fits stays as it is; a longer one keeps its start, and shows that
/// something is missing.
pub proof fn cutting_keeps_the_start(s: Seq<char>, max: nat)
    requires
        max > 0,
    ensures
        s.len() <= max ==> cut(s, max) == s,
        s.len() > max ==> cut(s, max).len() == max && cut(s, max).take(max - 1) == s.take(max - 1)
            && cut(s, max).last() == '…',
{
    if s.len() > max {
        assert(cut(s, max).take(max - 1) =~= s.take(max - 1));
    }
}

/// An uptime is shown in its two largest units.
pub proof fn uptimes_are_shown_in_two_units(a: nat, b: nat, ms: nat)
    requires
        ms < 1000,
    ensures
        a < 60 ==> uptime_text(a * 1000 + ms) == text::decimal(a) + "s"@,
        0 < a < 60 && b < 60 ==> uptime_text((a * 60 + b) * 1000 + ms) == text::decimal(a) + "m"@
            + text::decimal(b) + "s"@,
        0 < a < 24 && b < 60 ==> uptime_text((a * 3600 + b * 60) * 1000 + ms) == text::decimal(a)
            + "h"@ + text::decimal(b) + "m"@,
        0 < a && b < 24 ==> uptime_text((a * 86400 + b * 3600) * 1000 + ms) == text::decimal(a)
            + "d"@ + text::decimal(b) + "h"@,
{
    assert((a * 1000 + ms) / 1000 == a);
    if 0 < a < 60 && b < 60 {
        let s = a * 60 + b;
        assert((s * 1000 + ms) / 1000 == s);
        assert(60 <= s < 3600 && s / 60 == a && s % 60 == b);
    }
    if 0 < a < 24 && b < 60 {
        let s = a * 3600 + b * 60;
        assert((s * 1000 + ms) / 1000 == s);
        assert(3600 <= s < 86400 && s / 3600 == a && (s % 3600) / 60 == b);
    }
    if 0 < a && b < 24 {
        let s = a * 86400 + b * 3600;
        assert((s * 1000 + ms) / 1000 == s);
        assert(86400 <= s && s / 86400 == a && (s % 86400) / 3600 == b);
    }
}

/// An uptime is the time since the start.
pub proof fn uptimes_count_from_the_start(started_at: nat, secs: nat)
    ensures
        secs * 1000 <= u64::MAX ==> uptime(started_at + secs, started_at) == secs * 1000,
        secs * 1000 > u64::MAX ==> uptime(started_at + secs, started_at) == u64::MAX,
        secs > 0 ==> uptime(started_at, started_at + secs) == 0,
{
}

/// A command is shown word by word, with a blank between each two; a word without
/// blanks and quotes is shown as it is.
pub proof fn commands_are_shown_word_by_word(argv: Seq<String>, a: String)
    ensures
        joined_args(Seq::empty()) == Seq::<char>::empty(),
        joined_args(seq![a]) == shown_arg(a@),
        argv.len() > 0 ==> joined_args(argv.push(a)) == joined_args(argv) + seq![' '] + shown_arg(
            a@,
        ),
        a@.len() > 0 && (forall|i: int|
            0 <= i < a@.len() ==> '!' <= #[trigger] a@[i] <= '~' && a@[i] != '\'') ==> shown_arg(a@)
            == a@,
        a@.len() == 0 || a@.contains(' ') || a@.contains('\t') || a@.contains('\'') ==> shown_arg(
            a@,
        ) == text::debug_text(a@),
        a@.len() > 0 && (forall|i: int|
            0 <= i < a@.len() ==> !text::is_space(#[trigger] a@[i]) && a@[i] != '\'') ==> shown_arg(
            a@,
        ) == a@,
        (exists|i: int| 0 <= i < a@.len() && text::is_space(#[trigger] a@[i])) ==> shown_arg(a@)
            == text::debug_text(a@),
{
    reveal_strlit(" ");
    assert(" "@ =~= seq![' ']);
    assert(argv.push(a).drop_last() =~= argv);
    assert forall|i: int| 0 <= i < a@.len() && '!' <= #[trigger] a@[i] <= '~' implies !text::is_space(
        a@[i],
    ) by {
        text::white_space_cannot_be_seen(a@[i]);
    }
    if a@.contains(' ') {
        let i = a@.index_of(' ');
        assert(text::is_space(a@[i]));
    }
    if a@.contains('\t') {
        let i = a@.index_of('\t');
        assert(text::is_space(a@[i]));
    }
    if a@.contains('\'') {
        let i = a@.index_of('\'');
        assert(a@[i] == '\'');
    }
}

/// What a manager says of its subprocess is shown; one that cannot be asked counts as
/// running.
pub proof fn a_state_is_what_the_manager_says(s: StatusReply)
    ensures
        shown_state(false, Some(s)) == ("running"@, None::<u32>, None::<i32>),
        shown_state(true, None) == ("running"@, None::<u32>, None::<i32>),
        s.state matches Some(t) && t@ == "exited"@ ==> shown_state(true, Some(s)).0 == "exited"@,
        !(s.state matches Some(t) && t@ == "exited"@) ==> shown_state(true, Some(s)).0
            == "running"@,
        s.child_pid is Some && s.child_pid->0 <= u32::MAX ==> shown_state(true, Some(s)).1
            == Some(s.child_pid->0 as u32),
        s.child_pid is None ==> shown_state(true, Some(s)).1 is None,
        s.code is Some && i32::MIN <= s.code->0 <= i32::MAX ==> (shown_state(true, Some(s)).2
            matches Some(c) && c == s.code->0),
        s.code is None ==> shown_state(true, Some(s)).2 is None,
{
}

/// A row of a list is the metadata of its manager, with the state and the uptime.
pub proof fn a_row_is_the_metadata(
    e: ListEntry,
    id: String,
    m: Meta,
    now_secs: u64,
    sock: bool,
    reply: Option<StatusReply>,
)
    requires
        is_row(e, id, m, now_secs, sock, reply),
    ensures
        e.id == id && e.name == m.name && e.project == m.project && e.tags == m.tags && e.cmd
            == m.cmd && e.cwd == m.cwd && e.log_path == m.log_path && e.started_at == m.started_at
            && e.started_by_pid == m.started_by_pid && e.schema_version == m.schema_version,
        m.started_at <= now_secs && (now_secs - m.started_at) * 1000 <= u64::MAX ==> e.uptime_ms
            == (now_secs - m.started_at) * 1000,
        e.state@ == "exited"@ ==> sock && reply is Some,
{
    reveal_strlit("exited");
    reveal_strlit("running");
    assert("exited"@.len() != "running"@.len());
}

/// An entry is listed where it belongs to the project, if one is asked for, and
/// carries every annotation that is asked for; the list starts with what started
/// first, and of two that started together with the identifier that comes first.
pub proof fn lists_hold_what_is_asked_for(
    a: (String, Meta),
    b: (String, Meta),
    project: Seq<char>,
    k: Seq<char>,
    v: Seq<char>,
)
    ensures
        is_wanted(a, None, Map::empty()),
        is_wanted(a, Some(project), Map::empty()) <==> a.1.project@ == project,
        is_wanted(a, None, Map::empty().insert(k, v)) <==> a.1.tags@.contains_key(k)
            && a.1.tags@[k] == v,
        is_wanted(a, Some(project), Map::empty().insert(k, v)) <==> a.1.project@ == project
            && a.1.tags@.contains_key(k) && a.1.tags@[k] == v,
        a.1.started_at < b.1.started_at ==> entry_le(a, b) && !entry_le(b, a),
        a.1.started_at == b.1.started_at ==> (entry_le(a, b) <==> text::lex_le(a.0@, b.0@)),
{
    let one = Map::<Seq<char>, Seq<char>>::empty().insert(k, v);
    assert(one.contains_key(k));
}

/// An annotation is wanted along with the others.
pub proof fn every_annotation_is_wanted(
    e: (String, Meta),
    project: Option<Seq<char>>,
    tags: Map<Seq<char>, Seq<char>>,
    k: Seq<char>,
    v: Seq<char>,
)
    requires
        !tags.contains_key(k),
    ensures
        is_wanted(e, project, tags.insert(k, v)) <==> is_wanted(e, project, tags)
            && e.1.tags@.contains_key(k) && e.1.tags@[k] == v,
{
    let more = tags.insert(k, v);
    assert(more.contains_key(k));
    if is_wanted(e, project, more) {
        assert forall|x: Seq<char>| #[trigger] tags.contains_key(x) implies e.1.tags@.contains_key(
            x,
        ) && e.1.tags@[x] == tags[x] by {
            assert(more.contains_key(x));
        }
    }
}

/// A walk over the state directory takes every probe for live or for dead, keeps
/// their order, and names every socket that is alone.
pub proof fn a_walk_takes_every_probe(probes: Seq<PidProbe>, socks: Seq<(String, bool)>)
    ensures
        live_probes(probes) == probes.filter(|p: PidProbe| p.pid is Some && p.alive),
        dead_ids(probes) == probes.filter(|p: PidProbe| !(p.pid is Some && p.alive)).map_values(
            |p: PidProbe| p.id@,
        ),
        lone_socks(socks) == socks.filter(|s: (String, bool)| !s.1).map_values(
            |s: (String, bool)| s.0@,
        ),
    decreases probes.len() + socks.len(),
{
    reveal(Seq::filter);
    let f = |p: PidProbe| p.id@;
    let g = |s: (String, bool)| s.0@;
    let dead = |p: PidProbe| !(p.pid is Some && p.alive);
    let lone = |s: (String, bool)| !s.1;
    if probes.len() > 0 {
        let front = probes.drop_last();
        a_walk_takes_every_probe(front, socks);
        if dead(probes.last()) {
            assert(front.filter(dead).push(probes.last()).map_values(f) =~= front.filter(
                dead,
            ).map_values(f).push(probes.last().id@));
        }
    } else if socks.len() > 0 {
        let front = socks.drop_last();
        a_walk_takes_every_probe(probes, front);
        if lone(socks.last()) {
            assert(front.filter(lone).push(socks.last()).map_values(g) =~= front.filter(
                lone,
            ).map_values(g).push(socks.last().0@));
        }
        assert(dead_ids(probes) =~= probes.filter(dead).map_values(f));
    } else {
        assert(live_probes(probes) =~= probes.filter(|p: PidProbe| p.pid is Some && p.alive));
        assert(dead_ids(probes) =~= probes.filter(dead).map_values(f));
        assert(lone_socks(socks) =~= socks.filter(lone).map_values(g));
    }
}

/// The holder of a name in a project is the first manager there that has it.
pub proof fn the_first_holder_has_the_name(
    metas: Seq<(String, Meta)>,
    project: Seq<char>,
    name: Seq<char>,
)
    ensures
        match name_holder(metas, project, name) {
            Some(id) => exists|i: int|
                0 <= i < metas.len() && (#[trigger] metas[i]).0@ == id && metas[i].1.project@
                    == project && metas[i].1.name is Some && metas[i].1.name->0@ == name,
            None => forall|i: int|
                0 <= i < metas.len() ==> !((#[trigger] metas[i]).1.project@ == project
                    && metas[i].1.name is Some && metas[i].1.name->0@ == name),
        },
    decreases metas.len(),
{
    if metas.len() > 0 {
        let rest = metas.drop_first();
        the_first_holder_has_the_name(rest, project, name);
        if has_name(metas[0].1, project, name) {
            assert(metas[0].0@ == name_holder(metas, project, name)->0);
        } else {
            match name_holder(rest, project, name) {
                Some(id) => {
                    let i = choose|i: int|
                        0 <= i < rest.len() && (#[trigger] rest[i]).0@ == id
                            && rest[i].1.project@ == project && rest[i].1.name is Some
                            && rest[i].1.name->0@ == name;
                    assert(metas[i + 1] == rest[i]);
                },
                None => {
                    assert forall|i: int| 0 <= i < metas.len() implies !((
                    #[trigger] metas[i]).1.project@ == project && metas[i].1.name is Some
                        && metas[i].1.name->0@ == name) by {
                        if i > 0 {
                            assert(metas[i] == rest[i - 1]);
                        }
                    }
                },
            }
        }
    }
}

/// An argument stands for itself where there is a manager or a log of that
/// identifier, or no manager of that name in the project.
pub proof fn identifiers_stand_for_themselves(
    arg: Seq<char>,
    metas: Seq<(String, Meta)>,
    project: Seq<char>,
    i: int,
)
    ensures
        target_of(arg, true, metas, project) == arg,
        0 <= i < metas.len() && metas[i].0@ == arg ==> target_of(arg, false, metas, project) == arg,
        (forall|j: int|
            0 <= j < metas.len() ==> !((#[trigger] metas[j]).1.project@ == project
                && metas[j].1.name is Some && metas[j].1.name->0@ == arg)) ==> target_of(
            arg,
            false,
            metas,
            project,
        ) == arg,
        target_of(arg, false, metas, project) != arg ==> exists|j: int|
            0 <= j < metas.len() && (#[trigger] metas[j]).0@ == target_of(
                arg,
                false,
                metas,
                project,
            ),
{
    the_first_holder_has_the_name(metas, project, arg);
}

/// An annotation is a key, an equals sign and a value; only the first equals sign
/// counts, and a key there must be.
pub proof fn annotations_are_keys_and_values(k: Seq<char>, v: Seq<char>)
    requires
        !k.contains('='),
    ensures
        k.len() > 0 ==> tag_of(k + seq!['='] + v) == Ok::<(Seq<char>, Seq<char>), Seq<char>>(
            (k, v),
        ),
        tag_of(seq!['='] + v) is Err,
        tag_of(k) is Err,
{
    let s = k + seq!['='] + v;
    text::first_index_is_first(s, '=');
    text::first_index_is_first(k, '=');
    text::first_index_is_first(seq!['='] + v, '=');
    assert((seq!['='] + v)[0] == '=');
    let i = text::first_index(s, '=');
    assert(s[k.len() as int] == '=');
    if i < k.len() {
        assert(s[i] == k[i]);
        assert(k.contains(k[i]));
    }
    assert(s.contains('='));
    assert(i == k.len());
    assert(s.take(i) =~= k);
    assert(s.skip(i + 1) =~= v);
}

/// All annotations are read, in order, unless one of them is none.
pub proof fn every_annotation_is_read(raw: Seq<String>)
    ensures
        match tags_of(raw) {
            Ok(kvs) => kvs.len() == raw.len() && forall|i: int|
                0 <= i < raw.len() ==> tag_of((#[trigger] raw[i])@) == Ok::<
                    (Seq<char>, Seq<char>),
                    Seq<char>,
                >(kvs[i]),
            Err(e) => exists|i: int|
                0 <= i < raw.len() && tag_of((#[trigger] raw[i])@) == Err::<
                    (Seq<char>, Seq<char>),
                    Seq<char>,
                >(e),
        },
    decreases raw.len(),
{
    if raw.len() > 0 {
        let front = raw.drop_last();
        every_annotation_is_read(front);
        match tags_of(raw) {
            Ok(kvs) => {
                assert forall|i: int| 0 <= i < raw.len() implies tag_of((#[trigger] raw[i])@)
                    == Ok::<(Seq<char>, Seq<char>), Seq<char>>(kvs[i]) by {
                    if i < front.len() {
                        assert(front[i] == raw[i]);
                    }
                }
            },
            Err(e) => {
                if tags_of(front) is Err {
                    let i = choose|i: int|
                        0 <= i < front.len() && tag_of((#[trigger] front[i])@) == Err::<
                            (Seq<char>, Seq<char>),
                            Seq<char>,
                        >(e);
                    assert(raw[i] == front[i]);
                } else {
                    assert(tag_of(raw[raw.len() - 1]@) is Err);
                }
            },
        }
    }
}

/// A name has at least one character and at most 128 bytes, and none that means
/// anything in a path or ends a line.
pub proof fn names_are_plain(n: Seq<char>)
    ensures
        name_error(n) is None <==> n.len() > 0 && encode_utf8(n).len() <= 128 && forall|i: int|
            0 <= i < n.len() ==> (#[trigger] n[i]) != '/' && n[i] != '\\' && n[i] != '\n' && n[i]
                != '\0',
{
    if name_error(n) is None {
        assert forall|i: int| 0 <= i < n.len() implies (#[trigger] n[i]) != '/' && n[i] != '\\'
            && n[i] != '\n' && n[i] != '\0' by {
            assert(n.contains(n[i]));
        }
    }
}

/// A subprocess is started where its identifier, project, name and annotations are
/// all good and its name is free, and only there.
pub proof fn starting_takes_all_that_is_needed(
    asked: Option<String>,
    project: Result<String, String>,
    name: Option<String>,
    raw_tags: Seq<String>,
    metas: Seq<(String, Meta)>,
)
    ensures
        spawn_error(asked, project, name, raw_tags, metas) is None <==> (asked is None
            || ids::valid_id(asked->0@)) && project is Ok && tags_of(raw_tags) is Ok && (name is None
            || name_error(name->0@) is None && name_holder(metas, project->Ok_0@, name->0@) is None),
{
}

/// Naming another subprocess in a verb changes the subprocess and nothing else.
pub proof fn only_the_target_changes(route: Route, id: String)
    ensures
        route_arg(route) is Some ==> route_arg(retargeted(route, id)) == Some(id) && retargeted(
            retargeted(route, id),
            route_arg(route)->0,
        ) == route,
        route_arg(route) is None ==> retargeted(route, id) == route,
        route_arg(route) is None <==> route is Spawn || route is List || route is Doctor,
{
}

/// Every verb keeps its options. Reading a log with a pattern is searching it, with
/// the options that searching has.
pub proof fn verbs_keep_their_options(c: Command)
    ensures
        c matches Command::Status { id } ==> route_of(c) == (Route::Status { id }),
        c matches Command::Kill { id, signal } ==> route_of(c) == (Route::Kill { id, signal }),
        c matches Command::Spawn { id, project, name, tags, timestamps, argv } ==> (route_of(c)
            matches Route::Spawn { id: a, project: b, name: n, tags: t, timestamps: s, argv: v }
            && a == id && b == project && n == name && t == tags && s == timestamps && v == argv),
        c matches Command::List { project, tags, all, json } ==> (route_of(c) matches Route::List {
            project: a,
            tags: b,
            all: d,
            json: e,
        } && a == project && b == tags && d == all && e == json),
        c is Tail && c->Tail_grep is None ==> (route_of(c) matches Route::Tail(o) && o.id
            == c->Tail_id && o.lines == c->Tail_lines && o.bytes == c->Tail_bytes && o.head
            == c->Tail_head && o.reverse == c->Tail_reverse && o.cursor == c->Tail_cursor
            && o.json == c->Tail_json && o.since == c->Tail_since && o.until == c->Tail_until
            && o.follow == c->Tail_follow && o.strip_ansi == c->Tail_strip_ansi
            && o.keep_timestamps == c->Tail_keep_timestamps),
        c is Tail && c->Tail_grep is Some ==> (route_of(c) matches Route::Grep(o) && o.id
            == c->Tail_id && o.pattern == c->Tail_grep && o.pattern_file is None && o.around
            == c->Tail_around && o.limit == c->Tail_limit && o.since == c->Tail_since && o.until
            == c->Tail_until && o.json == c->Tail_json && o.strip_ansi == c->Tail_strip_ansi
            && !o.match_full_line && !o.multiline && !o.ignore_case),
        c is Grep ==> (route_of(c) matches Route::Grep(o) && o.id == c->Grep_id && o.pattern
            == c->Grep_pattern && o.pattern_file == c->Grep_pattern_file && o.around
            == c->Grep_around && o.limit == c->Grep_limit && o.since == c->Grep_since && o.until
            == c->Grep_until && o.json == c->Grep_json && o.strip_ansi == c->Grep_strip_ansi
            && o.match_full_line == c->Grep_match_full_line && o.multiline == c->Grep_multiline
            && !o.ignore_case),
        c is Slice ==> (route_of(c) matches Route::Slice(o) && o.id == c->Slice_id && o.from
            == c->Slice_from && o.to == c->Slice_to && o.from_cursor == c->Slice_from_cursor
            && o.to_cursor == c->Slice_to_cursor && o.strip_ansi == c->Slice_strip_ansi
            && o.keep_timestamps == c->Slice_keep_timestamps && o.json == c->Slice_json),
        c is Wait ==> (route_of(c) matches Route::Wait(o) && o.id == c->Wait_id && o.pattern
            == c->Wait_pattern && o.pattern_file == c->Wait_pattern_file && o.timeout
            == c->Wait_timeout && o.multiline == c->Wait_multiline && o.json == c->Wait_json),
        c is Summary ==> (route_of(c) matches Route::Summary(o) && o.id == c->Summary_id && o.json
            == c->Summary_json && o.recent_window == Some(c->Summary_recent_window)
            && o.error_pattern == c->Summary_error_pattern && o.warning_pattern
            == c->Summary_warning_pattern),
        c is Doctor ==> (route_of(c) matches Route::Doctor(o) && o.fix == c->Doctor_fix && o.json
            == c->Doctor_json),
{
}

/// A manager without metadata is listed under its identifier, with its log and
/// nothing else known of it; any other one with its metadata.
pub proof fn managers_are_listed_with_what_is_known(
    e: (String, Meta),
    p: PidProbe,
    dir: Seq<char>,
)
    requires
        is_entry_for(e, p, dir),
    ensures
        e.0 == p.id,
        p.meta is Some ==> e.1 == p.meta->0,
        p.meta is None ==> e.1.id@ == p.id@ && e.1.name is None && e.1.project@ == ""@
            && e.1.cmd@.len() == 0 && e.1.started_at == 0 && e.1.child_pid is None
            && e.1.log_path@ == state::path_join(dir, p.id@ + ".log"@) && e.1.tags@ == Map::<
            Seq<char>,
            Seq<char>,
        >::empty(),
{
}

/// A start that is refused says why: the identifier, the name, the annotation, or the
/// manager that has the name.
pub proof fn refused_starts_say_why(
    asked: Option<String>,
    project: Result<String, String>,
    name: Option<String>,
    raw_tags: Seq<String>,
    metas: Seq<(String, Meta)>,
)
    ensures
        asked is Some && !ids::valid_id(asked->0@) ==> spawn_error(
            asked,
            project,
            name,
            raw_tags,
            metas,
        ) == Some(
            "invalid --id "@ + text::debug_text(asked->0@)
                + ": must be 1-64 chars, [a-z0-9_-] only"@,
        ),
        asked is None && (project matches Err(e)) ==> spawn_error(
            asked,
            project,
            name,
            raw_tags,
            metas,
        ) == Some("spawn: "@ + project->Err_0@),
        asked is None && project is Ok && name is Some && name_error(name->0@) is Some
            ==> spawn_error(asked, project, name, raw_tags, metas) == Some(
            "spawn: "@ + name_error(name->0@)->0,
        ),
        asked is None && project is Ok && name is None && tags_of(raw_tags) is Err ==> spawn_error(
            asked,
            project,
            name,
            raw_tags,
            metas,
        ) == Some("spawn: "@ + tags_of(raw_tags)->Err_0),
        asked is None && project is Ok && name is Some && name_error(name->0@) is None && tags_of(
            raw_tags,
        ) is Ok && name_holder(metas, project->Ok_0@, name->0@) is Some ==> spawn_error(
            asked,
            project,
            name,
            raw_tags,
            metas,
        ) == Some(
            "spawn: "@ + ("name "@ + text::debug_text(name->0@) + " already in use by id "@
                + name_holder(metas, project->Ok_0@, name->0@)->0),
        ),
{
}

/// A name or an annotation that is refused is told what is wrong with it.
pub proof fn refused_names_say_why(n: Seq<char>, k: Seq<char>, v: Seq<char>)
    requires
        !k.contains('='),
    ensures
        name_error(Seq::empty()) == Some("--name cannot be empty"@),
        n.len() > 0 && encode_utf8(n).len() > 128 ==> name_error(n) == Some(
            "--name must be ≤128 chars"@,
        ),
        n.len() > 0 && encode_utf8(n).len() <= 128 && (n.contains('/') || n.contains('\\')
            || n.contains('\n') || n.contains('\0')) ==> name_error(n) == Some(
            "--name must not contain '/', '\\\\', newline, or NUL"@,
        ),
        tag_of(k) == Err::<(Seq<char>, Seq<char>), Seq<char>>(
            "--tag "@ + text::debug_text(k) + " is missing '=' (expected K=V)"@,
        ),
        tag_of(seq!['='] + v) == Err::<(Seq<char>, Seq<char>), Seq<char>>(
            "--tag "@ + text::debug_text(seq!['='] + v) + " has empty key"@,
        ),
{
    text::first_index_is_first(k, '=');
    let i = text::first_index(k, '=');
    if 0 <= i < k.len() {
        assert(k.contains(k[i]));
    }
    assert((seq!['='] + v)[0] == '=');
}

} // verus!
