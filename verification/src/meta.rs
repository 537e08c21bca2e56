//! What is known of a managed subprocess.

use vstd::prelude::*;
use vstd::string::*;

use crate::state;
use crate::state::join_path;
use crate::text;
use crate::text::{chars_of, concat3, decimal_text, parse_unsigned, same_text, text_le};

verus! {

// ---------------------------------------------------------------------
// Tags
// ---------------------------------------------------------------------

/// Free-form annotations: values by key. Each key is there once, and the keys
/// are in order.
pub struct Tags {
    entries: Vec<(String, String)>,
}

/// The values by key of a list of annotations. A later value replaces an earlier
/// one of the same key.
pub open spec fn tag_map(entries: Seq<(Seq<char>, Seq<char>)>) -> Map<Seq<char>, Seq<char>>
    decreases entries.len(),
{
    if entries.len() == 0 {
        Map::empty()
    } else {
        tag_map(entries.drop_last()).insert(entries.last().0, entries.last().1)
    }
}

/// What a list of pairs of strings holds.
pub open spec fn pair_views(entries: Seq<(String, String)>) -> Seq<(Seq<char>, Seq<char>)> {
    entries.map_values(|e: (String, String)| (e.0@, e.1@))
}

/// Whether a key comes before another one.
pub open spec fn key_before(a: Seq<char>, b: Seq<char>) -> bool {
    text::lex_le(a, b) && a != b
}

/// Whether each key is there once, and the keys are in order.
pub open spec fn in_key_order(entries: Seq<(Seq<char>, Seq<char>)>) -> bool {
    forall|i: int, j: int|
        0 <= i < j < entries.len() ==> key_before(
            (#[trigger] entries[i]).0,
            (#[trigger] entries[j]).0,
        )
}

/// The keys that have a value are those in the list. Where each is there once,
/// its value is the one beside it, and there are as many keys as entries.
pub proof fn tag_map_is_the_list(entries: Seq<(Seq<char>, Seq<char>)>)
    ensures
        forall|k: Seq<char>| #[trigger]
            tag_map(entries).contains_key(k) ==> exists|i: int|
                0 <= i < entries.len() && (#[trigger] entries[i]).0 == k,
        forall|i: int|
            0 <= i < entries.len() ==> tag_map(entries).contains_key((#[trigger] entries[i]).0),
        in_key_order(entries) ==> forall|i: int|
            0 <= i < entries.len() ==> tag_map(entries)[(#[trigger] entries[i]).0] == entries[i].1,
        tag_map(entries).dom().finite(),
        in_key_order(entries) ==> tag_map(entries).len() == entries.len(),
    decreases entries.len(),
{
    if entries.len() > 0 {
        let front = entries.drop_last();
        let last = entries.last();
        tag_map_is_the_list(front);
        assert forall|k: Seq<char>| #[trigger] tag_map(entries).contains_key(k) implies exists|i: int|
            0 <= i < entries.len() && (#[trigger] entries[i]).0 == k by {
            if k == last.0 {
                assert(entries[entries.len() - 1].0 == k);
            } else {
                let i = choose|i: int| 0 <= i < front.len() && (#[trigger] front[i]).0 == k;
                assert(entries[i].0 == k);
            }
        }
        assert forall|i: int| 0 <= i < entries.len() implies tag_map(entries).contains_key(
            (#[trigger] entries[i]).0,
        ) by {
            if i < front.len() {
                assert(front[i] == entries[i]);
            }
        }
        if in_key_order(entries) {
            assert(in_key_order(front)) by {
                assert forall|i: int, j: int| 0 <= i < j < front.len() implies key_before(
                    (#[trigger] front[i]).0,
                    (#[trigger] front[j]).0,
                ) by {
                    assert(front[i] == entries[i] && front[j] == entries[j]);
                }
            }
            assert forall|i: int| 0 <= i < front.len() implies (#[trigger] front[i]).0 != last.0 by {
                assert(front[i] == entries[i]);
                assert(key_before(entries[i].0, entries[entries.len() - 1].0));
            }
            assert forall|i: int| 0 <= i < entries.len() implies tag_map(entries)[(
            #[trigger] entries[i]).0] == entries[i].1 by {
                if i < front.len() {
                    assert(front[i] == entries[i]);
                }
            }
            assert(!tag_map(front).contains_key(last.0));
        }
    }
}

/// Two lists that differ in one key only.
proof fn lemma_one_key_set(
    before: Seq<(Seq<char>, Seq<char>)>,
    after: Seq<(Seq<char>, Seq<char>)>,
    k: Seq<char>,
    v: Seq<char>,
)
    requires
        in_key_order(before),
        in_key_order(after),
        after.contains((k, v)),
        forall|i: int|
            0 <= i < before.len() && (#[trigger] before[i]).0 != k ==> after.contains(before[i]),
        forall|i: int|
            0 <= i < after.len() && (#[trigger] after[i]).0 != k ==> before.contains(after[i]),
    ensures
        tag_map(after) == tag_map(before).insert(k, v),
{
    tag_map_is_the_list(before);
    tag_map_is_the_list(after);
    let want = tag_map(before).insert(k, v);
    let at = choose|i: int| 0 <= i < after.len() && after[i] == (k, v);
    assert(after[at].0 == k);
    assert forall|x: Seq<char>| tag_map(after).contains_key(x) <==> want.contains_key(x) by {
        if x != k {
            if tag_map(after).contains_key(x) {
                let i = choose|i: int| 0 <= i < after.len() && (#[trigger] after[i]).0 == x;
                let j = choose|j: int| 0 <= j < before.len() && before[j] == after[i];
                assert(before[j].0 == x);
            }
            if tag_map(before).contains_key(x) {
                let i = choose|i: int| 0 <= i < before.len() && (#[trigger] before[i]).0 == x;
                let j = choose|j: int| 0 <= j < after.len() && after[j] == before[i];
                assert(after[j].0 == x);
            }
        }
    }
    assert forall|x: Seq<char>| #[trigger] tag_map(after).contains_key(x) implies tag_map(after)[x]
        == want[x] by {
        let i = choose|i: int| 0 <= i < after.len() && (#[trigger] after[i]).0 == x;
        if x != k {
            let j = choose|j: int| 0 <= j < before.len() && before[j] == after[i];
            assert(before[j].0 == x);
        }
    }
    assert(tag_map(after) =~= want);
}

/// A value in the place of the one that a key had.
proof fn lemma_replaced(
    before: Seq<(Seq<char>, Seq<char>)>,
    i: int,
    k: Seq<char>,
    v: Seq<char>,
)
    requires
        in_key_order(before),
        0 <= i < before.len(),
        before[i].0 == k,
    ensures
        in_key_order(before.update(i, (k, v))),
        tag_map(before.update(i, (k, v))) == tag_map(before).insert(k, v),
{
    let after = before.update(i, (k, v));
    assert forall|p: int, q: int| 0 <= p < q < after.len() implies key_before(
        (#[trigger] after[p]).0,
        (#[trigger] after[q]).0,
    ) by {
        assert(key_before(before[p].0, before[q].0));
    }
    assert(after[i] == (k, v));
    assert forall|j: int| 0 <= j < before.len() && (#[trigger] before[j]).0 != k implies after.contains(
        before[j],
    ) by {
        assert(after[j] == before[j]);
    }
    assert forall|j: int| 0 <= j < after.len() && (#[trigger] after[j]).0 != k implies before.contains(
        after[j],
    ) by {
        assert(before[j] == after[j]);
    }
    lemma_one_key_set(before, after, k, v);
}

/// A key and its value put where they belong.
proof fn lemma_inserted(
    before: Seq<(Seq<char>, Seq<char>)>,
    i: int,
    k: Seq<char>,
    v: Seq<char>,
)
    requires
        in_key_order(before),
        0 <= i <= before.len(),
        forall|j: int| 0 <= j < i ==> key_before((#[trigger] before[j]).0, k),
        i < before.len() ==> key_before(k, before[i].0),
    ensures
        in_key_order(before.insert(i, (k, v))),
        tag_map(before.insert(i, (k, v))) == tag_map(before).insert(k, v),
{
    let after = before.insert(i, (k, v));
    assert forall|j: int| i <= j < before.len() implies key_before(k, (#[trigger] before[j]).0) by {
        if j > i {
            assert(key_before(before[i].0, before[j].0));
            text::lex_le_is_transitive(k, before[i].0, before[j].0);
            text::lex_le_is_total(before[i].0, k);
        }
    }
    assert forall|p: int, q: int| 0 <= p < q < after.len() implies key_before(
        (#[trigger] after[p]).0,
        (#[trigger] after[q]).0,
    ) by {
        let a = if p < i {
            p
        } else {
            p - 1
        };
        let b = if q < i {
            q
        } else {
            q - 1
        };
        if p == i {
            assert(key_before(k, before[b].0));
        } else if q == i {
            assert(key_before(before[a].0, k));
        } else {
            assert(key_before(before[a].0, before[b].0));
        }
    }
    assert(after[i] == (k, v));
    assert forall|j: int| 0 <= j < before.len() && (#[trigger] before[j]).0 != k implies after.contains(
        before[j],
    ) by {
        if j < i {
            assert(after[j] == before[j]);
        } else {
            assert(after[j + 1] == before[j]);
        }
    }
    assert forall|j: int| 0 <= j < after.len() && (#[trigger] after[j]).0 != k implies before.contains(
        after[j],
    ) by {
        if j < i {
            assert(before[j] == after[j]);
        } else {
            assert(before[j - 1] == after[j]);
        }
    }
    lemma_one_key_set(before, after, k, v);
}

impl View for Tags {
    type V = Map<Seq<char>, Seq<char>>;

    closed spec fn view(&self) -> Map<Seq<char>, Seq<char>> {
        tag_map(pair_views(self.entries@))
    }
}

impl Tags {
    /// The keys and values, in order of the keys.
    pub closed spec fn list(&self) -> Seq<(Seq<char>, Seq<char>)> {
        pair_views(self.entries@)
    }

    #[verifier::type_invariant]
    spec fn keys_in_order(&self) -> bool {
        in_key_order(pair_views(self.entries@))
    }

    /// The values by key are those of the list.
    pub proof fn view_is_the_list(&self)
        ensures
            self@ == tag_map(self.list()),
    {
    }

    /// No annotations.
    pub fn new() -> (r: Self)
        ensures
            r@ == Map::<Seq<char>, Seq<char>>::empty(),
    {
        let entries: Vec<(String, String)> = Vec::new();
        assert(pair_views(entries@) =~= Seq::empty());
        Tags { entries }
    }

    /// Sets a value. It replaces the one that the key had.
    pub fn insert(&mut self, key: String, value: String)
        ensures
            final(self)@ == old(self)@.insert(key@, value@),
    {
        proof {
            use_type_invariant(&*self);
        }
        let ghost before = pair_views(self.entries@);
        let ghost k = key@;
        let ghost v = value@;
        let mut entries: Vec<(String, String)> = Vec::new();
        assert(pair_views(entries@) =~= Seq::empty());
        std::mem::swap(&mut entries, &mut self.entries);
        let n: usize = entries.len();
        let mut i: usize = 0;
        while i < n && !text_le(key.as_str(), entries[i].0.as_str())
            invariant
                i <= n,
                n == entries@.len(),
                before == pair_views(entries@),
                forall|j: int|
                    0 <= j < i ==> !text::lex_le(key@, (#[trigger] before[j]).0),
            decreases n - i,
        {
            i += 1;
        }
        proof {
            assert forall|j: int| 0 <= j < i implies key_before((#[trigger] before[j]).0, k) by {
                text::lex_le_is_total(k, before[j].0);
            }
        }
        if i < n && same_text(key.as_str(), entries[i].0.as_str()) {
            entries.set(i, (key, value));
            proof {
                let after = pair_views(entries@);
                assert(after =~= before.update(i as int, (k, v)));
                lemma_replaced(before, i as int, k, v);
            }
        } else {
            entries.insert(i, (key, value));
            proof {
                let after = pair_views(entries@);
                assert(after =~= before.insert(i as int, (k, v)));
                lemma_inserted(before, i as int, k, v);
            }
        }
        self.entries = entries;
    }

    /// The value of a key.
    pub fn get<'a>(&'a self, key: &str) -> (r: Option<&'a str>)
        ensures
            match r {
                Some(v) => self@.contains_key(key@) && self@[key@] == v@,
                None => !self@.contains_key(key@),
            },
    {
        let ghost all = pair_views(self.entries@);
        proof {
            use_type_invariant(self);
            tag_map_is_the_list(all);
        }
        let mut i: usize = 0;
        while i < self.entries.len()
            invariant
                i <= self.entries@.len(),
                all == pair_views(self.entries@),
                self@ == tag_map(all),
                forall|j: int|
                    0 <= j < all.len() ==> tag_map(all).contains_key((#[trigger] all[j]).0)
                        && tag_map(all)[all[j].0] == all[j].1,
                forall|j: int| 0 <= j < i ==> (#[trigger] all[j]).0 != key@,
            decreases self.entries@.len() - i,
        {
            let e = &self.entries[i];
            assert(all[i as int] == (e.0@, e.1@));
            if same_text(e.0.as_str(), key) {
                return Some(e.1.as_str());
            }
            i += 1;
        }
        None
    }

    /// How many keys there are.
    pub fn len(&self) -> (r: usize)
        ensures
            self@.dom().finite(),
            r == self@.len(),
            r == self.list().len(),
            in_key_order(self.list()),
    {
        proof {
            use_type_invariant(self);
            tag_map_is_the_list(pair_views(self.entries@));
        }
        self.entries.len()
    }

    /// The `i`-th key, in order, and its value.
    pub fn entry<'a>(&'a self, i: usize) -> (r: (&'a str, &'a str))
        requires
            i < self.list().len(),
        ensures
            (r.0@, r.1@) == self.list()[i as int],
            self@.contains_key(r.0@),
            self@[r.0@] == r.1@,
    {
        let e = &self.entries[i];
        assert(pair_views(self.entries@)[i as int] == (e.0@, e.1@));
        proof {
            use_type_invariant(self);
            tag_map_is_the_list(pair_views(self.entries@));
        }
        (e.0.as_str(), e.1.as_str())
    }
}

// ---------------------------------------------------------------------
// Metadata
// ---------------------------------------------------------------------

/// The version of the metadata.
pub const SCHEMA_VERSION: u32 = 1;

/// What is written down of a subprocess when it starts.
pub struct Meta {
    pub schema_version: u32,
    pub id: String,
    /// A name for people, unique in a project.
    pub name: Option<String>,
    /// The path that the subprocess belongs to.
    pub project: String,
    pub tags: Tags,
    /// The program and its arguments.
    pub cmd: Vec<String>,
    pub cwd: String,
    /// Seconds since the Unix epoch.
    pub started_at: u64,
    /// The process that asked for it.
    pub started_by_pid: Option<u32>,
    pub child_pid: Option<u32>,
    pub log_path: String,
}

/// What a manager finds in its surroundings when it starts. What is not set is
/// missing.
pub struct StartContext {
    pub project: Option<String>,
    pub cwd: Option<String>,
    pub name: Option<String>,
    pub tags: Option<Tags>,
    pub started_by_pid: Option<String>,
}

/// Whether metadata are those of a subprocess in its surroundings.
pub open spec fn is_start_meta(
    m: Meta,
    id: Seq<char>,
    argv: Vec<String>,
    started_at: u64,
    child_pid: u32,
    log: Seq<char>,
    ctx: StartContext,
) -> bool {
    &&& m.schema_version == SCHEMA_VERSION
    &&& m.id@ == id
    &&& m.cmd == argv
    &&& m.started_at == started_at
    &&& m.log_path@ == log
    &&& m.child_pid == if child_pid > 0 {
        Some(child_pid)
    } else {
        None
    }
    &&& m.cwd@ == match ctx.cwd {
        Some(c) => c@,
        None => ""@,
    }
    &&& m.project@ == match ctx.project {
        Some(p) => p@,
        None => match ctx.cwd {
            Some(c) => c@,
            None => ""@,
        },
    }
    &&& match ctx.name {
        Some(n) => if n@.len() > 0 {
            m.name == Some(n)
        } else {
            m.name is None
        },
        None => m.name is None,
    }
    &&& match ctx.tags {
        Some(t) => m.tags == t,
        None => m.tags@ == Map::<Seq<char>, Seq<char>>::empty(),
    }
    &&& m.started_by_pid == match ctx.started_by_pid {
        Some(s) => match text::unsigned_text(s@, u32::MAX as nat) {
            Some(n) => Some(n as u32),
            None => None,
        },
        None => None,
    }
}

/// Puts together what is written down of a subprocess when it starts.
pub fn start_meta(
    id: &str,
    argv: Vec<String>,
    started_at: u64,
    child_pid: u32,
    log: &str,
    ctx: StartContext,
) -> (r: Meta)
    ensures
        is_start_meta(r, id@, argv, started_at, child_pid, log@, ctx),
{
    let cwd: String = match &ctx.cwd {
        Some(c) => c.as_str().to_owned(),
        None => "".to_owned(),
    };
    let project: String = match ctx.project {
        Some(p) => p,
        None => match &ctx.cwd {
            Some(c) => c.as_str().to_owned(),
            None => "".to_owned(),
        },
    };
    let name: Option<String> = match ctx.name {
        Some(n) => if n.as_str().unicode_len() > 0 {
            Some(n)
        } else {
            None
        },
        None => None,
    };
    let tags: Tags = match ctx.tags {
        Some(t) => t,
        None => Tags::new(),
    };
    let started_by_pid: Option<u32> = match &ctx.started_by_pid {
        Some(s) => match parse_unsigned(s.as_str(), u32::MAX as u64) {
            Some(n) => Some(n as u32),
            None => None,
        },
        None => None,
    };
    Meta {
        schema_version: SCHEMA_VERSION,
        id: id.to_owned(),
        name,
        project,
        tags,
        cmd: argv,
        cwd,
        started_at,
        started_by_pid,
        child_pid: if child_pid > 0 {
            Some(child_pid)
        } else {
            None
        },
        log_path: log.to_owned(),
    }
}

/// Metadata that were read back. Those of another version than ours are
/// refused, since their fields may mean something else.
pub fn accept_meta(m: Meta) -> (r: Option<Meta>)
    ensures
        r == if m.schema_version == SCHEMA_VERSION {
            Some(m)
        } else {
            None
        },
{
    if m.schema_version == SCHEMA_VERSION {
        Some(m)
    } else {
        None
    }
}

/// The name under which a file is written before it is moved to its place.
pub open spec fn temp_name(path: Seq<char>, pid: nat) -> Seq<char> {
    path + ".tmp."@ + text::decimal(pid)
}

/// The name under which a file is written before it is moved to its place.
pub fn temp_path(path: &str, pid: u32) -> (r: String)
    ensures
        r@ == temp_name(path@, pid as nat),
{
    concat3(path, ".tmp.", decimal_text(pid as u64).as_str())
}

/// A file is never written in its place.
pub proof fn temp_name_is_another(path: Seq<char>, pid: nat)
    ensures
        temp_name(path, pid) != path,
        temp_name(path, pid).take(path.len() as int) == path,
{
    text::decimal_is_digits(pid);
    assert(temp_name(path, pid).len() > path.len());
    assert(temp_name(path, pid).take(path.len() as int) =~= path);
}

/// Whether a path starts at the root.
pub open spec fn is_absolute(path: Seq<char>) -> bool {
    path.len() > 0 && path[0] == '/'
}

/// A path in a form in which projects can be compared: resolved where it
/// exists, else taken as it is where it is absolute, else looked up in the
/// current directory where that is known.
pub open spec fn project_path(
    input: Seq<char>,
    resolved: Option<Seq<char>>,
    cwd: Option<Seq<char>>,
) -> Seq<char> {
    match resolved {
        Some(r) => r,
        None => if is_absolute(input) {
            input
        } else {
            match cwd {
                Some(c) => state::path_join(c, input),
                None => input,
            }
        },
    }
}

/// Brings a path into a form in which projects can be compared.
pub fn canonicalize_project(input: &str, resolved: Option<&str>, cwd: Option<&str>) -> (r: String)
    ensures
        r@ == project_path(input@, state::opt_chars(resolved), state::opt_chars(cwd)),
{
    match resolved {
        Some(r) => {
            return r.to_owned();
        },
        None => {},
    }
    let chars = chars_of(input);
    if chars.len() > 0 && chars[0] == '/' {
        return input.to_owned();
    }
    match cwd {
        Some(c) => join_path(c, input),
        None => input.to_owned(),
    }
}

/// A project is always an absolute path, as long as what the system says of
/// paths is absolute.
pub proof fn projects_are_absolute(
    input: Seq<char>,
    resolved: Option<Seq<char>>,
    cwd: Option<Seq<char>>,
)
    requires
        resolved matches Some(r) ==> is_absolute(r),
        cwd matches Some(c) && is_absolute(c),
    ensures
        is_absolute(project_path(input, resolved, cwd)),
{
}

// ---------------------------------------------------------------------
// Which subprocesses are there
// ---------------------------------------------------------------------

/// What a file in the state directory is, by its name.
pub enum Sidecar {
    Sock(String),
    Meta(String),
    Pid(String),
    Other,
}

/// What a `Sidecar` holds.
pub enum SidecarView {
    Sock(Seq<char>),
    Meta(Seq<char>),
    Pid(Seq<char>),
    Other,
}

impl View for Sidecar {
    type V = SidecarView;

    open spec fn view(&self) -> SidecarView {
        match *self {
            Sidecar::Sock(s) => SidecarView::Sock(s@),
            Sidecar::Meta(s) => SidecarView::Meta(s@),
            Sidecar::Pid(s) => SidecarView::Pid(s@),
            Sidecar::Other => SidecarView::Other,
        }
    }
}

/// What is in front of an ending.
pub open spec fn stem(name: Seq<char>, suffix: Seq<char>) -> Seq<char> {
    name.take(name.len() - suffix.len())
}

/// What a file is, by its name. A name that is only an ending is none of ours.
pub open spec fn sidecar_of(name: Seq<char>) -> SidecarView {
    if text::ends_with(name, ".sock"@) {
        if stem(name, ".sock"@).len() > 0 {
            SidecarView::Sock(stem(name, ".sock"@))
        } else {
            SidecarView::Other
        }
    } else if text::ends_with(name, ".meta"@) {
        if stem(name, ".meta"@).len() > 0 {
            SidecarView::Meta(stem(name, ".meta"@))
        } else {
            SidecarView::Other
        }
    } else if text::ends_with(name, ".pid"@) {
        if stem(name, ".pid"@).len() > 0 {
            SidecarView::Pid(stem(name, ".pid"@))
        } else {
            SidecarView::Other
        }
    } else {
        SidecarView::Other
    }
}

/// Tells what a file is by its name.
pub fn classify(name: &str) -> (r: Sidecar)
    ensures
        r@ == sidecar_of(name@),
{
    match text::strip_suffix(name, ".sock") {
        Some(id) => {
            return if id.unicode_len() > 0 {
                Sidecar::Sock(id.to_owned())
            } else {
                Sidecar::Other
            };
        },
        None => {},
    }
    match text::strip_suffix(name, ".meta") {
        Some(id) => {
            return if id.unicode_len() > 0 {
                Sidecar::Meta(id.to_owned())
            } else {
                Sidecar::Other
            };
        },
        None => {},
    }
    match text::strip_suffix(name, ".pid") {
        Some(id) => if id.unicode_len() > 0 {
            Sidecar::Pid(id.to_owned())
        } else {
            Sidecar::Other
        },
        None => Sidecar::Other,
    }
}

/// A pid file, the process id in it if there is one, whether that process is
/// alive, and the metadata beside it if they could be read.
pub struct PidProbe {
    pub id: String,
    pub pid: Option<u32>,
    pub alive: bool,
    pub meta: Option<Meta>,
}

/// Whether a pid file is that of a manager that is alive.
pub open spec fn is_live(p: PidProbe) -> bool {
    p.pid is Some && p.alive
}

/// The identifiers and metadata of the managers that are alive and have written
/// their metadata, in the order of the pid files.
pub open spec fn active_of(probes: Seq<PidProbe>) -> Seq<(String, Meta)>
    decreases probes.len(),
{
    if probes.len() == 0 {
        Seq::empty()
    } else {
        let front = active_of(probes.drop_last());
        let p = probes.last();
        if is_live(p) && p.meta is Some {
            front.push((p.id, p.meta->0))
        } else {
            front
        }
    }
}

/// The managers that are alive and have written their metadata.
pub fn list_active_metas(probes: Vec<PidProbe>) -> (r: Vec<(String, Meta)>)
    ensures
        r@ == active_of(probes@),
{
    let ghost all = probes@;
    let mut out: Vec<(String, Meta)> = Vec::new();
    assert(all.take(0).len() == 0);
    for p in it: probes
        invariant
            it.seq() == all,
            out@ == active_of(all.take(it.index())),
    {
        let ghost before = all.take(it.index());
        assert(all.take(it.index() + 1).drop_last() =~= before);
        assert(all.take(it.index() + 1).last() == p);
        let PidProbe { id, pid, alive, meta } = p;
        if pid.is_some() && alive {
            match meta {
                Some(m) => {
                    out.push((id, m));
                },
                None => {},
            }
        }
    }
    assert(all.take(all.len() as int) =~= all);
    out
}

/// A file belongs to the terminal whose identifier its name starts with, by the ending
/// of the name; a name that is nothing but the ending belongs to none.
pub proof fn endings_tell_the_files_apart(id: Seq<char>)
    ensures
        id.len() > 0 ==> sidecar_of(id + ".sock"@) == SidecarView::Sock(id),
        id.len() > 0 ==> sidecar_of(id + ".meta"@) == SidecarView::Meta(id),
        id.len() > 0 ==> sidecar_of(id + ".pid"@) == SidecarView::Pid(id),
        sidecar_of(".sock"@) == SidecarView::Other,
        sidecar_of(".meta"@) == SidecarView::Other,
        sidecar_of(".pid"@) == SidecarView::Other,
        sidecar_of(id + ".log"@) == SidecarView::Other,
        sidecar_of(id + ".version"@) == SidecarView::Other,
        sidecar_of(id + ".cmd"@) == SidecarView::Other,
{
    lemma_ending(id);
    lemma_ending(Seq::empty());
    assert(Seq::<char>::empty() + ".sock"@ =~= ".sock"@);
    assert(Seq::<char>::empty() + ".meta"@ =~= ".meta"@);
    assert(Seq::<char>::empty() + ".pid"@ =~= ".pid"@);
}

proof fn lemma_ending(id: Seq<char>)
    ensures
        sidecar_of(id + ".sock"@) == if id.len() > 0 {
            SidecarView::Sock(id)
        } else {
            SidecarView::Other
        },
        sidecar_of(id + ".meta"@) == if id.len() > 0 {
            SidecarView::Meta(id)
        } else {
            SidecarView::Other
        },
        sidecar_of(id + ".pid"@) == if id.len() > 0 {
            SidecarView::Pid(id)
        } else {
            SidecarView::Other
        },
        sidecar_of(id + ".log"@) == SidecarView::Other,
        sidecar_of(id + ".version"@) == SidecarView::Other,
        sidecar_of(id + ".cmd"@) == SidecarView::Other,
{
    reveal_strlit(".sock");
    reveal_strlit(".meta");
    reveal_strlit(".pid");
    reveal_strlit(".log");
    reveal_strlit(".version");
    reveal_strlit(".cmd");
    lemma_last(id, ".sock"@);
    lemma_last(id, ".meta"@);
    lemma_last(id, ".pid"@);
    lemma_last(id, ".log"@);
    lemma_last(id, ".version"@);
    lemma_last(id, ".cmd"@);
}

proof fn lemma_last(id: Seq<char>, end: Seq<char>)
    requires
        end.len() > 0,
    ensures
        text::ends_with(id + end, end),
        stem(id + end, end) == id,
        forall|other: Seq<char>|
            other.len() > 0 && #[trigger] text::ends_with(id + end, other) ==> other.last()
                == end.last() && (other.len() > 1 && end.len() > 1 ==> other[other.len() - 2]
                == end[end.len() - 2]),
{
    let s = id + end;
    assert(s.skip(s.len() - end.len()) =~= end);
    assert(stem(s, end) =~= id);
    assert forall|other: Seq<char>|
        other.len() > 0 && #[trigger] text::ends_with(s, other) implies other.last() == end.last()
        && (other.len() > 1 && end.len() > 1 ==> other[other.len() - 2] == end[end.len() - 2]) by {
        let k = s.len() - other.len();
        assert(s.skip(k) == other);
        assert(s.skip(k)[other.len() - 1] == s[s.len() - 1]);
        if other.len() > 1 && end.len() > 1 {
            assert(s.skip(k)[other.len() - 2] == s[s.len() - 2]);
        }
    }
}

/// A project is where it was found to be; else an absolute path is itself, and any
/// other path is taken from the working directory.
pub proof fn projects_are_found_from_the_directory(
    input: Seq<char>,
    place: Seq<char>,
    cwd: Option<Seq<char>>,
)
    ensures
        project_path(input, Some(place), cwd) == place,
        project_path("/"@ + input, None, cwd) == "/"@ + input,
        cwd is Some && cwd->0.len() > 0 && cwd->0.last() != '/' && (input.len() == 0 || input[0]
            != '/') ==> project_path(input, None, cwd) == cwd->0 + "/"@ + input,
        cwd is None ==> project_path(input, None, cwd) == input,
{
    reveal_strlit("/");
    assert("/"@ =~= seq!['/']);
    assert(("/"@ + input)[0] == '/');
    if cwd is Some {
        state::names_go_into_directories(cwd->0, input);
    }
}

/// The terminals listed are those whose manager is alive and whose metadata could be
/// read, all of them and in order.
pub proof fn every_live_terminal_is_listed(probes: Seq<PidProbe>)
    ensures
        active_of(probes) == probes.filter(
            |p: PidProbe| p.pid is Some && p.alive && p.meta is Some,
        ).map_values(|p: PidProbe| (p.id, p.meta->0)),
    decreases probes.len(),
{
    reveal(Seq::filter);
    let f = |p: PidProbe| p.pid is Some && p.alive && p.meta is Some;
    let g = |p: PidProbe| (p.id, p.meta->0);
    if probes.len() > 0 {
        let front = probes.drop_last();
        every_live_terminal_is_listed(front);
        if f(probes.last()) {
            assert(front.filter(f).push(probes.last()).map_values(g) =~= front.filter(f).map_values(
                g,
            ).push(g(probes.last())));
        }
    } else {
        assert(active_of(probes) =~= probes.filter(f).map_values(g));
    }
}

/// The later of two annotations with one key holds, and others are left alone.
pub proof fn the_later_annotation_holds(
    entries: Seq<(Seq<char>, Seq<char>)>,
    key: Seq<char>,
    value: Seq<char>,
    other: Seq<char>,
)
    ensures
        !tag_map(Seq::empty()).contains_key(other),
        tag_map(entries.push((key, value))).contains_key(key),
        tag_map(entries.push((key, value)))[key] == value,
        other != key ==> (tag_map(entries.push((key, value))).contains_key(other) <==> tag_map(
            entries,
        ).contains_key(other)),
        other != key && tag_map(entries).contains_key(other) ==> tag_map(
            entries.push((key, value)),
        )[other] == tag_map(entries)[other],
{
    assert(entries.push((key, value)).drop_last() =~= entries);
}

/// Metadata are first written beside their place, under a name that holds the process.
pub proof fn temporary_names_hold_the_process(path: Seq<char>, pid: nat, other: nat)
    ensures
        temp_name(path, pid) == path + ".tmp."@ + text::decimal(pid),
        pid != other ==> temp_name(path, pid) != temp_name(path, other),
        SCHEMA_VERSION == 1,
{
    let a = temp_name(path, pid);
    let b = temp_name(path, other);
    let k = (path + ".tmp."@).len() as int;
    assert(a.skip(k) =~= text::decimal(pid));
    assert(b.skip(k) =~= text::decimal(other));
    text::numbers_are_read(pid, pid + other, Seq::empty());
    text::numbers_are_read(other, pid + other, Seq::empty());
}

/// What is written down of a start is all that was known of it: the command, the time,
/// the place and the log as they are, a name where it is not empty, and processes
/// where there are any.
pub proof fn a_start_is_written_down(
    m: Meta,
    id: Seq<char>,
    argv: Vec<String>,
    started_at: u64,
    child_pid: u32,
    log: Seq<char>,
    ctx: StartContext,
)
    requires
        is_start_meta(m, id, argv, started_at, child_pid, log, ctx),
    ensures
        m.schema_version == 1,
        m.id@ == id && m.cmd == argv && m.started_at == started_at && m.log_path@ == log,
        child_pid == 0 ==> m.child_pid is None,
        child_pid > 0 ==> m.child_pid == Some(child_pid),
        ctx.cwd is Some ==> m.cwd@ == ctx.cwd->0@,
        ctx.project is Some ==> m.project@ == ctx.project->0@,
        ctx.project is None && ctx.cwd is Some ==> m.project@ == ctx.cwd->0@,
        ctx.name is Some && ctx.name->0@.len() > 0 ==> m.name == ctx.name,
        ctx.name is None || ctx.name->0@.len() == 0 ==> m.name is None,
        ctx.tags is Some ==> m.tags == ctx.tags->0,
        ctx.tags is None ==> m.tags@.dom() == Set::<Seq<char>>::empty(),
        ctx.started_by_pid is None ==> m.started_by_pid is None,
        forall|n: u32|
            ctx.started_by_pid is Some && ctx.started_by_pid->0@ == #[trigger] text::decimal(
                n as nat,
            ) ==> m.started_by_pid == Some(n),
{
    assert forall|n: u32|
        ctx.started_by_pid is Some && ctx.started_by_pid->0@ == #[trigger] text::decimal(
            n as nat,
        ) implies m.started_by_pid == Some(n) by {
        text::numbers_are_read(n as nat, u32::MAX as nat, Seq::empty());
    }
}

} // verus!
