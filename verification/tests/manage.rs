use agent_term::cli;
use agent_term::cli::{
    build_entry, check_name_free, choose_id, fallback_meta, format_uptime, kill_requests,
    orphan_socks, parent_pid, parse_tags, plan_list, plan_spawn, project_input, query_state,
    render_table, resolve_route, resolve_target, route_target, select_entries, shell_join,
    truncate, validate_name, walk_state_dir, Cli, Command, Route,
};
use agent_term::client::{
    after_final_probe, after_probe, after_race, daemon_env, daemon_version_matches, decide_reuse,
    frame, invalid_response, response_done, status, Reuse, SpawnOptions, StaleStep, Startup,
    StartupStep, StatusReply, STARTUP_MAX_POLLS,
};
use agent_term::daemon::{
    dispatch, idle_timeout, invalid_request, kill_target, request_line, stop_steps,
    terminate_steps, useful_ms, Action, ChildState, DaemonCounters, Event, ExitReason, LoopState,
    Reply, SharedState, StopStep,
};
use agent_term::doctor::{
    apply_fixes, exit_code, misuse_warning, print_human, record_lines, scan, DoctorOptions,
    DoctorReport, FixStep, MetaState, PidState, ProbeMeta, RecentEntry, SockState, MISUSE_COUNT,
};
use agent_term::ids::{gen_id, hex, is_valid_id};
use agent_term::ipc::{parse_signal, signal_named, Request, Response, Signal};
use agent_term::meta::{
    accept_meta, canonicalize_project, classify, list_active_metas, start_meta, temp_path, Meta, PidProbe,
    Sidecar, StartContext, Tags, SCHEMA_VERSION,
};
use agent_term::state::{
    cleanup_stale_files, cmd_path, is_pid_alive, join_path, log_path, meta_path, parse_pid,
    pid_path, recent_log_path, resolve_state_dir, sock_path, version_path, SIDECAR_SUFFIXES,
};
use std::collections::HashSet;

fn meta(id: &str, name: Option<&str>, project: &str, started_at: u64) -> Meta {
    Meta {
        schema_version: SCHEMA_VERSION,
        id: id.to_string(),
        name: name.map(|n| n.to_string()),
        project: project.to_string(),
        tags: Tags::new(),
        cmd: vec!["sh".to_string(), "-c".to_string(), "echo hi".to_string()],
        cwd: "/a".to_string(),
        started_at,
        started_by_pid: Some(42),
        child_pid: Some(99),
        log_path: "/tmp/abc.log".to_string(),
    }
}

fn reply(state: &str, child_pid: Option<u64>, code: Option<i64>) -> Option<StatusReply> {
    Some(StatusReply { state: Some(state.to_string()), child_pid, code })
}

// ---------- identifiers ----------

#[test]
fn gen_id_is_12_hex_chars() {
    for i in 0..16u8 {
        for id in [
            gen_id(Some([i, 255 - i, 0, 17, 200, i]), None, 1),
            gen_id(None, Some((1_700_000_000 + i as u64, 123_456_789)), 77),
            gen_id(None, None, i as u32),
        ] {
            assert_eq!(id.len(), 12);
            assert!(id.chars().all(|c| c.is_ascii_hexdigit() && !c.is_ascii_uppercase()));
            assert!(is_valid_id(&id));
        }
    }
}

#[test]
fn gen_id_is_unique_enough() {
    let mut seen = HashSet::new();
    for i in 0..1024u32 {
        let b = i.to_le_bytes();
        let id = gen_id(Some([b[0], b[1], 9, b[0] ^ b[1], 5, b[1]]), None, 1);
        assert!(seen.insert(id), "duplicate id within 1024 calls");
    }
}

#[test]
fn ids_spell_their_bytes() {
    assert_eq!(gen_id(Some([0, 1, 0x9a, 0xff, 0x10, 0xab]), None, 0), "00019aff10ab");
    // Without random bytes: the low bytes of the mixed number, lowest first.
    assert_eq!(gen_id(None, Some((0x0102_0304, 0)), 0), "040302010000");
    assert_eq!(gen_id(None, None, 0x2ff), "ff0200000000");
    assert_eq!(hex(&[0xde, 0xad]), "dead");
}

#[test]
fn validates_ids() {
    assert!(is_valid_id("abcd1234"));
    assert!(is_valid_id("a"));
    assert!(is_valid_id("a-b_c"));
    assert!(!is_valid_id(""));
    assert!(!is_valid_id("has space"));
    assert!(!is_valid_id("../escape"));
    assert!(!is_valid_id(&"x".repeat(65)));
    assert!(is_valid_id(&"x".repeat(64)));
    assert!(is_valid_id("ABC"));
    assert!(!is_valid_id("é"));
}

// ---------- signals ----------

#[test]
fn parse_signal_handles_common_names() {
    assert_eq!(parse_signal("TERM"), Some(libc::SIGTERM));
    assert_eq!(parse_signal("term"), Some(libc::SIGTERM));
    assert_eq!(parse_signal("SIGTERM"), Some(libc::SIGTERM));
    assert_eq!(parse_signal("HUP"), Some(libc::SIGHUP));
    assert_eq!(parse_signal("KILL"), Some(libc::SIGKILL));
    assert_eq!(parse_signal("bogus"), None);
}

#[test]
fn parse_signal_knows_all_names() {
    assert_eq!(parse_signal("INT"), Some(libc::SIGINT));
    assert_eq!(parse_signal("USR1"), Some(libc::SIGUSR1));
    assert_eq!(parse_signal("usr2"), Some(libc::SIGUSR2));
    assert_eq!(parse_signal("QUIT"), Some(libc::SIGQUIT));
    assert_eq!(parse_signal(" sigstop "), Some(libc::SIGSTOP));
    assert_eq!(parse_signal("CONT"), Some(libc::SIGCONT));
    assert_eq!(parse_signal("SIGSIGTERM"), None);
    assert_eq!(parse_signal(""), None);
    assert!(signal_named("SigKill") == Some(Signal::Kill));
}

#[test]
fn responses_carry_data_or_an_error() {
    let r = Response::ok(serde_json::Value::Bool(true));
    assert!(r.success);
    assert_eq!(status(r).unwrap(), serde_json::Value::Bool(true));
    assert_eq!(status(Response::err("no".to_string())).unwrap_err(), "no");
    assert_eq!(status(Response::default()).unwrap_err(), "unknown error");
    assert_eq!(
        status(Response { success: true, data: None, error: None }).unwrap_err(),
        "daemon returned no data"
    );
    assert!(response_done(Response::ok(serde_json::Value::Null)).is_ok());
    assert_eq!(response_done(Response::default()).unwrap_err(), "unknown error");
    assert_eq!(response_done(Response::err("x".to_string())).unwrap_err(), "x");
    assert_eq!(frame(b"{}".to_vec()), b"{}\n");
    assert_eq!(invalid_response("eof", "x\n"), "invalid response: eof (raw: \"x\\n\")");
}

// ---------- the state directory ----------

#[test]
fn explicit_override_wins() {
    assert_eq!(
        resolve_state_dir(
            Some("/tmp/explicit-override"),
            Some("/run/user/1000"),
            Some("/home/user"),
            "/tmp"
        ),
        "/tmp/explicit-override"
    );
}

#[test]
fn empty_override_falls_through() {
    assert_eq!(
        resolve_state_dir(Some(""), Some("/run/user/1000"), Some("/home/user"), "/tmp"),
        "/run/user/1000/agent-term"
    );
}

#[test]
fn xdg_runtime_dir_when_no_override() {
    assert_eq!(
        resolve_state_dir(None, Some("/run/user/1000"), Some("/home/user"), "/tmp"),
        "/run/user/1000/agent-term"
    );
}

#[test]
fn home_fallback_when_no_xdg() {
    assert_eq!(
        resolve_state_dir(None, None, Some("/home/agentuser"), "/tmp"),
        "/home/agentuser/.agent-term"
    );
}

#[test]
fn temp_dir_last_resort() {
    assert_eq!(resolve_state_dir(None, Some(""), None, "/tmp/"), "/tmp/agent-term");
}

#[test]
fn cleanup_removes_every_known_sidecar() {
    let id = "abcd1234";
    let removed = cleanup_stale_files("/d", id);
    assert_eq!(removed.len(), SIDECAR_SUFFIXES.len());
    for suffix in SIDECAR_SUFFIXES {
        assert!(removed.contains(&format!("/d/{id}{suffix}")));
    }
}

#[test]
fn cleanup_leaves_unrelated_files_alone() {
    let id = "deadbeef";
    let removed = cleanup_stale_files("/d", id);
    assert!(removed.contains(&format!("/d/{id}.pid")));
    assert!(removed.contains(&format!("/d/{id}.sock")));
    for kept in ["other-id.pid", "deadbeef.unrelated", "random.txt", "deadbeef_pid", "deadbeef.log"] {
        assert!(!removed.contains(&format!("/d/{kept}")));
    }
}

#[test]
fn files_of_a_subprocess_have_their_places() {
    assert_eq!(pid_path("/d", "x"), "/d/x.pid");
    assert_eq!(version_path("/d", "x"), "/d/x.version");
    assert_eq!(cmd_path("/d", "x"), "/d/x.cmd");
    assert_eq!(sock_path("/d", "x"), "/d/x.sock");
    assert_eq!(meta_path("/d/", "x"), "/d/x.meta");
    assert_eq!(log_path("/d", "x"), "/d/x.log");
    assert_eq!(recent_log_path("/d"), "/d/recent.jsonl");
    assert_eq!(join_path("", "a"), "a");
    assert_eq!(join_path("/d", "/abs"), "/abs");
}

#[test]
fn is_pid_alive_treats_eperm_as_alive() {
    // The call failed because the process may not be signalled.
    assert!(is_pid_alive(-1, Some(libc::EPERM)));
    assert!(is_pid_alive(0, None));
    assert!(is_pid_alive(0, Some(libc::ESRCH)));
    assert!(!is_pid_alive(-1, Some(libc::ESRCH)));
    assert!(is_pid_alive(-1, None));
}

#[test]
fn pid_files_hold_a_number() {
    assert_eq!(parse_pid(" 123\n"), Some(123));
    assert_eq!(parse_pid("4294967295"), Some(u32::MAX));
    assert_eq!(parse_pid("4294967296"), None);
    assert_eq!(parse_pid("-1"), None);
    assert_eq!(parse_pid(""), None);
    assert_eq!(parse_pid("12 3"), None);
}

// ---------- metadata ----------

#[test]
fn canonicalize_resolves_symlinks_when_possible() {
    let from_link = canonicalize_project("/t/link", Some("/t/real"), Some("/w"));
    let from_real = canonicalize_project("/t/real", Some("/t/real"), Some("/w"));
    assert_eq!(from_link, from_real);
}

#[test]
fn canonicalize_nonexistent_path_is_absolute() {
    let c = canonicalize_project("/this/does/not/exist/anywhere/12345", None, Some("/w"));
    assert!(c.starts_with('/'));
    assert_eq!(canonicalize_project("sub/dir", None, Some("/w")), "/w/sub/dir");
    assert_eq!(canonicalize_project("sub/dir", None, None), "sub/dir");
}

#[test]
fn later_tags_replace_earlier_ones() {
    let raw = ["env=staging".to_string(), "region=us".to_string(), "env=a=b".to_string()];
    let t = parse_tags(&raw).ok().unwrap();
    assert_eq!(t.get("env"), Some("a=b"));
    assert_eq!(t.get("region"), Some("us"));
    assert_eq!(t.get("none"), None);
    // Each key is there once, and the keys are in order.
    assert_eq!(t.len(), 2);
    assert_eq!(t.entry(0), ("env", "a=b"));
    assert_eq!(t.entry(1), ("region", "us"));
    let mut u = Tags::new();
    for (k, v) in [("b", "1"), ("a", "2"), ("é", "3"), ("ab", "4"), ("a", "5"), ("B", "6")] {
        u.insert(k.to_string(), v.to_string());
    }
    let listed: Vec<(&str, &str)> = (0..u.len()).map(|i| u.entry(i)).collect();
    assert_eq!(listed, vec![("B", "6"), ("a", "5"), ("ab", "4"), ("b", "1"), ("é", "3")]);
    assert_eq!(
        parse_tags(&["ok=1".to_string(), "bad".to_string()]).err().unwrap(),
        "--tag \"bad\" is missing '=' (expected K=V)"
    );
    assert_eq!(parse_tags(&["=v".to_string()]).err().unwrap(), "--tag \"=v\" has empty key");
}

#[test]
fn metadata_come_from_the_surroundings() {
    let full = start_meta(
        "x",
        vec!["ls".to_string()],
        7,
        55,
        "/d/x.log",
        StartContext {
            project: Some("/p".to_string()),
            cwd: Some("/c".to_string()),
            name: Some("web".to_string()),
            tags: None,
            started_by_pid: Some("12".to_string()),
        },
    );
    assert_eq!(full.schema_version, 1);
    assert_eq!(full.project, "/p");
    assert_eq!(full.cwd, "/c");
    assert_eq!(full.name, Some("web".to_string()));
    assert_eq!(full.started_by_pid, Some(12));
    assert_eq!(full.child_pid, Some(55));
    assert_eq!(full.log_path, "/d/x.log");
    assert_eq!(full.cmd, vec!["ls".to_string()]);
    let bare = start_meta(
        "x",
        Vec::new(),
        7,
        0,
        "l",
        StartContext {
            project: None,
            cwd: Some("/c".to_string()),
            name: Some(String::new()),
            tags: None,
            started_by_pid: Some(" 12".to_string()),
        },
    );
    assert_eq!(bare.project, "/c");
    assert_eq!(bare.name, None);
    assert_eq!(bare.started_by_pid, None);
    assert_eq!(bare.child_pid, None);
    assert_eq!(bare.tags.len(), 0);
    assert_eq!(temp_path("/d/x.meta", 31), "/d/x.meta.tmp.31");
}

#[test]
fn metadata_of_another_version_are_refused() {
    let m = accept_meta(meta("a", Some("web"), "/p", 1)).unwrap();
    assert_eq!(m.name, Some("web".to_string()));
    let mut newer = meta("a", None, "/p", 1);
    newer.schema_version = SCHEMA_VERSION + 1;
    assert!(accept_meta(newer).is_none());
}

#[test]
fn files_are_told_apart_by_their_endings() {
    assert!(matches!(classify("a.sock"), Sidecar::Sock(id) if id == "a"));
    assert!(matches!(classify("a.meta"), Sidecar::Meta(id) if id == "a"));
    assert!(matches!(classify("a.b.pid"), Sidecar::Pid(id) if id == "a.b"));
    for other in [".pid", ".sock", ".meta", "a.log", "a.meta.tmp.3", ""] {
        assert!(matches!(classify(other), Sidecar::Other));
    }
}

fn probe(id: &str, pid: Option<u32>, alive: bool, known: Option<Meta>) -> PidProbe {
    PidProbe { id: id.to_string(), pid, alive, meta: known }
}

#[test]
fn only_live_managers_with_metadata_are_active() {
    let got = list_active_metas(vec![
        probe("a", Some(1), true, Some(meta("a", None, "/p", 1))),
        probe("b", Some(2), false, Some(meta("b", None, "/p", 1))),
        probe("c", None, true, Some(meta("c", None, "/p", 1))),
        probe("d", Some(4), true, None),
        probe("e", Some(5), true, Some(meta("e", None, "/p", 1))),
    ]);
    let ids: Vec<&str> = got.iter().map(|e| e.0.as_str()).collect();
    assert_eq!(ids, vec!["a", "e"]);
}

// ---------- starting ----------

#[test]
fn new_subprocesses_get_a_checked_id() {
    let fresh = || "fresh".to_string();
    assert_eq!(choose_id(None, fresh()).unwrap(), "fresh");
    assert_eq!(choose_id(Some("mine".to_string()), fresh()).unwrap(), "mine");
    assert_eq!(
        choose_id(Some("no good".to_string()), fresh()).unwrap_err(),
        "invalid --id \"no good\": must be 1-64 chars, [a-z0-9_-] only"
    );
}

#[test]
fn names_are_checked() {
    assert!(validate_name("web 1").is_ok());
    assert_eq!(validate_name("").unwrap_err(), "--name cannot be empty");
    assert!(validate_name(&"x".repeat(128)).is_ok());
    assert_eq!(validate_name(&"x".repeat(129)).unwrap_err(), "--name must be ≤128 chars");
    assert!(validate_name(&"é".repeat(65)).is_err());
    for bad in ["a/b", "a\\b", "a\nb", "a\0b"] {
        assert_eq!(
            validate_name(bad).unwrap_err(),
            "--name must not contain '/', '\\\\', newline, or NUL"
        );
    }
}

#[test]
fn names_are_unique_in_a_project() {
    let metas = vec![
        ("a".to_string(), meta("a", Some("web"), "/p", 1)),
        ("b".to_string(), meta("b", None, "/p", 1)),
    ];
    assert_eq!(
        check_name_free(&metas, "/p", "web").unwrap_err(),
        "name \"web\" already in use by id a"
    );
    assert!(check_name_free(&metas, "/q", "web").is_ok());
    assert!(check_name_free(&metas, "/p", "api").is_ok());
    assert_eq!(parent_pid(12), Some(12));
    assert_eq!(parent_pid(0), None);
    assert_eq!(parent_pid(-1), None);
}

#[test]
fn starting_is_planned_as_a_whole() {
    let some = |s: &str| Some(s.to_string());
    let tags = |s: &str| vec![s.to_string()];
    let ok = || Ok("/p".to_string());
    let metas = vec![("a".to_string(), meta("a", Some("web"), "/p", 1))];
    let refused = |id: Option<&str>, project: Result<String, String>, name: &str, tag: &str| {
        let id = id.map(|s| s.to_string());
        plan_spawn(id, "fresh".to_string(), project, some(name), &tags(tag), &metas).err().unwrap()
    };
    let gone = || Err("cannot read $PWD: gone".to_string());
    assert_eq!(
        refused(Some("?"), gone(), "", "x"),
        "invalid --id \"?\": must be 1-64 chars, [a-z0-9_-] only"
    );
    assert_eq!(refused(None, gone(), "", "x"), "spawn: cannot read $PWD: gone");
    assert_eq!(refused(None, ok(), "", "x"), "spawn: --name cannot be empty");
    assert!(refused(None, ok(), "web", "x").starts_with("spawn: "));
    assert_eq!(refused(None, ok(), "web", "k=v"), "spawn: name \"web\" already in use by id a");
    let plan =
        plan_spawn(None, "fresh".to_string(), ok(), some("api"), &tags("k=v"), &metas).ok().unwrap();
    assert_eq!(plan.id, "fresh");
    assert_eq!(plan.project, "/p");
    assert_eq!(plan.name, some("api"));
    assert_eq!(plan.tags.get("k"), Some("v"));
    // The same name is free in another project, and no name needs to be free.
    let other = Ok("/q".to_string());
    assert!(plan_spawn(some("m"), String::new(), other, some("web"), &[], &metas).is_ok());
    let unnamed = plan_spawn(some("m"), String::new(), ok(), None, &[], &metas).ok().unwrap();
    assert_eq!((unnamed.id.as_str(), unnamed.name), ("m", None));

    assert_eq!(project_input(some("/x"), Err("gone".to_string())).unwrap(), "/x");
    assert_eq!(project_input(None, ok()).unwrap(), "/p");
    assert_eq!(
        project_input(None, Err("gone".to_string())).unwrap_err(),
        "cannot read $PWD: gone"
    );
}

#[test]
fn listing_is_planned_as_a_whole() {
    let gone = || Err("cannot read $PWD: gone".to_string());
    let bad = vec!["x".to_string()];
    let good = vec!["k=v".to_string()];
    assert_eq!(plan_list(false, gone(), &bad).err().unwrap(), "list: cannot read $PWD: gone");
    assert!(plan_list(true, gone(), &bad).err().unwrap().starts_with("list: "));
    let all = plan_list(true, gone(), &good).ok().unwrap();
    assert_eq!(all.project, None);
    assert_eq!(all.tags.get("k"), Some("v"));
    let one = plan_list(false, Ok("/p".to_string()), &[]).ok().unwrap();
    assert_eq!(one.project, Some("/p".to_string()));
}

#[test]
fn managers_of_this_version_are_reused() {
    assert!(decide_reuse(false, true) == Reuse::Start);
    assert!(decide_reuse(true, true) == Reuse::Attach);
    assert!(decide_reuse(true, false) == Reuse::Restart);
    assert!(daemon_version_matches(Some(" 1.0.0\n"), "1.0.0"));
    assert!(!daemon_version_matches(Some("1.0.1"), "1.0.0"));
    assert!(!daemon_version_matches(None, "1.0.0"));
}

#[test]
fn a_new_manager_is_told_what_to_do() {
    let tags = Tags::new();
    let opts = SpawnOptions {
        project: "/p",
        name: Some("web"),
        tags: &tags,
        started_by_pid: Some(9),
        timestamps: true,
    };
    let env = daemon_env("x", "[\"ls\"]", "{}", &opts);
    let shown: Vec<String> = env.iter().map(|(k, v)| format!("{k}={v}")).collect();
    assert_eq!(
        shown,
        vec![
            "AGENT_TERMINAL_DAEMON=1",
            "AGENT_TERMINAL_ID=x",
            "AGENT_TERMINAL_CMD=[\"ls\"]",
            "AGENT_TERMINAL_PROJECT=/p",
            "AGENT_TERMINAL_TAGS={}",
            "AGENT_TERMINAL_NAME=web",
            "AGENT_TERMINAL_STARTED_BY_PID=9",
            "AGENT_TERM_TIMESTAMPS=1",
        ]
    );
    let bare = SpawnOptions {
        project: "/p",
        name: None,
        tags: &tags,
        started_by_pid: None,
        timestamps: false,
    };
    assert_eq!(daemon_env("x", "[]", "{}", &bare).len(), 5);
}

#[test]
fn starting_ends_with_a_socket_or_an_error() {
    let mut s = Startup::new();
    assert!(matches!(s.poll(false, None), StartupStep::Sleep(25)));
    assert!(matches!(s.poll(true, Some("x")), StartupStep::Ready(false)));
    match s.poll(false, Some(" oops \n")) {
        StartupStep::Fail(e) => assert_eq!(e, "daemon failed to start: oops"),
        _ => panic!("failure expected"),
    }
    match s.poll(false, Some(" \n")) {
        StartupStep::Fail(e) => {
            assert_eq!(e, "daemon exited during startup with no error output")
        }
        _ => panic!("failure expected"),
    }
    let race = "Failed to bind socket: Address already in use (os error 98)";
    assert!(matches!(s.poll(false, Some(race)), StartupStep::AwaitWinner(200)));
    assert!(matches!(after_race(true, race), StartupStep::Ready(true)));
    match after_race(false, race) {
        StartupStep::Fail(e) => assert!(e.starts_with("daemon failed to start: Failed to bind")),
        _ => panic!("failure expected"),
    }
    let mut t = Startup::new();
    for _ in 0..STARTUP_MAX_POLLS {
        assert!(matches!(t.poll(false, None), StartupStep::Sleep(_)));
    }
    match t.poll(true, None) {
        StartupStep::Fail(e) => {
            assert_eq!(e, "daemon failed to bind socket within startup window")
        }
        _ => panic!("failure expected"),
    }
}

#[test]
fn stopping_a_manager_takes_at_most_ten_looks() {
    assert!(after_probe(1, true) == StaleStep::Probe);
    assert!(after_probe(9, true) == StaleStep::Probe);
    assert!(after_probe(10, true) == StaleStep::FinalProbe);
    assert!(after_probe(1, false) == StaleStep::FinalProbe);
    assert!(after_final_probe(true) == StaleStep::Kill);
    assert!(after_final_probe(false) == StaleStep::CleanUp);
}

// ---------- listing ----------

#[test]
fn state_directory_is_sorted_into_live_and_dead() {
    let (live, dead) = walk_state_dir(
        "/d",
        vec![
            probe("a", Some(1), true, Some(meta("a", None, "/p", 1))),
            probe("b", Some(2), false, None),
            probe("c", None, false, None),
            probe("d", Some(4), true, None),
        ],
    );
    assert_eq!(live.len(), 2);
    assert_eq!(live[0].1.project, "/p");
    assert_eq!(live[1].0, "d");
    assert_eq!(live[1].1.log_path, "/d/d.log");
    assert_eq!(live[1].1.started_at, 0);
    assert_eq!(dead, vec!["b".to_string(), "c".to_string()]);
    assert_eq!(
        orphan_socks(vec![("x".to_string(), true), ("y".to_string(), false)]),
        vec!["y".to_string()]
    );
    assert_eq!(fallback_meta("/d", "z").cmd.len(), 0);
}

#[test]
fn lists_are_filtered_and_sorted() {
    let tagged = |id: &str, project: &str, at: u64, env: &str| {
        let mut m = meta(id, None, project, at);
        m.tags.insert("env".to_string(), env.to_string());
        (id.to_string(), m)
    };
    let all = || {
        vec![
            tagged("late", "/p", 30, "prod"),
            tagged("b", "/p", 10, "prod"),
            tagged("a", "/p", 10, "dev"),
            tagged("other", "/q", 5, "prod"),
        ]
    };
    let ids = |v: Vec<(String, Meta)>| v.into_iter().map(|e| e.0).collect::<Vec<String>>();
    let none = Tags::new();
    assert_eq!(ids(select_entries(all(), None, &none)), vec!["other", "a", "b", "late"]);
    assert_eq!(ids(select_entries(all(), Some("/p"), &none)), vec!["a", "b", "late"]);
    let prod = parse_tags(&["env=dev".to_string(), "env=prod".to_string()]).ok().unwrap();
    assert_eq!(ids(select_entries(all(), Some("/p"), &prod)), vec!["b", "late"]);
    let both = parse_tags(&["env=prod".to_string(), "k=v".to_string()]).ok().unwrap();
    assert_eq!(ids(select_entries(all(), None, &both)).len(), 0);
}

#[test]
fn rows_show_what_the_manager_says() {
    let e = build_entry(
        "x".to_string(),
        meta("x", Some("dev"), "/p", 100),
        105,
        true,
        reply("exited", None, Some(3)),
    );
    assert_eq!(e.state, "exited");
    assert_eq!(e.exit_code, Some(3));
    assert_eq!(e.uptime_ms, 5000);
    assert_eq!(e.name, Some("dev".to_string()));
    assert_eq!(e.log_path, "/tmp/abc.log");
    let ahead = build_entry("x".to_string(), meta("x", None, "/p", 200), 105, false, None);
    assert_eq!(ahead.uptime_ms, 0);
    assert_eq!(ahead.state, "running");
    assert_eq!(
        query_state(true, reply("running", Some(7), None)),
        ("running".to_string(), Some(7), None)
    );
    assert_eq!(
        query_state(false, reply("exited", Some(7), Some(1))),
        ("running".to_string(), None, None)
    );
    let silent = StatusReply { state: None, child_pid: None, code: None };
    assert_eq!(query_state(true, Some(silent)), ("running".to_string(), None, None));
    // There are two states only.
    assert_eq!(
        query_state(true, reply("asleep", Some(7), None)),
        ("running".to_string(), Some(7), None)
    );
}

#[test]
fn tables_are_padded_and_cut() {
    let e = build_entry(
        "abcdefghijklmnop".to_string(),
        meta("x", None, "/a/project/with/a/very/long/path", 0),
        3_725,
        true,
        reply("running", None, None),
    );
    assert_eq!(
        render_table(&vec![e]),
        "ID             NAME           PROJECT                      STATE    UPTIME   CMD\n\
         abcdefghijkl…  -              /a/project/with/a/very/lon…  running  1h2m     sh -c \"echo hi\"\n"
    );
    assert_eq!(truncate("abc", 3), "abc");
    assert_eq!(truncate("abcd", 3), "ab…");
    assert_eq!(truncate("é", 1), "é");
    assert_eq!(format_uptime(59_999), "59s");
    assert_eq!(format_uptime(61_000), "1m1s");
    assert_eq!(format_uptime(3_660_000), "1h1m");
    assert_eq!(format_uptime(90_000_000), "1d1h");
    let argv = ["a", "", "b c", "it's", "d\te"].iter().map(|s| s.to_string()).collect();
    assert_eq!(shell_join(&argv), "a \"\" \"b c\" \"it's\" \"d\\te\"");
    assert_eq!(shell_join(&Vec::new()), "");
}

// ---------- stopping and routing ----------

#[test]
fn killing_closes_and_signals_first_if_needed() {
    for term in ["TERM", "term", "SIGTERM"] {
        let r = kill_requests(term);
        assert_eq!(r.len(), 1);
        assert_eq!(r[0].action, "close");
        assert_eq!(r[0].sig, None);
    }
    let r = kill_requests("hup");
    assert_eq!(r.len(), 2);
    assert_eq!(r[0].action, "signal");
    assert_eq!(r[0].sig, Some("hup".to_string()));
    assert_eq!(r[1].action, "close");
    assert!(cli::check_id("x").is_ok());
    assert_eq!(cli::check_id("").unwrap_err(), "invalid id \"\"");
}

fn tail_command(grep: Option<&str>) -> Command {
    Command::Tail {
        id: "x".to_string(),
        follow: true,
        strip_ansi: true,
        lines: Some(3),
        bytes: None,
        head: None,
        reverse: false,
        cursor: None,
        json: false,
        since: Some("5m".to_string()),
        until: None,
        keep_timestamps: true,
        grep: grep.map(|g| g.to_string()),
        around: 2,
        limit: Some(9),
    }
}

#[test]
fn reading_with_a_pattern_is_searching() {
    match cli::run(Cli { command: tail_command(Some("ERR")) }) {
        Route::Grep(o) => {
            assert_eq!(o.pattern, Some("ERR".to_string()));
            assert_eq!(o.around, 2);
            assert_eq!(o.limit, Some(9));
            assert_eq!(o.since, Some("5m".to_string()));
            assert!(o.strip_ansi && !o.match_full_line && !o.multiline && !o.ignore_case);
        }
        _ => panic!("search expected"),
    }
    match cli::run(Cli { command: tail_command(None) }) {
        Route::Tail(o) => {
            assert_eq!(o.lines, Some(3));
            assert!(o.follow && o.keep_timestamps);
        }
        _ => panic!("read expected"),
    }
    match cli::run(Cli {
        command: Command::Summary {
            id: "x".to_string(),
            json: true,
            recent_window: "60s".to_string(),
            error_pattern: None,
            warning_pattern: None,
        },
    }) {
        Route::Summary(o) => assert_eq!(o.recent_window, Some("60s".to_string())),
        _ => panic!("summary expected"),
    }
}

#[test]
fn names_stand_for_subprocesses_of_the_project() {
    let metas = vec![
        ("a1".to_string(), meta("a1", Some("web"), "/p", 1)),
        ("b2".to_string(), meta("b2", Some("web"), "/q", 1)),
        ("c3".to_string(), meta("c3", Some("a1"), "/p", 1)),
    ];
    assert_eq!(resolve_target("web", false, &metas, "/p"), "a1");
    assert_eq!(resolve_target("web", false, &metas, "/q"), "b2");
    assert_eq!(resolve_target("web", false, &metas, "/r"), "web");
    // What is there under that identifier comes before a name.
    assert_eq!(resolve_target("a1", false, &metas, "/p"), "a1");
    assert_eq!(resolve_target("web", true, &metas, "/p"), "web");
    assert_eq!(resolve_target("api", false, &metas, "/p"), "api");

    let mut command = tail_command(None);
    if let Command::Tail { id, .. } = &mut command {
        *id = "web".to_string();
    }
    let route = cli::run(Cli { command });
    assert_eq!(route_target(&route), Some("web"));
    match resolve_route(route, false, &metas, "/p") {
        Route::Tail(o) => {
            assert_eq!(o.id, "a1");
            assert_eq!(o.lines, Some(3));
            assert!(o.follow && o.keep_timestamps);
        }
        _ => panic!("read expected"),
    }
    let kill = Route::Kill { id: "web".to_string(), signal: "HUP".to_string() };
    match resolve_route(kill, false, &metas, "/q") {
        Route::Kill { id, signal } => {
            assert_eq!((id.as_str(), signal.as_str()), ("b2", "HUP"));
        }
        _ => panic!("kill expected"),
    }
    let list = Route::List { project: None, tags: vec![], all: true, json: false };
    assert_eq!(route_target(&list), None);
    assert!(matches!(resolve_route(list, false, &metas, "/p"), Route::List { all: true, .. }));
}

// ---------- the manager ----------

fn shared(state: ChildState) -> SharedState {
    SharedState {
        child_pid: 77,
        state,
        counters: DaemonCounters { line_count: 5, last_line_at_ms: 6, bytes_written: 7 },
    }
}

fn ask(action: &str, sig: Option<&str>) -> Request {
    Request { action: action.to_string(), sig: sig.map(|s| s.to_string()) }
}

#[test]
fn requests_are_answered() {
    let up = shared(ChildState::Running);
    let down = shared(ChildState::Exited { code: Some(2) });
    assert!(matches!(dispatch(&ask("status", None), &up), Reply::Running { child_pid: 77 }));
    assert!(matches!(dispatch(&ask("status", None), &down), Reply::Exited { code: Some(2) }));
    assert!(matches!(dispatch(&ask("close", None), &up), Reply::Closing));
    match dispatch(&ask("signal", Some("hup")), &up) {
        Reply::Signalled { pid, number } => {
            assert_eq!(pid, 77);
            assert_eq!(number, libc::SIGHUP);
        }
        _ => panic!("signal expected"),
    }
    match dispatch(&ask("signal", Some("x\"y")), &up) {
        Reply::Error(e) => assert_eq!(e, "Invalid or missing signal: \"x\\\"y\""),
        _ => panic!("error expected"),
    }
    match dispatch(&ask("signal", None), &up) {
        Reply::Error(e) => assert_eq!(e, "Invalid or missing signal: \"\""),
        _ => panic!("error expected"),
    }
    match dispatch(&ask("dance", None), &up) {
        Reply::Error(e) => assert_eq!(e, "Unknown action: dance"),
        _ => panic!("error expected"),
    }
    match dispatch(&ask("summary", None), &down) {
        Reply::Summary { running, child_pid, exit_code, counters } => {
            assert!(!running);
            assert_eq!(child_pid, 77);
            assert_eq!(exit_code, Some(2));
            assert_eq!(counters.line_count, 5);
        }
        _ => panic!("summary expected"),
    }
    match invalid_request("eof") {
        Reply::Error(e) => assert_eq!(e, "Invalid JSON: eof"),
        _ => panic!("error expected"),
    }
    assert_eq!(request_line("  {} \n"), Some("{}"));
    assert_eq!(request_line(" \n"), None);
    assert_eq!(kill_target(0), None);
    assert_eq!(kill_target(5), Some(5));
}

#[test]
fn subprocesses_are_ended_gracefully() {
    let end = stop_steps(true, 9);
    assert_eq!(end.len(), 3);
    assert!(end[0] == StopStep::Signal(9, Signal::Term));
    assert!(end[1] == StopStep::Sleep(200));
    assert!(end[2] == StopStep::Signal(9, Signal::Kill));
    assert!(stop_steps(false, 9).is_empty());
    assert!(stop_steps(true, 0).is_empty());
    let orphan = terminate_steps(9);
    assert_eq!(orphan.len(), 3);
    assert!(orphan[0] == StopStep::Signal(9, Signal::Term));
    assert!(orphan[1] == StopStep::Sleep(200));
    assert!(orphan[2] == StopStep::SignalIfAlive(9, Signal::Kill));
}

#[test]
fn the_main_loop_ends_for_a_reason() {
    let mut s = LoopState::new(false);
    assert!(s.on(Event::LingerElapsed) == Action::Continue);
    assert!(s.on(Event::IdleElapsed) == Action::Continue);
    assert!(s.on(Event::Activity) == Action::Continue);
    assert!(s.on(Event::ChildExited(Some(4))) == Action::StartLinger { ms: 2000 });
    assert!(s.on(Event::ChildExited(None)) == Action::Continue);
    assert!(s.child == ChildState::Exited { code: Some(4) });
    assert!(s.on(Event::LingerElapsed) == Action::Stop { kill_child: false });
    assert_eq!(s.reason.label(), "child_exited");

    let mut t = LoopState::new(true);
    assert!(t.on(Event::Activity) == Action::RearmIdle);
    assert!(t.on(Event::IdleElapsed) == Action::Stop { kill_child: true });
    assert_eq!(t.reason.label(), "idle");

    let mut u = LoopState::new(false);
    assert_eq!(u.reason.label(), "error");
    assert!(u.on(Event::CloseRequested) == Action::Stop { kill_child: true });
    assert_eq!(u.reason.label(), "close");
    assert!(u.child == ChildState::Exited { code: None });

    let mut v = LoopState::new(false);
    assert!(v.on(Event::ShutdownSignal) == Action::Stop { kill_child: true });
    assert_eq!(v.reason, ExitReason::Signal);
    assert_eq!(v.reason.label(), "signal");

    assert_eq!(idle_timeout(Some("1500")), Some(1500));
    assert_eq!(idle_timeout(Some("0")), None);
    assert_eq!(idle_timeout(Some("x")), None);
    assert_eq!(idle_timeout(None), None);
    assert_eq!(useful_ms(Some(5), 9), 5);
    assert_eq!(useful_ms(None, 9), 9);
}

// ---------- diagnosis ----------

fn pid_state(id: &str, pid: Option<u32>, alive: bool, child: Option<u32>, child_alive: bool) -> PidState {
    PidState {
        id: id.to_string(),
        pid,
        alive,
        meta: child.map(|c| ProbeMeta {
            child_pid: Some(c),
            name: Some("web".to_string()),
            project: "/p".to_string(),
        }),
        child_alive,
    }
}

fn sample_report() -> DoctorReport {
    scan(
        vec![
            pid_state("live", Some(10), true, Some(11), true),
            pid_state("bare", Some(20), true, None, false),
            pid_state("gone", Some(30), false, Some(31), true),
            pid_state("dead", Some(40), false, Some(41), false),
            pid_state("odd", None, false, Some(51), true),
        ],
        vec![
            SockState { id: "live".to_string(), pid_file: true },
            SockState { id: "s".to_string(), pid_file: false },
        ],
        vec![
            MetaState { id: "live".to_string(), pid_file: true, child_pid: Some(11), child_alive: true },
            MetaState { id: "m".to_string(), pid_file: false, child_pid: Some(61), child_alive: true },
            MetaState { id: "n".to_string(), pid_file: false, child_pid: None, child_alive: false },
        ],
        Some("careful".to_string()),
    )
}

#[test]
fn diagnosis_tells_live_stale_and_orphans_apart() {
    let r = sample_report();
    let live: Vec<&str> = r.live.iter().map(|e| e.id.as_str()).collect();
    assert_eq!(live, vec!["live", "bare"]);
    assert_eq!(r.live[0].child_pid, Some(11));
    assert_eq!(r.live[1].project, "");
    let stale: Vec<String> = r.stale.iter().map(|e| format!("{}: {}", e.id, e.reason)).collect();
    assert_eq!(
        stale,
        vec![
            "gone: daemon process gone",
            "dead: daemon process gone",
            "odd: unreadable .pid",
            "s: orphan .sock",
            "m: orphan .meta",
            "n: orphan .meta",
        ]
    );
    let orphans: Vec<(String, u32)> =
        r.orphans.iter().map(|e| (e.id.clone(), e.child_pid)).collect();
    assert_eq!(orphans, vec![("gone".to_string(), 31), ("m".to_string(), 61)]);
    assert_eq!(r.warnings, vec!["careful".to_string()]);
    assert_eq!(exit_code(&r, &DoctorOptions { fix: false, json: false }), 1);
    assert_eq!(exit_code(&r, &DoctorOptions { fix: true, json: false }), 0);
    let clean = DoctorReport::default();
    assert_eq!(exit_code(&clean, &DoctorOptions { fix: false, json: false }), 0);
    let steps: Vec<String> = apply_fixes(&r)
        .iter()
        .map(|s| match s {
            FixStep::CleanUp(id) => format!("clean {id}"),
            FixStep::Terminate(pid) => format!("end {pid}"),
        })
        .collect();
    assert_eq!(
        steps,
        vec![
            "clean gone", "clean dead", "clean odd", "clean s", "clean m", "clean n",
            "end 31", "clean gone", "end 61", "clean m",
        ]
    );
}

#[test]
fn diagnosis_is_shown_in_sections() {
    assert_eq!(
        print_human(&sample_report()),
        "live daemons:\n\
         \x20 live           pid=10     child=11     name=web            project=/p\n\
         \x20 bare           pid=20     child=-      name=-              project=\n\
         stale entries:\n\
         \x20 gone (daemon process gone)\n\
         \x20 dead (daemon process gone)\n\
         \x20 odd (unreadable .pid)\n\
         \x20 s (orphan .sock)\n\
         \x20 m (orphan .meta)\n\
         \x20 n (orphan .meta)\n\
         orphan children (daemon vanished):\n\
         \x20 gone child_pid=31\n\
         \x20 m child_pid=61\n\
         warnings:\n\
         \x20 ! careful\n"
    );
    assert_eq!(
        print_human(&DoctorReport::default()),
        "agent-terminal: clean (no live, no stale, no orphans)\n"
    );
}

#[test]
fn misuse_warning_fires_at_threshold() {
    let now = 1_700_000_000u64;
    let entries = |n: usize, exited_at: u64, duration_ms: u64| {
        vec![RecentEntry { exited_at, duration_ms }; n]
    };
    let w = misuse_warning(&entries(MISUSE_COUNT, now - 9, 1000), now);
    assert!(w.is_some(), "expected misuse warning");
    assert!(w.unwrap().contains("short-lived"));

    // Below threshold: nothing
    assert!(misuse_warning(&entries(MISUSE_COUNT - 1, now - 9, 1000), now).is_none());

    // Stale entries (older than 1h) don't count
    assert!(misuse_warning(&entries(MISUSE_COUNT, now - 7100, 1000), now).is_none());

    // Long-lived entries don't count
    assert!(misuse_warning(&entries(MISUSE_COUNT, now - 10, 50_000), now).is_none());
}

#[test]
fn misuse_warning_spells_the_count() {
    let now = 10_000u64;
    let mut e = vec![RecentEntry { exited_at: now - 3600, duration_ms: 1999 }; 11];
    e.push(RecentEntry { exited_at: now - 3601, duration_ms: 0 });
    e.push(RecentEntry { exited_at: now, duration_ms: 2000 });
    e.push(RecentEntry { exited_at: now + 5, duration_ms: 1 });
    assert_eq!(
        misuse_warning(&e, now).unwrap(),
        "Detected 12 short-lived daemons (<2s each) in the past hour. For one-shot commands, \
         run them through `bash` directly instead of `agent-terminal spawn`."
    );
    assert_eq!(
        record_lines("{\"a\":1}\r\n\n  {\"b\":2}  \nlast"),
        vec!["{\"a\":1}", "{\"b\":2}", "last"]
    );
    assert_eq!(record_lines("").len(), 0);
}
