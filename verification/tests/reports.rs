use agent_term::client::StatusReply;
use agent_term::lines::{count_newlines, split_finished, split_pieces};
use agent_term::matcher::Matcher;
use agent_term::skills::{find, run_get, run_list, Skill};
use agent_term::slice;
use agent_term::slice::{run_cursor_slice, run_time_slice, SliceOptions, SliceOutcome};
use agent_term::summary;
use agent_term::summary::{
    build_report, count_segments, format_duration_ms, print_human, scan_recent, CounterReply,
    LogFacts, MetaFacts, SummaryFacts, SummaryOptions,
};
use agent_term::text::{
    contains_text, decimal_text, pad, parse_unsigned, same_text, signed_text, strip_prefix,
    strip_suffix, text_le, to_upper, trim, trim_end_matches, zero_padded_text,
};

fn plain(pattern: &str) -> Matcher {
    Matcher::new(pattern, false, false).unwrap()
}

// ---------- ranges ----------

fn slice_options() -> SliceOptions {
    SliceOptions {
        id: "x".to_string(),
        from: None,
        to: None,
        from_cursor: None,
        to_cursor: None,
        strip_ansi: false,
        keep_timestamps: false,
        json: false,
    }
}

#[test]
fn cursor_slices_are_clamped() {
    let log = b"0123456789\n";
    let s = run_cursor_slice(log, Some(2), Some(5), false).ok().unwrap();
    assert_eq!((s.from_cursor, s.to_cursor), (2, 5));
    assert_eq!(s.content, b"234");
    assert_eq!(s.lines_emitted, 0);
    let open = run_cursor_slice(log, Some(8), None, false).ok().unwrap();
    assert_eq!(open.content, b"89\n");
    assert_eq!(open.to_cursor, 11);
    assert_eq!(open.lines_emitted, 1);
    let past = run_cursor_slice(log, Some(50), Some(60), false).ok().unwrap();
    assert_eq!((past.from_cursor, past.to_cursor), (11, 11));
    assert_eq!(
        run_cursor_slice(log, Some(99), Some(3), false).err().unwrap(),
        "--from-cursor 11 is past --to-cursor 3"
    );
}

#[test]
fn adjacent_slices_join() {
    let log = b"some bytes of a log\n";
    let a = run_cursor_slice(log, None, Some(7), false).ok().unwrap();
    let b = run_cursor_slice(log, Some(a.to_cursor), None, false).ok().unwrap();
    assert_eq!([a.content, b.content].concat(), log);
}

#[test]
fn time_slices_without_selectors_dump_the_log() {
    let raw = b"no stamps\n\x1b[1mhere\x1b[0m";
    let s = run_time_slice(raw, None, None, true, false).ok().unwrap();
    assert_eq!(s.content, b"no stamps\nhere");
    assert_eq!(s.lines_emitted, 1);
    let stamped = b"[1] a\nraw\n[2] b\n[3] c";
    let t = run_time_slice(stamped, None, None, false, false).ok().unwrap();
    // Every line is there, unfinished or without a stamp.
    assert_eq!(t.content, b"a\nraw\nb\nc");
    assert_eq!(t.lines_emitted, 3);
    let mixed = b"raw\n[5] x\n";
    let kept = run_time_slice(mixed, None, None, false, true).ok().unwrap();
    assert_eq!(kept.content, mixed);
    assert_eq!(kept.lines_emitted, 2);
    let removed = run_time_slice(mixed, None, None, false, false).ok().unwrap();
    assert_eq!(removed.content, b"raw\nx\n");
    let u = run_time_slice(stamped, Some(2), Some(2), false, true).ok().unwrap();
    assert_eq!(u.content, b"[2] b\n");
    assert_eq!(
        run_time_slice(b"raw\n", Some(1), None, false, false).err().unwrap(),
        "--from/--to require timestamped logs; spawn with --timestamps (or AGENT_TERM_TIMESTAMPS=1)"
    );
}

#[test]
fn a_whole_slice_follows_its_options() {
    let log = b"[5] a\n[6] b\n";
    let mut o = slice_options();
    assert_eq!(slice::run(&o, None, 0).err().unwrap(), "no log for id \"x\"");
    match slice::run(&o, Some(log), 0) {
        Ok(SliceOutcome::Times(s, None, None)) => assert_eq!(s.content, b"a\nb\n"),
        _ => panic!("time slice expected"),
    }
    o.to_cursor = Some(6);
    match slice::run(&o, Some(log), 0) {
        Ok(SliceOutcome::Cursors(s)) => assert_eq!(s.content, b"[5] a\n"),
        _ => panic!("cursor slice expected"),
    }
    o.from = Some("1s".to_string());
    assert_eq!(
        slice::run(&o, Some(log), 0).err().unwrap(),
        "time selectors (--from/--to) and byte selectors (--from-cursor/--to-cursor) are mutually exclusive"
    );
    o.to_cursor = None;
    o.from = Some("x".to_string());
    assert_eq!(
        slice::run(&o, Some(log), 0).err().unwrap(),
        "--from: invalid time spec \"x\""
    );
    o.from = None;
    o.to = Some("y".to_string());
    assert_eq!(slice::run(&o, Some(log), 0).err().unwrap(), "--to: invalid time spec \"y\"");
    o.id = String::new();
    assert_eq!(slice::run(&o, Some(log), 0).err().unwrap(), "invalid id \"\"");
}

// ---------- snapshots ----------

#[test]
fn format_duration_humanises_ranges() {
    assert_eq!(format_duration_ms(0), "0ms");
    assert_eq!(format_duration_ms(999), "999ms");
    assert_eq!(format_duration_ms(1_000), "1.000s");
    assert_eq!(format_duration_ms(61_000), "1m01s");
    assert_eq!(format_duration_ms(3_660_000), "1h01m");
    assert_eq!(format_duration_ms(90_000_000), "1d01h");
}

#[test]
fn count_segments_counts_current_and_rotated() {
    let names: Vec<String> = ["a.log", "a.log.1", "a.log.2", "a.log.tmp", "b.log"]
        .iter()
        .map(|s| s.to_string())
        .collect();
    assert_eq!(count_segments(&names, "a.log"), 3);
}

#[test]
fn count_newlines_scans_full_file() {
    assert_eq!(count_newlines(b"a\nb\nc\nd"), 3);
}

#[test]
fn scan_recent_uses_time_window_when_prefix_present() {
    let body = b"[100] INFO startup\n[2000] WARN slow\n[2500] ERROR boom\n";
    let err = plain("(?i)error");
    let warn = plain("(?i)warn");
    let r = scan_recent(Some(body), 1500, 1000, &err, &warn).unwrap();
    assert_eq!(r.lines_scanned, 2);
    assert_eq!(r.errors, 1);
    assert_eq!(r.warnings, 1);
    assert_eq!(r.mode, "time-window");
    assert_eq!(r.since_ms, 1000);
}

#[test]
fn scan_recent_falls_back_to_tail_bytes_without_prefix() {
    let body = b"INFO ok\nERROR boom\nWARN slow\n";
    let err = plain("(?i)error");
    let warn = plain("(?i)warn");
    let r = scan_recent(Some(body), 0, 60_000, &err, &warn).unwrap();
    assert_eq!(r.lines_scanned, 3);
    assert_eq!(r.errors, 1);
    assert_eq!(r.warnings, 1);
    assert_eq!(r.mode, "tail-bytes");
}

#[test]
fn scan_recent_looks_at_the_end_only() {
    let err = plain("error");
    let warn = plain("warn");
    let mut log = b"error error\n".repeat(10);
    log.extend_from_slice(&b"fine...\n".repeat(65536 / 8));
    let r = scan_recent(Some(&log), 0, 1, &err, &warn).unwrap();
    assert_eq!((r.lines_scanned, r.errors), (8192, 0));
    let e = scan_recent(Some(b""), 0, 1, &err, &warn).unwrap();
    assert_eq!((e.lines_scanned, e.errors, e.warnings, e.mode), (0, 0, 0, "tail-bytes"));
    // A line that is both counts as an error.
    let both = scan_recent(Some(b"error and warn\n"), 0, 1, &err, &warn).unwrap();
    assert_eq!((both.errors, both.warnings), (1, 0));
    // A log that cannot be read has no counts.
    assert!(scan_recent(None, 0, 1, &err, &warn).is_none());
}

fn facts() -> SummaryFacts {
    SummaryFacts {
        id: "x".to_string(),
        status: Some(StatusReply {
            state: Some("running".to_string()),
            child_pid: Some(12),
            code: None,
        }),
        counters: Some(CounterReply { line_count: Some(90), last_line_at_ms: Some(9_700) }),
        meta: Some(MetaFacts {
            name: Some("api".to_string()),
            project: "/p".to_string(),
            started_at: 4,
        }),
        log_bytes: 1234,
        segments: 2,
        counted_lines: 5,
        modified_ms: Some(9_000),
        now_ms: 10_000,
        recent: None,
    }
}

#[test]
fn reports_prefer_what_the_manager_says() {
    let r = build_report(facts());
    assert_eq!(r.state, "running");
    assert_eq!(r.child_pid, Some(12));
    assert_eq!(r.exit_code, None);
    assert_eq!(r.log_lines, 90);
    assert_eq!(r.last_line_age_ms, Some(300));
    assert_eq!(r.uptime_ms, 6_000);
    assert_eq!(r.tail_cursor, 1234);
    let mut f = facts();
    f.status = None;
    let r = build_report(f);
    assert_eq!(r.state, "unknown");
    assert_eq!(r.log_lines, 5);
    assert_eq!(r.last_line_age_ms, Some(1_000));
    let mut f = facts();
    f.counters = Some(CounterReply { line_count: None, last_line_at_ms: Some(0) });
    f.modified_ms = None;
    f.meta = None;
    let r = build_report(f);
    assert_eq!(r.log_lines, 5);
    assert_eq!(r.last_line_age_ms, None);
    assert_eq!(r.uptime_ms, 0);
    assert_eq!(r.name, None);
}

#[test]
fn reports_are_shown_line_by_line() {
    let mut f = facts();
    f.status = Some(StatusReply {
        state: Some("exited".to_string()),
        child_pid: None,
        code: Some(-2),
    });
    f.recent = scan_recent(Some(b"error\nok\n"), 0, 60_000, &plain("error"), &plain("warn"));
    assert_eq!(
        print_human(&build_report(f)),
        "id              x\n\
         name            api\n\
         project         /p\n\
         state           exited  child_pid=- exit_code=-2\n\
         uptime          6.000s\n\
         log             1234 bytes, 90 lines, 2 segment(s)\n\
         last line       300ms ago\n\
         tail cursor     1234\n\
         recent (1m00s)  errors=1  warnings=0  scanned=2  mode=tail-bytes\n"
    );
}

#[test]
fn exit_codes_are_shown_of_ended_subprocesses_only() {
    let shown = |state: Option<&str>| {
        let mut f = facts();
        f.status = Some(StatusReply {
            state: state.map(|s| s.to_string()),
            child_pid: None,
            code: Some(3),
        });
        let r = build_report(f);
        (r.state, r.exit_code)
    };
    assert_eq!(shown(Some("exited")), ("exited".to_string(), Some(3)));
    assert_eq!(shown(Some("running")), ("running".to_string(), None));
    assert_eq!(shown(Some("asleep")), ("unknown".to_string(), None));
    assert_eq!(shown(None), ("unknown".to_string(), None));
}

fn summary_options() -> SummaryOptions {
    SummaryOptions {
        id: "x".to_string(),
        json: false,
        recent_window: None,
        error_pattern: None,
        warning_pattern: None,
    }
}

#[test]
fn a_whole_snapshot_follows_its_options() {
    let names = vec!["x.log".to_string(), "x.log.1".to_string()];
    let log = b"[1000] Fatal\n[5000] WARNING\n[9000] fine\n";
    let facts = || LogFacts {
        bytes: 40,
        end: Some(log),
        names: &names,
        base: "x.log",
        counted_lines: 3,
        modified_ms: None,
    };
    let mut o = summary_options();
    o.recent_window = Some("5s".to_string());
    let r = summary::run(o, None, None, None, Some(facts()), 10_000).ok().unwrap();
    let recent = r.recent.unwrap();
    assert_eq!(recent.since_ms, 5_000);
    assert_eq!((recent.lines_scanned, recent.errors, recent.warnings), (2, 0, 1));
    assert_eq!(r.segments, 2);
    assert_eq!(r.log_lines, 3);
    let all = summary::run(summary_options(), None, None, None, Some(facts()), 10_000);
    assert_eq!(all.ok().unwrap().recent.unwrap().errors, 1);
    let unread = LogFacts { end: None, ..facts() };
    let r = summary::run(summary_options(), None, None, None, Some(unread), 10_000).ok().unwrap();
    assert!(r.recent.is_none());
    assert_eq!(r.log_bytes, 40);
    assert_eq!(
        summary::run(summary_options(), None, None, None, None, 0).err().unwrap(),
        "no log for id \"x\""
    );
    let mut bad = summary_options();
    bad.recent_window = Some("x".to_string());
    assert_eq!(
        summary::run(bad, None, None, None, Some(facts()), 0).err().unwrap(),
        "--recent-window: invalid time spec \"x\""
    );
    let mut bad = summary_options();
    bad.error_pattern = Some("(".to_string());
    assert!(summary::run(bad, None, None, None, Some(facts()), 0)
        .err()
        .unwrap()
        .starts_with("--error-pattern: regex parse error"));
    let mut bad = summary_options();
    bad.warning_pattern = Some("(".to_string());
    assert!(summary::run(bad, None, None, None, Some(facts()), 0)
        .err()
        .unwrap()
        .starts_with("--warning-pattern: "));
    let mut bad = summary_options();
    bad.id = "?".to_string();
    assert_eq!(
        summary::run(bad, None, None, None, None, 0).err().unwrap(),
        "invalid id \"?\""
    );
}

// ---------- documents ----------

#[test]
fn documents_are_found_and_shown() {
    let skills = vec![
        Skill { name: "core", content: "body", references: vec![("r.md", "ref\n"), ("s.md", "t")] },
        Skill { name: "more", content: "m\n", references: vec![] },
    ];
    assert_eq!(run_list(&skills), "core\nmore\n");
    assert_eq!(find(&skills, "more"), Some(1));
    assert_eq!(find(&skills, "x"), None);
    let page = run_get(&skills, "core", true).ok().unwrap();
    assert_eq!(page.text, "body\n\n---\n# r.md\n\nref\n\n---\n# s.md\n\nt\n");
    assert_eq!(page.notice, None);
    let short = run_get(&skills, "core", false).ok().unwrap();
    assert_eq!(short.text, "body\n");
    let bare = run_get(&skills, "more", true).ok().unwrap();
    assert_eq!(bare.text, "m\n");
    assert_eq!(
        bare.notice.unwrap(),
        "skills: --full requested but no reference files are bundled with this build of more"
    );
    assert_eq!(
        run_get(&skills, "x", false).err().unwrap(),
        "skills: unknown skill \"x\". Available: core, more"
    );
}

// ---------- text ----------

#[test]
fn text_helpers_agree_with_std() {
    for s in ["", "  a b\t", "\u{3000}x\u{a0}", "\r\n", "no", "é "] {
        assert_eq!(trim(s), s.trim());
        assert_eq!(to_upper(s), s.to_ascii_uppercase());
        assert_eq!(trim_end_matches(s, " "), s.trim_end_matches(' '));
        assert_eq!(strip_prefix(s, "n"), s.strip_prefix('n'));
        assert_eq!(strip_suffix(s, " "), s.strip_suffix(' '));
        assert_eq!(pad(s, 4), format!("{s:<4}"));
        for t in ["", "a", "no", "é"] {
            assert_eq!(text_le(s, t), s <= t);
            assert_eq!(same_text(s, t), s == t);
            assert_eq!(contains_text(s, t), s.contains(t));
        }
    }
    for n in [0u64, 9, 10, 12345, u64::MAX] {
        assert_eq!(decimal_text(n), n.to_string());
        assert_eq!(zero_padded_text(n, 3), format!("{n:03}"));
    }
    for n in [0i64, -1, 77, i64::MIN, i64::MAX] {
        assert_eq!(signed_text(n), n.to_string());
    }
    for s in ["", "0", "+7", "-7", "18446744073709551615", "18446744073709551616", "1_0", "+"] {
        assert_eq!(parse_unsigned(s, u64::MAX), s.parse::<u64>().ok());
        assert_eq!(parse_unsigned(s, 255), s.parse::<u8>().ok().map(|n| n as u64));
    }
}

#[test]
fn lines_are_cut_at_line_feeds() {
    assert_eq!(split_pieces(b"a\n\nb"), vec![&b"a"[..], b"", b"b"]);
    assert_eq!(split_pieces(b""), vec![&b""[..]]);
    assert_eq!(split_finished(b"a\n\nb"), vec![&b"a\n"[..], b"\n"]);
    assert_eq!(split_finished(b"b").len(), 0);
}
