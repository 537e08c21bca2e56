use agent_term::client::StatusReply;
use agent_term::grep;
use agent_term::grep::{
    check_id, chomp, coalesce_windows, collect_hits, emit_json, emit_plain, pattern_of_file,
    resolve_pattern, search_lines, split_lines, GrepOptions, GrepOutcome, Hit, PatternSource,
};
use agent_term::matcher::Matcher;
use agent_term::wait;
use agent_term::wait::{
    check_child_exited, exit_code, find_match, outcome, parse_timeout, read_failure, ChildExit,
    WaitOptions, WaitStep, Waiter,
};
use std::time::Duration;

fn indexes(hits: &[Hit]) -> Vec<usize> {
    hits.iter().map(|h| h.line_idx).collect::<Vec<_>>()
}

fn plain(pattern: &str) -> Matcher {
    Matcher::new(pattern, false, false).unwrap()
}

fn grep_options() -> GrepOptions {
    GrepOptions {
        id: "x".to_string(),
        pattern: Some("ERROR".to_string()),
        pattern_file: None,
        around: 0,
        limit: None,
        since: None,
        until: None,
        strip_ansi: false,
        match_full_line: false,
        json: false,
        multiline: false,
        ignore_case: false,
    }
}

fn wait_options() -> WaitOptions {
    WaitOptions {
        id: "x".to_string(),
        pattern: Some("^READY$".to_string()),
        pattern_file: None,
        timeout: None,
        multiline: false,
        json: false,
    }
}

// ---------- searching ----------

#[test]
fn split_lines_preserves_terminators() {
    let v = split_lines(b"a\nb\nc");
    assert_eq!(v.len(), 3);
    assert_eq!(v[0], b"a\n");
    assert_eq!(v[1], b"b\n");
    assert_eq!(v[2], b"c");
    assert_eq!(split_lines(b"").len(), 0);
    assert_eq!(split_lines(b"x\n\n").concat(), b"x\n\n");
}

#[test]
fn collect_hits_finds_lines() {
    let body = b"info ok\nERROR boom\ninfo ok\nERROR again\n";
    let lines = split_lines(body);
    let re = plain("^ERROR");
    let hits = collect_hits(&lines, &re, None, None, false, None);
    assert_eq!(indexes(&hits), vec![1, 3]);
}

#[test]
fn case_insensitive_builder_matches_mixed_case() {
    let body = b"info ok\nError boom\nWARNING low\nerror again\n";
    let lines = split_lines(body);
    let re = Matcher::new("error", false, true).unwrap();
    let hits = collect_hits(&lines, &re, None, None, false, None);
    assert_eq!(indexes(&hits), vec![1, 3]);
}

#[test]
fn collect_hits_respects_limit() {
    let body = b"a\nERROR\nb\nERROR\nc\nERROR\n";
    let lines = split_lines(body);
    let re = plain("^ERROR");
    let hits = collect_hits(&lines, &re, None, None, false, Some(2));
    assert_eq!(hits.len(), 2);
    // The limit keeps the first ones.
    assert_eq!(indexes(&hits), vec![1, 3]);
    assert_eq!(collect_hits(&lines, &re, None, None, false, Some(0)).len(), 0);
    assert_eq!(indexes(&collect_hits(&lines, &re, None, None, false, Some(9))), vec![1, 3, 5]);
}

#[test]
fn collect_hits_filters_by_since() {
    let body = b"[10] a\n[20] ERROR\n[30] b\n[40] ERROR\n";
    let lines = split_lines(body);
    let re = plain("^ERROR");
    let hits = collect_hits(&lines, &re, Some(25), None, false, None);
    assert_eq!(indexes(&hits), vec![3]);
    assert_eq!(hits[0].timestamp_ms, Some(40));
}

#[test]
fn collect_hits_strict_drops_untimestamped_when_since_set() {
    let body = b"raw no ts\nERROR raw\n[100] ERROR ts\n";
    let lines = split_lines(body);
    let re = plain("ERROR");
    let hits = collect_hits(&lines, &re, Some(50), None, false, None);
    assert_eq!(indexes(&hits), vec![2]);
}

#[test]
fn collect_hits_stops_behind_the_span() {
    let body = b"[10] ERROR\nERROR raw\n[30] ERROR\n[15] ERROR\n";
    let lines = split_lines(body);
    let hits = collect_hits(&lines, &plain("ERROR"), None, Some(20), false, None);
    assert_eq!(indexes(&hits), vec![0]);
}

#[test]
fn stamps_are_searched_only_when_asked() {
    let lines = split_lines(b"[123] body\r\n");
    assert_eq!(collect_hits(&lines, &plain("^body$"), None, None, false, None).len(), 1);
    assert_eq!(collect_hits(&lines, &plain("123"), None, None, false, None).len(), 0);
    assert_eq!(collect_hits(&lines, &plain("^.123. body$"), None, None, true, None).len(), 1);
}

#[test]
fn colour_codes_are_stripped_before_matching() {
    let lines = split_lines(b"\x1b[31mERROR\x1b[0m boom\n");
    let re = plain("^ERROR boom$");
    assert_eq!(search_lines(&lines, &re, None, None, false, false, None).len(), 0);
    assert_eq!(search_lines(&lines, &re, None, None, false, true, None).len(), 1);
}

#[test]
fn chomp_removes_one_line_end() {
    assert_eq!(chomp(b"a\r\n"), b"a");
    assert_eq!(chomp(b"a\r\r\n"), b"a\r");
    assert_eq!(chomp(b"a\r"), b"a");
    assert_eq!(chomp(b"\n"), b"");
    assert_eq!(chomp(b""), b"");
}

#[test]
fn coalesce_adjacent_windows() {
    let hits = vec![
        Hit { line_idx: 5, timestamp_ms: None },
        Hit { line_idx: 7, timestamp_ms: None },
    ];
    let merged = coalesce_windows(&hits, 100, 2);
    assert_eq!(merged, vec![(3, 10)]);
}

#[test]
fn coalesce_separated_windows() {
    let hits = vec![
        Hit { line_idx: 0, timestamp_ms: None },
        Hit { line_idx: 50, timestamp_ms: None },
    ];
    let merged = coalesce_windows(&hits, 100, 1);
    assert_eq!(merged, vec![(0, 2), (49, 52)]);
}

#[test]
fn coalesce_clamps_to_bounds() {
    let hits = vec![Hit { line_idx: 0, timestamp_ms: None }];
    let merged = coalesce_windows(&hits, 3, 5);
    assert_eq!(merged, vec![(0, 3)]);
}

#[test]
fn coalesce_sorts_and_joins_windows_that_touch() {
    let hit = |line_idx| Hit { line_idx, timestamp_ms: None };
    assert_eq!(
        coalesce_windows(&[hit(9), hit(0), hit(3)], 20, 1),
        vec![(0, 5), (8, 11)]
    );
    assert_eq!(coalesce_windows(&[hit(1)], 4, usize::MAX), vec![(0, 4)]);
    assert_eq!(coalesce_windows(&[], 4, 1), vec![]);
}

#[test]
fn plain_output_separates_blocks() {
    let lines = split_lines(b"a\nERROR 1\nb\nc\nd\nERROR 2\n");
    let hits = collect_hits(&lines, &plain("ERROR"), None, None, false, None);
    assert_eq!(emit_plain(&lines, &hits, 1, false), b"a\nERROR 1\nb\n--\nd\nERROR 2\n");
    assert_eq!(
        emit_plain(&lines, &hits, 9, false),
        b"a\nERROR 1\nb\nc\nd\nERROR 2\n"
    );
    assert_eq!(emit_plain(&lines, &[], 9, false), b"");
}

#[test]
fn stripping_goes_on_from_line_to_line() {
    // The sequence that starts in the first line ends in the second one.
    let lines = split_lines(b"x\x1b[\n3my\n");
    let hits = vec![Hit { line_idx: 0, timestamp_ms: None }];
    assert_eq!(emit_plain(&lines, &hits, 1, true), b"xy\n");
}

#[test]
fn report_numbers_lines_from_one() {
    let lines = split_lines(b"l1\nl2\nl3\nl4\n[7] ERROR x\nl6\nl7\nl8\nl9\n");
    let hits = collect_hits(&lines, &plain("ERROR"), None, None, false, None);
    let r = emit_json(&lines, &hits, 1);
    assert_eq!(r.hits, 1);
    assert_eq!(r.blocks.len(), 1);
    let b = &r.blocks[0];
    // The block covers lines 4 to 6; its end is not part of it.
    assert_eq!((b.start_line_no, b.end_line_no), (4, 7));
    assert_eq!(b.matches.len(), 1);
    assert_eq!(b.matches[0].line_no, 5);
    assert_eq!(b.matches[0].timestamp_ms, Some(7));
    let shown: Vec<(usize, bool, &str)> =
        b.lines.iter().map(|l| (l.line_no, l.is_match, l.content.as_str())).collect();
    assert_eq!(
        shown,
        vec![(4, false, "l4\n"), (5, true, "[7] ERROR x\n"), (6, false, "l6\n")]
    );
}

#[test]
fn patterns_come_from_one_place() {
    let ok = |s: &str| Ok(s.to_string());
    let some = |s: &str| Some(s.to_string());
    assert_eq!(resolve_pattern(some("p"), None, ok("")).unwrap(), "p");
    assert_eq!(resolve_pattern(None, some("f"), ok("a\nb\n\n")).unwrap(), "a\nb");
    assert_eq!(
        resolve_pattern(None, some("f"), Err("gone".to_string())).unwrap_err(),
        "read --pattern-file f: gone"
    );
    assert_eq!(
        resolve_pattern(some("p"), some("f"), ok("")).unwrap_err(),
        "--pattern and --pattern-file are mutually exclusive"
    );
    assert_eq!(
        resolve_pattern(None, None, ok("")).unwrap_err(),
        "--pattern or --pattern-file required"
    );
    assert_eq!(pattern_of_file("x"), "x");
}

#[test]
fn a_whole_search_follows_its_options() {
    let none = || Err(String::new());
    let log = b"one\nERROR two\nthree\n";
    let mut o = grep_options();
    match grep::run(&o, none(), Some(log), 0) {
        Ok(GrepOutcome::Plain(b)) => assert_eq!(b, b"ERROR two\n"),
        _ => panic!("plain bytes expected"),
    }
    o.json = true;
    match grep::run(&o, none(), Some(log), 0) {
        Ok(GrepOutcome::Json(r)) => assert_eq!(r.hits, 1),
        _ => panic!("report expected"),
    }
    assert_eq!(grep::run(&o, none(), None, 0).err().unwrap(), "no log for id \"x\"");
    o.since = Some("?".to_string());
    assert_eq!(
        grep::run(&o, none(), Some(log), 0).err().unwrap(),
        "--since: invalid time spec \"?\""
    );
    o.since = None;
    o.until = Some("?".to_string());
    assert_eq!(
        grep::run(&o, none(), Some(log), 0).err().unwrap(),
        "--until: invalid time spec \"?\""
    );
    o.pattern = Some("(".to_string());
    assert!(grep::run(&o, none(), Some(log), 0).err().unwrap().starts_with("bad regex: regex parse error"));
    o.pattern = None;
    assert_eq!(
        grep::run(&o, none(), Some(log), 0).err().unwrap(),
        "--pattern or --pattern-file required"
    );
    o.id = "a/b".to_string();
    assert_eq!(grep::run(&o, none(), Some(log), 0).err().unwrap(), "invalid id \"a/b\"");
    assert!(check_id(&o).is_err());
}

#[test]
fn searching_a_span_of_time_needs_stamps() {
    let none = || Err(String::new());
    let refused = "--since/--until require timestamped logs; \
                   spawn with --timestamps (or AGENT_TERM_TIMESTAMPS=1)";
    let mut o = grep_options();
    o.since = Some("1s".to_string());
    assert_eq!(grep::run(&o, none(), Some(b"ERROR\n"), 5_000).err().unwrap(), refused);
    assert_eq!(grep::run(&o, none(), Some(b""), 5_000).err().unwrap(), refused);
    match grep::run(&o, none(), Some(b"ERROR\n[4500] ERROR\n"), 5_000) {
        Ok(GrepOutcome::Plain(b)) => assert_eq!(b, b"[4500] ERROR\n"),
        _ => panic!("plain bytes expected"),
    }
    o.since = None;
    o.until = Some("1s".to_string());
    assert_eq!(grep::run(&o, none(), Some(b"ERROR\n"), 5_000).err().unwrap(), refused);
    o.until = None;
    assert!(grep::run(&o, none(), Some(b"ERROR\n"), 5_000).is_ok());
}

#[test]
fn matchers_keep_their_settings() {
    assert!(Matcher::new("^b$", true, false).unwrap().is_match("a\nb\nc"));
    assert!(!Matcher::new("^b$", false, false).unwrap().is_match("a\nb\nc"));
    assert!(Matcher::new("B", false, true).unwrap().is_match("b"));
    assert_eq!(Matcher::new("b+", false, false).unwrap().find("aébbc"), Some((3, 5)));
    assert_eq!(Matcher::new("z", false, false).unwrap().find("aébbc"), None);
    assert!(Matcher::new("[", false, false).is_err());
}

// ---------- waiting ----------

#[test]
fn parses_durations() {
    let of = |s: &str| parse_timeout(s).map(Duration::from_millis);
    assert_eq!(of("30s").unwrap(), Duration::from_secs(30));
    assert_eq!(of("30").unwrap(), Duration::from_secs(30));
    assert_eq!(of("500ms").unwrap(), Duration::from_millis(500));
    assert_eq!(of("2m").unwrap(), Duration::from_secs(120));
    assert_eq!(of("1h").unwrap(), Duration::from_secs(3600));
    assert!(of("").is_err());
    assert!(of("ms").is_err());
    assert!(of("10x").is_err());
}

#[test]
fn timeouts_say_what_is_wrong() {
    assert_eq!(parse_timeout(" ").unwrap_err(), "empty timeout");
    assert_eq!(parse_timeout("ms").unwrap_err(), "invalid timeout: ms");
    assert_eq!(
        parse_timeout("99999999999999999999").unwrap_err(),
        "invalid timeout: 99999999999999999999"
    );
    assert_eq!(parse_timeout("10 x").unwrap_err(), "unknown timeout unit: x");
    assert_eq!(parse_timeout("18446744073709551615h").unwrap(), u64::MAX);
}

#[test]
fn line_mode_finds_complete_line() {
    let re = plain("^READY$");
    let mut cursor = 0;
    let buf = b"loading\r\nREADY\r\n".to_vec();
    let m = find_match(&re, &buf, false, &mut cursor).unwrap();
    assert_eq!(m, "READY");
}

#[test]
fn line_mode_skips_incomplete_trailing_line() {
    let re = plain("^READY$");
    let mut cursor = 0;
    let buf = b"booting\r\nREADY".to_vec();
    assert!(find_match(&re, &buf, false, &mut cursor).is_none());
}

#[test]
fn line_mode_cursor_advances_past_checked_lines() {
    let re = plain("^READY$");
    let mut cursor = 0;
    let mut buf = b"a\nb\n".to_vec();
    assert!(find_match(&re, &buf, false, &mut cursor).is_none());
    assert_eq!(cursor, buf.len());

    buf.extend_from_slice(b"READY\n");
    let m = find_match(&re, &buf, false, &mut cursor).unwrap();
    assert_eq!(m, "READY");
}

#[test]
fn multiline_mode_matches_across_lines() {
    let re = Matcher::new("start\\n.*\\nend", true, false).unwrap();
    let mut cursor = 0;
    let buf = b"prelude\nstart\nmiddle\nend\nepilogue\n".to_vec();
    let m = find_match(&re, &buf, true, &mut cursor).unwrap();
    assert_eq!(m, "start\nmiddle\nend");
}

#[test]
fn multiline_anchors_use_line_boundaries() {
    let re = Matcher::new("^READY$", true, false).unwrap();
    let mut cursor = 0;
    let buf = b"chunk1 boot\nREADY\nchunk3 done\n".to_vec();
    let m = find_match(&re, &buf, true, &mut cursor).unwrap();
    assert_eq!(m, "READY");
}

#[test]
fn multiline_match_is_extended_to_whole_lines() {
    let re = Matcher::new("é+", true, false).unwrap();
    let mut cursor = 3;
    let m = find_match(&re, "a\nxéy\r\r\nz".as_bytes(), true, &mut cursor).unwrap();
    assert_eq!(m, "xéy");
    assert_eq!(cursor, 3);
    assert!(find_match(&re, b"plain", true, &mut cursor).is_none());
}

#[test]
fn waiting_goes_match_then_timeout_then_exit() {
    let mut o = wait_options();
    o.timeout = Some("1s".to_string());
    let mut w = Waiter::new(wait::plan(&o, "^READY$").ok().unwrap());
    assert!(matches!(w.after_read(b"boot\nREADY", 999), WaitStep::LookAtChild));
    assert!(matches!(w.after_read(b"boot\nREADY", 1000), WaitStep::TimedOut));
    match w.after_read(b"boot\nREADY\n", 5000) {
        WaitStep::Matched(line) => assert_eq!(line, "READY"),
        _ => panic!("match expected"),
    }
    let mut v = Waiter::new(wait::plan(&o, "^READY$").ok().unwrap());
    assert!(matches!(
        v.after_exit(b"boot\n", ChildExit { code: Some(7) }),
        WaitStep::Exited(ChildExit { code: Some(7) })
    ));
    match v.after_exit(b"boot\nREADY\n", ChildExit { code: None }) {
        WaitStep::Matched(line) => assert_eq!(line, "READY"),
        _ => panic!("match expected"),
    }
}

#[test]
fn exit_codes_and_texts_of_a_wait() {
    let exited = |code| WaitStep::Exited(ChildExit { code });
    assert_eq!(exit_code(&WaitStep::Matched("l".to_string())), Some(0));
    assert_eq!(exit_code(&WaitStep::TimedOut), Some(1));
    assert_eq!(exit_code(&exited(None)), Some(2));
    assert_eq!(exit_code(&WaitStep::LookAtChild), None);
    assert_eq!(outcome(&WaitStep::Matched("l".to_string()), 9), "l");
    assert_eq!(outcome(&WaitStep::TimedOut, 1234), "timed out after 1234 ms");
    assert_eq!(
        outcome(&exited(Some(-9)), 0),
        "process exited (code -9) before pattern matched"
    );
    assert_eq!(outcome(&exited(None), 0), "process exited before pattern matched");
}

#[test]
fn a_child_has_exited_when_its_manager_says_so() {
    let reply = |state: &str, code| {
        Some(StatusReply { state: Some(state.to_string()), child_pid: None, code })
    };
    assert!(matches!(check_child_exited(false, &None), Some(ChildExit { code: None })));
    assert!(check_child_exited(true, &None).is_none());
    assert!(check_child_exited(true, &reply("running", None)).is_none());
    assert!(matches!(
        check_child_exited(true, &reply("exited", Some(3))),
        Some(ChildExit { code: Some(3) })
    ));
}

#[test]
fn failures_of_a_wait_come_in_two_forms() {
    let mut o = wait_options();
    o.id = "no good".to_string();
    let f = wait::pattern_source(o).err().unwrap();
    assert_eq!(f.error, "invalid id");
    assert_eq!(f.message, "invalid id \"no good\"");
    let mut o = wait_options();
    o.pattern = None;
    let f = wait::pattern_source(o).err().unwrap();
    assert_eq!(f.error, "--pattern or --pattern-file required");
    assert_eq!(f.message, "wait: --pattern or --pattern-file required");
    assert!(matches!(wait::pattern_source(wait_options()), Ok(PatternSource::Text(_))));
    let f = read_failure("p", "gone");
    assert_eq!(f.error, "read pattern-file: gone");
    assert_eq!(f.message, "wait: read --pattern-file p: gone");
    let mut o = wait_options();
    o.timeout = Some("x".to_string());
    assert_eq!(wait::plan(&o, "a").err().unwrap(), "invalid timeout: x");
    assert!(wait::plan(&o, "(").err().unwrap().starts_with("bad regex: "));
}
