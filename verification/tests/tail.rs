use agent_term::tail::{
    align_forward, bounds, check_cursor, emit_head_n_lines, emit_json, emit_reverse_bounded,
    emit_time_window, follow_reopens, head_chunk, now_ms, parse_bytes_suffix, parse_time_option,
    parse_time_spec, plan, read_plain, reverse_lines, run, scan_back, seek_to_last_n_bytes,
    seek_to_last_n_lines, select, show, show_plain, validate_flag_combinations, Selection,
    TailOptions, TailOutcome, TailRead,
};

fn from(log: &[u8], pos: usize) -> Vec<u8> {
    log[pos..].to_vec()
}

fn options(id: &str) -> TailOptions {
    TailOptions {
        id: id.to_string(),
        follow: false,
        strip_ansi: false,
        lines: None,
        bytes: None,
        head: None,
        reverse: false,
        cursor: None,
        json: false,
        since: None,
        until: None,
        keep_timestamps: false,
    }
}

// ---------- numbers of bytes ----------

#[test]
fn parse_bytes_plain_int() {
    assert_eq!(parse_bytes_suffix("100").unwrap(), 100);
}

#[test]
fn parse_bytes_units() {
    assert_eq!(parse_bytes_suffix("1K").unwrap(), 1024);
    assert_eq!(parse_bytes_suffix("16K").unwrap(), 16 * 1024);
    assert_eq!(parse_bytes_suffix("2M").unwrap(), 2 * 1024 * 1024);
    assert_eq!(parse_bytes_suffix("1G").unwrap(), 1024 * 1024 * 1024);
    assert_eq!(parse_bytes_suffix("1B").unwrap(), 1);
}

#[test]
fn parse_bytes_binary_suffix() {
    assert_eq!(parse_bytes_suffix("4Ki").unwrap(), 4096);
    assert_eq!(parse_bytes_suffix("1Mi").unwrap(), 1024 * 1024);
}

#[test]
fn parse_bytes_rejects_garbage() {
    assert!(parse_bytes_suffix("").is_err());
    assert!(parse_bytes_suffix("K").is_err());
    assert!(parse_bytes_suffix("10X").is_err());
    assert!(parse_bytes_suffix("abc").is_err());
}

#[test]
fn parse_bytes_errors_say_why() {
    assert_eq!(parse_bytes_suffix("  ").unwrap_err(), "empty value");
    assert_eq!(parse_bytes_suffix("K").unwrap_err(), "missing number in \"K\"");
    assert_eq!(
        parse_bytes_suffix("99999999999999999999").unwrap_err(),
        "invalid integer in \"99999999999999999999\""
    );
    assert_eq!(parse_bytes_suffix("10 x").unwrap_err(), "unknown unit \" x\"");
    assert_eq!(
        parse_bytes_suffix("18446744073709551615K").unwrap_err(),
        "byte count overflow: 18446744073709551615K"
    );
    assert_eq!(parse_bytes_suffix(" 7 kI ").unwrap(), 7 * 1024);
    assert_eq!(parse_bytes_suffix("18446744073709551615").unwrap(), u64::MAX);
}

// ---------- the last lines ----------

#[test]
fn last_n_lines_basic() {
    let log = b"alpha\nbeta\ngamma\ndelta\n";
    assert_eq!(from(log, seek_to_last_n_lines(log, 2)), b"gamma\ndelta\n");
}

#[test]
fn last_n_lines_no_trailing_newline() {
    let log = b"alpha\nbeta\ngamma\ndelta";
    assert_eq!(from(log, seek_to_last_n_lines(log, 2)), b"gamma\ndelta");
}

#[test]
fn last_n_lines_more_than_present() {
    let log = b"only\none\nline\n";
    assert_eq!(from(log, seek_to_last_n_lines(log, 999)), b"only\none\nline\n");
}

#[test]
fn last_n_lines_empty_file() {
    let log = b"";
    assert_eq!(from(log, seek_to_last_n_lines(log, 5)), b"");
}

#[test]
fn last_n_lines_zero_returns_nothing() {
    let log = b"alpha\nbeta\n";
    assert_eq!(from(log, seek_to_last_n_lines(log, 0)), b"");
}

#[test]
fn last_n_lines_chunk_boundary() {
    let mut log = Vec::new();
    for i in 0..2000 {
        log.extend_from_slice(format!("line-{i:04}\n").as_bytes());
    }
    let got = from(&log, seek_to_last_n_lines(&log, 3));
    assert_eq!(got, b"line-1997\nline-1998\nline-1999\n");
    let far = from(&log, seek_to_last_n_lines(&log, 1500));
    assert!(far.starts_with(b"line-0500\n"));
    assert_eq!(far.len(), 1500 * 10);
}

#[test]
fn scanning_back_goes_on_before_a_chunk() {
    assert_eq!(scan_back(b"a\nb\nc", 1), (Some(4), 0));
    assert_eq!(scan_back(b"a\nb\nc", 2), (Some(2), 0));
    let (found, left) = scan_back(b"a\nb\nc", 5);
    assert_eq!(found, None);
    assert_eq!(left, 3);
}

// ---------- the last bytes ----------

#[test]
fn last_n_bytes_aligns_to_newline() {
    let log = b"alpha\nbeta\ngamma\n";
    assert_eq!(from(log, seek_to_last_n_bytes(log, 8)), b"gamma\n");
}

#[test]
fn last_n_bytes_larger_than_file_returns_all() {
    let log = b"hi\nworld\n";
    assert_eq!(from(log, seek_to_last_n_bytes(log, 999)), b"hi\nworld\n");
}

#[test]
fn last_n_bytes_starts_at_newline_boundary() {
    let log = b"alpha\nbeta\ngamma\n";
    assert_eq!(from(log, seek_to_last_n_bytes(log, 6)), b"gamma\n");
}

#[test]
fn last_n_bytes_without_a_line_start_stay_as_they_are() {
    let log = b"abcdefgh";
    assert_eq!(from(log, seek_to_last_n_bytes(log, 3)), b"fgh");
    assert_eq!(from(log, seek_to_last_n_bytes(log, 0)), b"");
    assert_eq!(align_forward(b'x', b"yz\nq"), 3);
    assert_eq!(align_forward(b'\n', b"yz\nq"), 0);
    assert_eq!(align_forward(b'x', b"yzq"), 0);
}

// ---------- the first lines, and lines in reverse ----------

#[test]
fn head_n_emits_first_n_lines_only() {
    assert_eq!(emit_head_n_lines(b"a\nb\nc\nd\ne\n", 2, false), b"a\nb\n");
}

#[test]
fn head_n_more_than_lines_dumps_all() {
    assert_eq!(emit_head_n_lines(b"a\nb\n", 99, false), b"a\nb\n");
}

#[test]
fn head_zero_is_empty_in_every_form() {
    assert_eq!(emit_head_n_lines(b"a\nb\n", 0, false), b"");
    let e = emit_json(b"a\nb\n", &Selection::Head(0), false, false);
    assert_eq!(e.content, "");
    assert_eq!(e.cursor, 0);
}

#[test]
fn head_over_chunks_is_head_of_the_whole() {
    let (end, left) = head_chunk(b"a\nb", 3);
    assert_eq!((end, left), (3, 2));
    let (end, left) = head_chunk(b"c\nd\ne\n", left);
    assert_eq!((end, left), (4, 0));
    assert_eq!(emit_head_n_lines(b"a\nbc\nd\ne\n", 3, false), b"a\nbc\nd\n");
}

#[test]
fn reverse_with_lines_emits_newest_first() {
    assert_eq!(
        emit_reverse_bounded(b"alpha\nbeta\ngamma\n", Some(3), None, false),
        b"gamma\nbeta\nalpha\n"
    );
}

#[test]
fn reverse_with_lines_subset() {
    assert_eq!(
        emit_reverse_bounded(b"alpha\nbeta\ngamma\ndelta\n", Some(2), None, false),
        b"delta\ngamma\n"
    );
}

#[test]
fn reverse_with_bytes_strips_first() {
    assert_eq!(
        emit_reverse_bounded(b"zero\n\x1b[31mred\x1b[0m\nblue\n", None, Some(18), true),
        b"blue\nred\n"
    );
}

#[test]
fn reverse_lines_simple() {
    assert_eq!(reverse_lines(b"a\nb\nc\n"), b"c\nb\na\n");
}

#[test]
fn reverse_lines_no_trailing_newline() {
    assert_eq!(reverse_lines(b"a\nb\nc"), b"c\nb\na");
}

#[test]
fn reverse_lines_empty() {
    assert_eq!(reverse_lines(b""), b"");
}

#[test]
fn reverse_lines_single() {
    assert_eq!(reverse_lines(b"only\n"), b"only\n");
}

#[test]
fn reverse_twice_gives_the_same_bytes() {
    for s in [&b"a\nb\nc\n"[..], b"a\nb\nc", b"\n\nx\n", b"\n", b"one"] {
        assert_eq!(reverse_lines(&reverse_lines(s)), s);
    }
    // An empty first line before an unfinished last one does not come back.
    assert_eq!(reverse_lines(b"\nb"), b"b");
    assert_eq!(reverse_lines(b"\n\na\nb"), b"b\na");
}

// ---------- options ----------

#[test]
fn validates_cursor_vs_bounded() {
    assert!(
        validate_flag_combinations(Some(10), false, None, false, false, Some(0), false, false)
            .is_err()
    );
    assert!(
        validate_flag_combinations(None, true, None, false, false, Some(0), false, false).is_err()
    );
    assert!(
        validate_flag_combinations(None, false, Some(10), false, false, Some(0), false, false)
            .is_err()
    );
    assert!(
        validate_flag_combinations(None, false, None, true, false, Some(0), false, false).is_err()
    );
}

#[test]
fn validates_json_vs_follow() {
    assert!(
        validate_flag_combinations(None, false, None, false, true, None, true, false).is_err()
    );
}

#[test]
fn validates_cursor_alone_ok() {
    assert!(
        validate_flag_combinations(None, false, None, false, false, Some(0), false, false).is_ok()
    );
}

#[test]
fn validates_cursor_with_json_ok() {
    assert!(
        validate_flag_combinations(None, false, None, false, false, Some(42), true, false).is_ok()
    );
}

#[test]
fn validates_time_window_vs_bounded() {
    assert!(
        validate_flag_combinations(Some(5), false, None, false, false, None, false, true).is_err()
    );
    assert!(
        validate_flag_combinations(None, false, None, false, false, Some(0), false, true).is_err()
    );
    assert!(
        validate_flag_combinations(None, false, None, false, true, None, false, true).is_err()
    );
}

#[test]
fn conflicts_say_which_options_do_not_go_together() {
    let err = |l, b, h, r, f, c, j, t| {
        validate_flag_combinations(l, b, h, r, f, c, j, t).unwrap_err()
    };
    assert_eq!(
        err(Some(1), false, Some(1), false, false, None, false, false),
        "--head is mutually exclusive with --lines/--bytes/--reverse/--follow"
    );
    assert_eq!(
        err(Some(1), false, None, true, true, None, false, false),
        "--reverse and --follow can't combine"
    );
    assert_eq!(
        err(None, false, None, true, false, None, false, false),
        "--reverse requires --lines N or --bytes N (so the slice is bounded)"
    );
    assert_eq!(
        err(Some(1), true, None, false, false, None, false, false),
        "--lines and --bytes are mutually exclusive"
    );
    assert_eq!(
        err(Some(1), false, None, false, false, Some(1), false, false),
        "--cursor / --since-cursor is mutually exclusive with --lines/--bytes/--head/--reverse"
    );
    assert_eq!(
        err(None, false, None, false, true, None, true, false),
        "--json and --follow can't combine (use repeated --cursor reads instead)"
    );
    assert_eq!(
        err(None, false, None, false, true, None, false, true),
        "--since / --until is mutually exclusive with --lines/--bytes/--head/--reverse/--cursor/--follow"
    );
}

// ---------- times ----------

#[test]
fn time_spec_now() {
    assert_eq!(parse_time_spec("now", 1_000_000).unwrap(), 1_000_000);
}

#[test]
fn time_spec_relative() {
    let now = 1_700_000_000_000u64;
    assert_eq!(parse_time_spec("30s", now).unwrap(), now - 30_000);
    assert_eq!(parse_time_spec("5m", now).unwrap(), now - 300_000);
    assert_eq!(parse_time_spec("2h", now).unwrap(), now - 7_200_000);
    assert_eq!(parse_time_spec("1d", now).unwrap(), now - 86_400_000);
    assert_eq!(parse_time_spec("500ms", now).unwrap(), now - 500);
}

#[test]
fn time_spec_with_ago_suffix() {
    let now = 1_700_000_000_000u64;
    assert_eq!(parse_time_spec("30s ago", now).unwrap(), now - 30_000);
}

#[test]
fn time_spec_absolute_ms() {
    assert_eq!(parse_time_spec("1234567890", 999).unwrap(), 1234567890);
}

#[test]
fn time_spec_rejects_garbage() {
    assert!(parse_time_spec("", 0).is_err());
    assert!(parse_time_spec("abc", 0).is_err());
    assert!(parse_time_spec("10x", 0).is_err());
}

#[test]
fn time_spec_saturates_at_zero() {
    assert_eq!(parse_time_spec("10d", 100).unwrap(), 0);
    assert_eq!(parse_time_spec("18446744073709551615d", u64::MAX).unwrap(), 0);
}

#[test]
fn time_spec_errors_say_why() {
    assert_eq!(parse_time_spec(" ago", 5).unwrap_err(), "invalid time spec \" ago\"");
    assert_eq!(parse_time_spec("   ", 5).unwrap_err(), "empty time spec");
    assert_eq!(parse_time_spec("x1", 5).unwrap_err(), "invalid time spec \"x1\"");
    assert_eq!(
        parse_time_spec("99999999999999999999s", 5).unwrap_err(),
        "invalid integer in time spec \"99999999999999999999s\""
    );
    assert_eq!(parse_time_spec("5 weeks", 5).unwrap_err(), "unknown time unit \"weeks\"");
    assert_eq!(parse_time_spec("NoW", 77).unwrap(), 77);
    assert_eq!(
        parse_time_option("--since: ", &Some("x".to_string()), 5).unwrap_err(),
        "--since: invalid time spec \"x\""
    );
    assert_eq!(parse_time_option("--since: ", &None, 5).unwrap(), None);
}

#[test]
fn the_clock_is_past_the_year_two_thousand() {
    assert!(now_ms() > 946_684_800_000);
}

// ---------- reads ----------

#[test]
fn selections_cover_their_parts() {
    let log = b"a\nbb\nccc\n";
    assert_eq!(bounds(&Selection::Cursor(2), log), (2, 9));
    assert_eq!(bounds(&Selection::Head(1), log), (0, 2));
    assert_eq!(bounds(&Selection::LastLines(1), log), (5, 9));
    assert_eq!(bounds(&Selection::LastBytes(5), log), (5, 9));
    assert_eq!(bounds(&Selection::All, log), (0, 9));
    assert!(matches!(select(Some(1), Some(2), Some(3), Some(4)), Selection::Cursor(1)));
    assert!(matches!(select(None, Some(2), Some(3), Some(4)), Selection::Head(2)));
    assert!(matches!(select(None, None, Some(3), Some(4)), Selection::LastLines(3)));
    assert!(matches!(select(None, None, None, Some(4)), Selection::LastBytes(4)));
    assert!(matches!(select(None, None, None, None), Selection::All));
    assert_eq!(show(&Selection::LastLines(2), log, false, true), b"ccc\nbb\n");
}

#[test]
fn polling_by_cursor_shows_each_byte_once() {
    let mut log = b"one\ntwo\n".to_vec();
    let first = emit_json(&log, &Selection::Cursor(4), false, false);
    assert_eq!(first.cursor_start, 4);
    assert_eq!(first.cursor, 8);
    assert_eq!(first.content, "two\n");
    assert_eq!(first.lines_emitted, 1);
    assert_eq!(first.bytes_emitted, 4);
    assert!(!first.cursor_stale);
    assert_eq!(first.stale_reason, None);
    log.extend_from_slice(b"three\nfo");
    let second = emit_json(&log, &Selection::Cursor(first.cursor), false, false);
    assert_eq!(second.content, "three\nfo");
    assert_eq!(second.cursor, 16);
}

#[test]
fn stale_cursor_is_answered_with_the_end() {
    let e = emit_json(b"abc\n", &Selection::Cursor(9), false, false);
    assert!(e.cursor_stale);
    assert_eq!(e.stale_reason, Some("cursor past EOF (rotation or truncation)"));
    assert_eq!(e.cursor_start, 9);
    assert_eq!(e.cursor, 4);
    assert_eq!(e.content, "");
    assert_eq!(e.lines_emitted, 0);
    assert_eq!(e.bytes_emitted, 0);
    assert!(check_cursor(4, 4).is_ok());
    assert_eq!(
        check_cursor(9, 4).unwrap_err(),
        "cursor 9 past EOF (4); log was rotated or truncated"
    );
}

#[test]
fn envelope_counts_what_is_left_after_stripping() {
    let log = b"\x1b[31mred\x1b[0m\nplain\n";
    let e = emit_json(log, &Selection::Head(1), true, false);
    assert_eq!(e.content, "red\n");
    assert_eq!(e.bytes_emitted, 4);
    // The next read goes on behind the bytes that were read.
    assert_eq!(e.cursor, 13);
    let rest = emit_json(log, &Selection::Cursor(e.cursor), true, false);
    assert_eq!(rest.content, "plain\n");
}

#[test]
fn envelope_replaces_what_is_no_text() {
    let e = emit_json(b"a\xffb\n", &Selection::All, false, false);
    assert_eq!(e.content, "a\u{fffd}b\n");
    assert_eq!(e.bytes_emitted, 4);
}

#[test]
fn time_window_keeps_the_lines_of_the_span() {
    let log = b"[10] a\nno stamp\n[20] b\n[30] c\n[40] d\n[25] late\n[15] unfinished";
    let r = emit_time_window(log, Some(20), Some(30), false, false).unwrap();
    assert_eq!(r.content, b"b\nc\n");
    assert_eq!(r.lines_emitted, 2);
    let kept = emit_time_window(log, Some(30), None, false, true).unwrap();
    assert_eq!(kept.content, b"[30] c\n[40] d\n");
    let none = emit_time_window(log, Some(99), None, false, false).unwrap();
    assert_eq!(none.content, b"");
    assert_eq!(
        emit_time_window(b"plain\n", Some(1), None, false, false).err().unwrap(),
        "--since/--until require timestamped logs; spawn with --timestamps (or AGENT_TERM_TIMESTAMPS=1)"
    );
}

#[test]
fn plans_report_the_first_problem() {
    let mut o = options("bad id");
    o.reverse = true;
    assert_eq!(plan(&o, 0).err().unwrap(), "invalid id \"bad id\"");
    o.id = "good".to_string();
    assert_eq!(
        plan(&o, 0).err().unwrap(),
        "tail: --reverse requires --lines N or --bytes N (so the slice is bounded)"
    );
    o.bytes = Some("3X".to_string());
    assert_eq!(plan(&o, 0).err().unwrap(), "tail: --bytes: unknown unit \"X\"");
    o.bytes = Some("3K".to_string());
    assert!(matches!(plan(&o, 0), Ok(TailRead::Plain(Selection::LastBytes(3072)))));
    let mut w = options("good");
    w.since = Some("x".to_string());
    assert_eq!(plan(&w, 0).err().unwrap(), "tail: --since: invalid time spec \"x\"");
    w.since = Some("1s".to_string());
    w.until = Some("?".to_string());
    assert_eq!(plan(&w, 0).err().unwrap(), "tail: --until: invalid time spec \"?\"");
    w.until = None;
    w.json = true;
    assert!(matches!(plan(&w, 5000), Ok(TailRead::Window(Some(4000), None))));
}

#[test]
fn a_whole_read_follows_its_options() {
    let log = b"[1] a\n[2] b\n";
    let mut o = options("x");
    assert_eq!(run(&o, None, 9).err().unwrap(), "no log for id \"x\"");
    match run(&o, Some(log), 9) {
        Ok(TailOutcome::Plain(b)) => assert_eq!(b, log),
        _ => panic!("plain bytes expected"),
    }
    o.cursor = Some(13);
    assert_eq!(
        run(&o, Some(log), 9).err().unwrap(),
        "tail: cursor 13 past EOF (12); log was rotated or truncated"
    );
    o.json = true;
    match run(&o, Some(log), 9) {
        Ok(TailOutcome::Json(e)) => assert!(e.cursor_stale),
        _ => panic!("envelope expected"),
    }
    let mut w = options("x");
    w.since = Some("2".to_string());
    match run(&w, Some(log), 9) {
        Ok(TailOutcome::Window(rep, Some(2), None)) => assert_eq!(rep.content, b"b\n"),
        _ => panic!("window expected"),
    }
    assert_eq!(
        run(&w, Some(b"plain\n"), 9).err().unwrap(),
        "tail: --since/--until require timestamped logs; spawn with --timestamps (or AGENT_TERM_TIMESTAMPS=1)"
    );
}

fn plain(o: &TailOptions, log: &[u8]) -> Vec<u8> {
    match run(o, Some(log), 9) {
        Ok(TailOutcome::Plain(b)) => b,
        _ => panic!("plain bytes expected"),
    }
}

#[test]
fn bounded_reads_leave_the_stamps_out() {
    let log = b"[1] a\nraw\n[2] \x1b[1mb\x1b[0m\n[3] c";
    let mut last = options("x");
    last.lines = Some(3);
    assert_eq!(plain(&last, log), b"raw\n\x1b[1mb\x1b[0m\nc");
    last.strip_ansi = true;
    assert_eq!(plain(&last, log), b"raw\nb\nc");
    last.reverse = true;
    assert_eq!(plain(&last, log), b"c\nb\nraw");
    last.keep_timestamps = true;
    assert_eq!(plain(&last, log), b"[3] c\n[2] b\nraw");
    let mut head = options("x");
    head.head = Some(2);
    assert_eq!(plain(&head, log), b"a\nraw\n");
    head.keep_timestamps = true;
    assert_eq!(plain(&head, log), b"[1] a\nraw\n");
    let mut bytes = options("x");
    bytes.bytes = Some("7".to_string());
    assert_eq!(plain(&bytes, log), b"c");
    // What stands in the middle of a line is no stamp.
    bytes.bytes = Some("5".to_string());
    assert_eq!(plain(&bytes, b"x [7] y"), b"[7] y");
    // A read from an offset, one of everything and an envelope are exact.
    let mut cursor = options("x");
    cursor.cursor = Some(6);
    assert_eq!(plain(&cursor, b"[1] a\n[2] b\n"), b"[2] b\n");
    assert_eq!(plain(&options("x"), log), log);
    let mut json = options("x");
    json.lines = Some(1);
    json.json = true;
    match run(&json, Some(log), 9) {
        Ok(TailOutcome::Json(e)) => {
            assert_eq!(e.content, "[3] c");
            assert_eq!(e.bytes_emitted, e.cursor - e.cursor_start);
        }
        _ => panic!("envelope expected"),
    }
    assert_eq!(read_plain(&Selection::LastLines(1), log, false), b"c");
    assert_eq!(show_plain(&Selection::Head(1), log, false, true, true), b"a\n");
}

#[test]
fn followed_log_is_opened_anew_when_it_shrinks() {
    assert!(follow_reopens(Some(10), Some(9)));
    assert!(!follow_reopens(Some(10), Some(10)));
    assert!(!follow_reopens(None, Some(1)));
    assert!(!follow_reopens(Some(1), None));
}
