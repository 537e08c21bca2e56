use agent_term::daemon::DaemonCounters;
use agent_term::pty::{
    current_ms_prefix, log_segments_from_env, log_size_from_env, ms_prefix, parse_ms_prefix,
    reading_ms, strip_ansi, strip_if, timestamps_from_env, AnsiStripper, LogOp, LogWriter,
};
use agent_term::segments::{numbered_path, rotation, FileMove};
use agent_term::window::{read_window, remove_stamps};

/// The files of a log in memory: the current one and the older ones, newest
/// first.
struct Files {
    current: Vec<u8>,
    older: Vec<Vec<u8>>,
}

impl Files {
    fn new(current: &[u8]) -> Files {
        Files { current: current.to_vec(), older: Vec::new() }
    }

    fn open(&self, max_size: u64, max_segments: usize, timestamps: bool) -> LogWriter {
        LogWriter::open_with(
            "x.log".to_string(),
            self.current.len() as u64,
            self.current.last().copied(),
            max_size,
            max_segments,
            timestamps,
        )
    }

    fn write(&mut self, w: &mut LogWriter, keep: usize, buf: &[u8]) {
        for op in w.write_all(buf) {
            match &op {
                LogOp::Append(b) => self.current.extend_from_slice(b),
                LogOp::Rotate => {
                    let full = std::mem::take(&mut self.current);
                    self.older.insert(0, full);
                    self.older.truncate(keep);
                }
                LogOp::Line(_) => {}
            }
            w.commit(&op);
        }
    }
}

#[test]
fn log_writer_no_rotation_writes_through() {
    let mut f = Files::new(b"");
    let mut w = f.open(0, 0, false);
    f.write(&mut w, 0, b"hello\nworld\n");
    assert_eq!(f.current, b"hello\nworld\n");
    assert!(f.older.is_empty());
}

#[test]
fn log_writer_rotates_and_caps_segments() {
    let mut f = Files::new(b"");
    let mut w = f.open(10, 2, false);
    f.write(&mut w, 2, b"aaaaaaaaaa");
    f.write(&mut w, 2, b"bbbbbbbbbb");
    f.write(&mut w, 2, b"cccccccccc");
    f.write(&mut w, 2, b"ddddd");
    assert_eq!(f.current, b"ddddd");
    assert_eq!(f.older[0], b"cccccccccc");
    assert_eq!(f.older[1], b"bbbbbbbbbb");
    assert_eq!(f.older.len(), 2);
}

#[test]
fn one_large_write_is_spread_over_files() {
    let mut f = Files::new(b"xyz");
    let mut w = f.open(4, 3, false);
    f.write(&mut w, 3, b"0123456789");
    assert_eq!(f.older, vec![b"5678".to_vec(), b"1234".to_vec(), b"xyz0".to_vec()]);
    assert_eq!(f.current, b"9");
}

#[test]
fn file_that_is_already_full_is_rotated_first() {
    let f = Files::new(b"full!");
    let w = f.open(4, 1, false);
    let ops = w.write_all(b"a");
    assert!(matches!(ops[0], LogOp::Rotate));
    match &ops[1] {
        LogOp::Append(b) => assert_eq!(b, b"a"),
        _ => panic!("bytes expected"),
    }
    assert_eq!(ops.len(), 2);
}

#[test]
fn files_are_full_when_they_are_rotated_out() {
    let mut f = Files::new(b"larger than that");
    let mut w = f.open(6, 99, true);
    for _ in 0..3 {
        f.write(&mut w, 99, b"a line\nand");
        assert!(f.current.len() < 6);
    }
    assert_eq!(f.older.last().unwrap(), b"larger than that");
    assert!(f.older.iter().rev().skip(1).all(|s| s.len() == 6));
}

#[test]
fn every_line_has_one_stamp_however_it_is_written() {
    let mut f = Files::new(b"");
    let mut w = f.open(0, 0, true);
    for chunk in [&b"fi"[..], b"", b"rst", b"\n", b"\nthird\nun", b"finished"] {
        f.write(&mut w, 0, chunk);
    }
    let bodies: Vec<&[u8]> = f
        .current
        .split(|&b| b == b'\n')
        .map(|line| &line[parse_ms_prefix(line).unwrap().1..])
        .collect();
    assert_eq!(bodies, vec![&b"first"[..], b"", b"third", b"unfinished"]);
    assert!(bodies.iter().all(|b| parse_ms_prefix(b).is_none()));
    let mut g = Files::new(b"");
    let mut v = g.open(0, 0, true);
    g.write(&mut v, 0, b"");
    assert_eq!(g.current, b"");
}

#[test]
fn raw_bytes_fill_one_file_after_the_other() {
    let w = Files::new(b"").open(4, 2, false);
    let mut ops = Vec::new();
    assert_eq!(w.write_raw(3, b"abcdef", &mut ops), 1);
    let shown: Vec<String> = ops
        .iter()
        .map(|op| match op {
            LogOp::Append(b) => String::from_utf8_lossy(b).into_owned(),
            LogOp::Rotate => "-".to_string(),
            LogOp::Line(_) => "?".to_string(),
        })
        .collect();
    assert_eq!(shown, vec!["a", "-", "bcde", "-", "f"]);
}

#[test]
fn stamps_come_off_again() {
    let text = b"one\n\n[5] two\r\nthr";
    let mut f = Files::new(b"");
    let mut w = f.open(0, 0, true);
    f.write(&mut w, 0, text);
    assert_ne!(f.current, text);
    assert_eq!(remove_stamps(&f.current), text);
}

#[test]
fn rotation_moves_every_segment_one_up() {
    let shown: Vec<String> = rotation("a.log", 3)
        .iter()
        .map(|m| match m {
            FileMove::Remove(p) => format!("rm {p}"),
            FileMove::Rename { from, to, required } => format!("mv {from} {to} {required}"),
        })
        .collect();
    assert_eq!(
        shown,
        vec![
            "rm a.log.3",
            "mv a.log.2 a.log.3 false",
            "mv a.log.1 a.log.2 false",
            "mv a.log a.log.1 true",
        ]
    );
    assert_eq!(numbered_path("a.log", 12), "a.log.12");
    let w = LogWriter::open_with("b.log".to_string(), 0, None, 10, 1, false);
    assert_eq!(w.rotate().len(), 2);
}

#[test]
fn strip_ansi_removes_csi_sgr() {
    assert_eq!(strip_ansi(b"\x1b[31mred\x1b[0m"), b"red");
}

#[test]
fn strip_ansi_removes_cursor_movement() {
    assert_eq!(strip_ansi(b"hi\x1b[2Athere\x1b[1;31mX\x1b[mY"), b"hithereXY");
}

#[test]
fn strip_ansi_handles_osc_bel() {
    assert_eq!(strip_ansi(b"before\x1b]0;some title\x07after"), b"beforeafter");
}

#[test]
fn strip_ansi_handles_osc_st() {
    assert_eq!(strip_ansi(b"before\x1b]0;title\x1b\\after"), b"beforeafter");
}

#[test]
fn strip_ansi_survives_chunk_split_mid_csi() {
    let mut s = AnsiStripper::new();
    let mut out = Vec::new();
    s.feed(b"hello\x1b[3", &mut out);
    s.feed(b"1mred\x1b[0m world", &mut out);
    assert_eq!(out, b"hellored world");
}

#[test]
fn strip_ansi_passes_through_plain_text() {
    let raw = b"plain ascii\n and unicode \xe2\x9c\x93";
    assert_eq!(strip_ansi(raw), raw);
}

#[test]
fn strip_ansi_handles_short_and_broken_sequences() {
    assert_eq!(strip_ansi(b"a\x1b7b\x1b8c"), b"abc");
    // An escape inside of a command that is no terminator keeps it open.
    assert_eq!(strip_ansi(b"a\x1b]x\x1b[y\x1b\x1b\\b"), b"ab");
    assert_eq!(strip_ansi(b"open\x1b["), b"open");
    assert_eq!(strip_if(false, b"\x1b[0m".to_vec()), b"\x1b[0m");
    assert_eq!(strip_if(true, b"\x1b[0m".to_vec()), b"");
    let mut s = AnsiStripper::default();
    let mut out = Vec::new();
    s.feed(b"x", &mut out);
    assert_eq!(out, b"x");
}

#[test]
fn timestamped_writer_prepends_prefix_per_line() {
    let mut f = Files::new(b"");
    let mut w = f.open(0, 0, true);
    f.write(&mut w, 0, b"first line\nsecond line\n");
    let content = f.current.clone();
    let mut lines = content
        .split(|&b| b == b'\n')
        .filter(|s| !s.is_empty())
        .collect::<Vec<_>>();
    assert_eq!(lines.len(), 2);
    let (ts1, body1) = parse_ms_prefix(lines.remove(0)).unwrap();
    let (ts2, body2) = parse_ms_prefix(lines.remove(0)).unwrap();
    assert!(ts1 > 0 && ts2 >= ts1);
    let shown = String::from_utf8(content).unwrap();
    assert!(shown.contains("first line"));
    assert!(shown.contains("second line"));
    assert_eq!(body1, body2);
}

#[test]
fn timestamped_writer_handles_split_chunks() {
    let mut f = Files::new(b"");
    let mut w = f.open(0, 0, true);
    f.write(&mut w, 0, b"hello wo");
    f.write(&mut w, 0, b"rld\nbye\n");
    let prefix_count = f.current.windows(1).filter(|w| w[0] == b'[').count();
    assert_eq!(prefix_count, 2, "content = {:?}", String::from_utf8_lossy(&f.current));
    let s = String::from_utf8_lossy(&f.current);
    assert!(s.contains("hello world\n"));
    assert!(s.contains("bye\n"));
}

#[test]
fn non_timestamped_writer_is_unchanged() {
    let mut f = Files::new(b"");
    let mut w = f.open(0, 0, false);
    f.write(&mut w, 0, b"plain output\nno prefix\n");
    assert_eq!(f.current, b"plain output\nno prefix\n");
}

#[test]
fn parse_ms_prefix_basic() {
    let (ts, body) = parse_ms_prefix(b"[1700000000000] hello\n").unwrap();
    assert_eq!(ts, 1_700_000_000_000);
    assert_eq!(body, 16);
}

#[test]
fn parse_ms_prefix_rejects_ansi() {
    assert!(parse_ms_prefix(b"\x1b[31mred\x1b[0m\n").is_none());
    assert!(parse_ms_prefix(b"[31m...").is_none());
}

#[test]
fn parse_ms_prefix_no_prefix() {
    assert!(parse_ms_prefix(b"no prefix here\n").is_none());
}

#[test]
fn parse_ms_prefix_tolerates_no_space_after_bracket() {
    let (ts, body) = parse_ms_prefix(b"[42]x").unwrap();
    assert_eq!(ts, 42);
    assert_eq!(body, 4);
}

#[test]
fn parse_ms_prefix_edges() {
    assert!(parse_ms_prefix(b"").is_none());
    assert!(parse_ms_prefix(b"[]x").is_none());
    assert!(parse_ms_prefix(b"[12").is_none());
    assert!(parse_ms_prefix(b"[+1] x").is_none());
    assert!(parse_ms_prefix(b"[18446744073709551616] x").is_none());
    assert_eq!(parse_ms_prefix(b"[18446744073709551615]").unwrap(), (u64::MAX, 22));
}

#[test]
fn clock_readings_become_milliseconds() {
    assert_eq!(reading_ms(None), 0);
    assert_eq!(reading_ms(Some(0)), 0);
    assert_eq!(reading_ms(Some(1_700_000_000_123)), 1_700_000_000_123);
    assert_eq!(reading_ms(Some(u64::MAX as u128)), u64::MAX);
    assert_eq!(reading_ms(Some(u64::MAX as u128 + 8)), 7);
}

#[test]
fn stamps_read_back() {
    assert_eq!(ms_prefix(1_700_000_000_123), "[1700000000123] ");
    for ms in [0, 7, 1_700_000_000_123, u64::MAX] {
        let line = format!("{}rest", ms_prefix(ms));
        let (ts, body) = parse_ms_prefix(line.as_bytes()).unwrap();
        assert_eq!(ts, ms);
        assert_eq!(&line[body..], "rest");
    }
    let now = current_ms_prefix();
    assert!(parse_ms_prefix(now.as_bytes()).unwrap().0 > 946_684_800_000);
}

#[test]
fn timestamped_writer_resumes_correctly_after_open() {
    let mut f = Files::new(b"[42] partial");
    let mut w = f.open(0, 0, true);
    f.write(&mut w, 0, b" more\n");
    assert_eq!(f.current, b"[42] partial more\n");
}

#[test]
fn timestamped_writer_after_newline_emits_prefix() {
    let mut f = Files::new(b"[10] alpha\n");
    let mut w = f.open(0, 0, true);
    f.write(&mut w, 0, b"beta\n");
    let s = String::from_utf8_lossy(&f.current);
    assert!(s.starts_with("[10] alpha\n["));
    assert!(s.ends_with("beta\n"));
}

#[test]
fn given_stamps_go_in_front_of_the_lines() {
    let w = LogWriter::open_with("t.log".to_string(), 0, None, 0, 0, true);
    assert_eq!(w.stamps_needed(b"a\nb\nc"), 3);
    let mut got = Vec::new();
    let mut marks = Vec::new();
    for op in w.write_stamped(b"a\nb\nc", &[1, 22, 333]) {
        match op {
            LogOp::Append(b) => got.extend_from_slice(&b),
            LogOp::Line(b) => marks.push(b),
            LogOp::Rotate => panic!("no rotation"),
        }
    }
    assert_eq!(got, b"[1] a\n[22] b\n[333] c");
    assert_eq!(marks, vec![false, true, false, true, false]);
    let plain = LogWriter::open_with("t.log".to_string(), 0, None, 0, 0, false);
    assert_eq!(plain.stamps_needed(b"a\nb\n"), 0);
}

#[test]
fn written_lines_are_read_back_by_time() {
    let w = LogWriter::open_with("t.log".to_string(), 0, None, 0, 0, true);
    let mut log = Vec::new();
    for op in w.write_stamped(b"one\ntwo\nthree\nfour", &[10, 20, 30, 40]) {
        if let LogOp::Append(b) = op {
            log.extend_from_slice(&b);
        }
    }
    assert_eq!(read_window(&log, Some(15), Some(30), false).bytes, b"two\nthree\n");
    assert_eq!(read_window(&log, None, Some(20), false).bytes, b"one\ntwo\n");
    let all = read_window(&log, None, None, false);
    assert_eq!(all.bytes, b"one\ntwo\nthree\n");
    assert_eq!((all.count, all.stamped), (3, true));
    assert!(!read_window(b"no stamp\n", None, None, false).stamped);
}

#[test]
fn stamped_lines_rotate_too() {
    let w = LogWriter::open_with("t.log".to_string(), 0, None, 5, 9, true);
    let mut files = vec![Vec::new()];
    for op in w.write_stamped(b"ab\ncd\n", &[7, 8]) {
        match op {
            LogOp::Append(b) => files.last_mut().unwrap().extend_from_slice(&b),
            LogOp::Rotate => files.push(Vec::new()),
            LogOp::Line(_) => {}
        }
    }
    assert_eq!(
        files,
        vec![b"[7] a".to_vec(), b"b\n[8]".to_vec(), b" cd\n".to_vec()]
    );
}

#[test]
fn settings_come_from_their_values() {
    assert_eq!(log_size_from_env(None), 10 * 1024 * 1024);
    assert_eq!(log_size_from_env(Some("0")), 0);
    assert_eq!(log_size_from_env(Some("+512")), 512);
    assert_eq!(log_size_from_env(Some("12k")), 10 * 1024 * 1024);
    assert_eq!(log_segments_from_env(None), 3);
    assert_eq!(log_segments_from_env(Some("7")), 7);
    assert_eq!(log_segments_from_env(Some("-1")), 3);
    assert!(timestamps_from_env(Some("1")));
    assert!(!timestamps_from_env(Some("true")));
    assert!(!timestamps_from_env(None));
}

#[test]
fn counters_follow_the_stream() {
    let mut c = DaemonCounters::default();
    c.record(b"a\nb\nc", 50);
    assert_eq!((c.line_count, c.last_line_at_ms, c.bytes_written), (2, 50, 5));
    c.record(b"def", 60);
    assert_eq!((c.line_count, c.last_line_at_ms, c.bytes_written), (2, 50, 8));
    c.record(b"\n", 70);
    assert_eq!((c.line_count, c.last_line_at_ms, c.bytes_written), (3, 70, 9));
}
