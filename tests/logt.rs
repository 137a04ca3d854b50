use logt::dispatch::{event_text, exit_status, Emission, StreamEvent, LAUNCH_FAILURE_STATUS, NO_CODE_STATUS};
use logt::formatter::{annotate, relative_stamp_text, Args, LineFormatter};
use logt::lines::{decode_line, decode_text, LineSplitter};
use logt::origin::Origin;
use logt::reader::{ReadResult, StreamReader};

fn args(relative: bool, show_stream: bool) -> Args {
    Args { relative, show_stream, cmd: vec!["seq".to_string(), "4".to_string()] }
}

fn offset_of(text: &str) -> f64 {
    let start = text.find("[+").unwrap() + 2;
    let end = text.find("s]").unwrap();
    text[start..end].parse::<f64>().unwrap()
}

#[test]
fn labels_name_the_streams() {
    assert_eq!(Origin::Stdout.label(), "stdout");
    assert_eq!(Origin::Stderr.label(), "stderr");
}

#[test]
fn annotate_without_stream_name() {
    assert_eq!(annotate(false, Origin::Stdout, "+1.5s", "hello"), "[+1.5s] hello");
}

#[test]
fn annotate_with_stream_name() {
    assert_eq!(annotate(true, Origin::Stderr, "+0s", "oops"), "[stderr +0s] oops");
}

#[test]
fn annotate_keeps_the_line_as_it_is() {
    assert_eq!(annotate(false, Origin::Stdout, "t", ""), "[t] ");
    assert_eq!(annotate(false, Origin::Stdout, "t", " a\tb\u{1b}[0m "), "[t]  a\tb\u{1b}[0m ");
}

#[test]
fn relative_stamps_of_durations() {
    assert_eq!(relative_stamp_text(0, 0), "+0s");
    assert_eq!(relative_stamp_text(2, 0), "+2s");
    assert_eq!(relative_stamp_text(2, 500_000_000), "+2.5s");
    assert_eq!(relative_stamp_text(12, 340_000_000), "+12.34s");
    assert_eq!(relative_stamp_text(1, 1), "+1.000000001s");
    assert_eq!(relative_stamp_text(0, 1_234_567), "+0.001234567s");
    assert_eq!(relative_stamp_text(100, 999_999_999), "+100.999999999s");
}

#[test]
fn relative_stamp_of_largest_duration() {
    assert_eq!(
        relative_stamp_text(u64::MAX, 999_999_999),
        "+18446744073709551615.999999999s"
    );
}

#[test]
fn relative_mode_formats_offset_and_line() {
    let f = LineFormatter::new(&args(true, false));
    let out = f.fmt(Origin::Stdout, "hello");
    assert!(out.starts_with("[+"));
    assert!(out.ends_with("s] hello"));
    assert!(offset_of(&out) >= 0.0);
}

#[test]
fn relative_offsets_do_not_go_down() {
    let f = LineFormatter::new(&args(true, false));
    let mut last = 0.0;
    for i in 0..200 {
        let out = f.fmt(Origin::Stdout, &i.to_string());
        let offset = offset_of(&out);
        assert!(offset >= last);
        last = offset;
    }
}

#[test]
fn absolute_mode_formats_time_and_line() {
    let f = LineFormatter::new(&args(false, false));
    let out = f.fmt(Origin::Stdout, "hello");
    assert!(out.starts_with('['));
    assert!(out.ends_with("] hello"));
    assert!(!out.starts_with("[+"));
    assert!(out.len() > "[] hello".len());
}

#[test]
fn stream_names_match_the_origin() {
    for relative in [false, true] {
        let f = LineFormatter::new(&args(relative, true));
        assert!(f.fmt(Origin::Stdout, "x").starts_with("[stdout "));
        assert!(f.fmt(Origin::Stderr, "x").starts_with("[stderr "));
        let without = LineFormatter::new(&args(relative, false));
        assert!(!without.fmt(Origin::Stdout, "x").contains("stdout"));
    }
}

#[test]
fn splitter_returns_complete_lines() {
    let mut s = LineSplitter::new();
    assert_eq!(s.feed(b"a\nb"), vec![b"a".to_vec()]);
    assert_eq!(s.feed(b"c\r\n"), vec![b"bc\r".to_vec()]);
    assert_eq!(s.finish(), None);
}

#[test]
fn splitter_keeps_empty_lines() {
    let mut s = LineSplitter::new();
    assert_eq!(s.feed(b"\n\nx\n"), vec![vec![], vec![], b"x".to_vec()]);
    assert_eq!(s.feed(b""), Vec::<Vec<u8>>::new());
    assert_eq!(s.finish(), None);
}

#[test]
fn splitter_returns_last_line_without_newline() {
    let mut s = LineSplitter::new();
    assert_eq!(s.feed(b"one\ntw"), vec![b"one".to_vec()]);
    assert_eq!(s.feed(b"o"), Vec::<Vec<u8>>::new());
    assert_eq!(s.finish(), Some(b"two".to_vec()));
    assert_eq!(s.finish(), None);
}

#[test]
fn splitting_does_not_depend_on_chunks() {
    let stream = b"first\nsecond line\r\n\nlast";
    let mut whole = LineSplitter::new();
    let mut expected = whole.feed(stream);
    expected.extend(whole.finish());
    let mut bytewise = LineSplitter::new();
    let mut got = Vec::new();
    for b in stream.iter() {
        got.extend(bytewise.feed(&[*b]));
    }
    got.extend(bytewise.finish());
    assert_eq!(got, expected);
    assert_eq!(got.len(), 4);
}

#[test]
fn decode_line_drops_carriage_return() {
    assert_eq!(decode_line(b"abc\r".to_vec()), Ok("abc".to_string()));
    assert_eq!(decode_line(b"abc".to_vec()), Ok("abc".to_string()));
    assert_eq!(decode_line(b"a\rb".to_vec()), Ok("a\rb".to_string()));
    assert_eq!(decode_line(b"\r".to_vec()), Ok(String::new()));
}

#[test]
fn decode_text_keeps_carriage_return() {
    assert_eq!(decode_text(b"abc\r".to_vec()), Ok("abc\r".to_string()));
}

#[test]
fn decode_reads_multibyte_text() {
    assert_eq!(decode_line(vec![0x63, 0x61, 0x66, 0xc3, 0xa9]), Ok("caf\u{e9}".to_string()));
}

#[test]
fn decode_reports_invalid_utf8() {
    assert_eq!(
        decode_line(vec![0x61, 0xff, 0x62]),
        Err("stream did not contain valid UTF-8".to_string())
    );
    assert_eq!(
        decode_text(vec![0xc3]),
        Err("stream did not contain valid UTF-8".to_string())
    );
}

#[test]
fn event_text_of_line_and_of_error() {
    assert_eq!(event_text(Origin::Stdout, &Ok("1".to_string())), "1");
    assert_eq!(
        event_text(Origin::Stderr, &Err("boom".to_string())),
        "Err reading stderr: boom"
    );
}

#[test]
fn read_error_goes_annotated_to_its_stream() {
    let f = LineFormatter::new(&args(true, false));
    let event = StreamEvent { origin: Origin::Stdout, payload: Err("bad bytes".to_string()) };
    let Emission { destination, text } = f.dispatch(&event);
    assert_eq!(destination, Origin::Stdout);
    assert!(text.starts_with("[+"));
    assert!(text.ends_with("s] Err reading stdout: bad bytes"));
}

fn run(f: &LineFormatter, events: Vec<StreamEvent>) -> (Vec<String>, Vec<String>) {
    let mut out = Vec::new();
    let mut err = Vec::new();
    for event in events.iter() {
        let e = f.dispatch(event);
        match e.destination {
            Origin::Stdout => out.push(e.text),
            Origin::Stderr => err.push(e.text),
        }
    }
    (out, err)
}

fn line(origin: Origin, text: &str) -> StreamEvent {
    StreamEvent { origin, payload: Ok(text.to_string()) }
}

#[test]
fn seq_four_goes_to_stdout_in_order() {
    let f = LineFormatter::new(&args(false, false));
    let events = (1..=4).map(|i| line(Origin::Stdout, &i.to_string())).collect();
    let (out, err) = run(&f, events);
    assert_eq!(out.len(), 4);
    for (i, text) in out.iter().enumerate() {
        assert!(text.starts_with('['));
        assert!(text.ends_with(&format!("] {}", i + 1)));
    }
    assert!(err.is_empty());
    assert_eq!(exit_status(Some(0)), 0);
}

#[test]
fn interleaved_streams_keep_each_line_once() {
    let f = LineFormatter::new(&args(true, true));
    let events = vec![
        line(Origin::Stderr, "e1"),
        line(Origin::Stdout, "o1"),
        line(Origin::Stdout, "o2"),
        line(Origin::Stderr, "e2"),
        line(Origin::Stdout, "o3"),
    ];
    let (out, err) = run(&f, events);
    assert_eq!(out.len(), 3);
    assert_eq!(err.len(), 2);
    for (text, want) in out.iter().zip(["o1", "o2", "o3"]) {
        assert!(text.starts_with("[stdout +"));
        assert!(text.ends_with(&format!("s] {want}")));
    }
    for (text, want) in err.iter().zip(["e1", "e2"]) {
        assert!(text.starts_with("[stderr +"));
        assert!(text.ends_with(&format!("s] {want}")));
    }
}

#[test]
fn stderr_then_stdout_both_arrive() {
    let f = LineFormatter::new(&args(false, false));
    let (out, err) = run(&f, vec![line(Origin::Stderr, "to err"), line(Origin::Stdout, "to out")]);
    assert_eq!(out.len(), 1);
    assert_eq!(err.len(), 1);
    assert!(out[0].ends_with("] to out"));
    assert!(err[0].ends_with("] to err"));
}

#[test]
fn exit_status_follows_the_child() {
    assert_eq!(exit_status(Some(0)), 0);
    assert_eq!(exit_status(Some(3)), 3);
    assert_eq!(exit_status(None), NO_CODE_STATUS);
    assert_ne!(NO_CODE_STATUS, 0);
    assert_ne!(LAUNCH_FAILURE_STATUS, 0);
}

fn read_all(origin: Origin, chunks: &[&[u8]]) -> Vec<StreamEvent> {
    let mut reader = StreamReader::new(origin);
    let mut events = Vec::new();
    for chunk in chunks {
        let (more, closed) = reader.step(ReadResult::Bytes(chunk.to_vec()));
        assert!(!closed);
        events.extend(more);
    }
    let (more, closed) = reader.step(ReadResult::Closed);
    assert!(closed);
    events.extend(more);
    events
}

fn payloads(events: &[StreamEvent]) -> Vec<Result<String, String>> {
    events.iter().map(|e| e.payload.clone()).collect()
}

#[test]
fn reader_gives_seq_four_lines() {
    let events = read_all(Origin::Stdout, &[b"1\n2\n", b"3\n4\n"]);
    assert!(events.iter().all(|e| e.origin == Origin::Stdout));
    assert_eq!(
        payloads(&events),
        vec![Ok("1".to_string()), Ok("2".to_string()), Ok("3".to_string()), Ok("4".to_string())]
    );
}

#[test]
fn reader_keeps_last_line_and_reports_bad_bytes() {
    let events = read_all(Origin::Stderr, &[b"a\r\n\xff\n", b"\nlast\r"]);
    assert!(events.iter().all(|e| e.origin == Origin::Stderr));
    assert_eq!(
        payloads(&events),
        vec![
            Ok("a".to_string()),
            Err("stream did not contain valid UTF-8".to_string()),
            Ok(String::new()),
            Ok("last\r".to_string()),
        ]
    );
}

#[test]
fn reader_handles_interruptions_failures_and_close() {
    let mut reader = StreamReader::new(Origin::Stdout);
    let (events, closed) = reader.step(ReadResult::Bytes(b"par".to_vec()));
    assert!(events.is_empty() && !closed);
    let (events, closed) = reader.step(ReadResult::Interrupted);
    assert!(events.is_empty() && !closed);
    let (events, closed) = reader.step(ReadResult::Failed("broken pipe".to_string()));
    assert!(!closed);
    assert_eq!(payloads(&events), vec![Err("broken pipe".to_string())]);
    let (events, closed) = reader.step(ReadResult::Bytes(b"t\n".to_vec()));
    assert!(!closed);
    assert_eq!(payloads(&events), vec![Ok("part".to_string())]);
    let (events, closed) = reader.step(ReadResult::Closed);
    assert!(events.is_empty() && closed);
    let (events, closed) = reader.step(ReadResult::Bytes(b"late\n".to_vec()));
    assert!(events.is_empty() && closed);
}

#[test]
fn absolute_stamp_has_no_brackets_or_stream_names() {
    let f = LineFormatter::new(&args(false, true));
    let out = f.fmt(Origin::Stderr, "[x]");
    assert!(out.starts_with("[stderr "));
    assert!(out.ends_with("] [x]"));
    let stamp = &out["[stderr ".len()..out.len() - "] [x]".len()];
    assert!(!stamp.is_empty());
    assert!(stamp.chars().all(|c| c.is_ascii_digit() || "-+:. ".contains(c)));
    assert!(!out.contains("stdout"));
}
