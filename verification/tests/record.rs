use rommy::clock::{duration_ms, UtcInstant, MAX_SECS, MIN_SECS};
use rommy::parser::{parse_str, RommyRecord};
use rommy::record::{display_for_token, render_record, script_display_text, status_label, RecordData, RommyCommand};
use rommy::cli::shell_join;
use rommy::report::check_file;

fn record_for_line(args: &[&str], stdout: &str, stderr: &str, exit_code: i32) -> RecordData {
    let parts: Vec<String> = args.iter().map(|s| s.to_string()).collect();
    let line = shell_join(&parts);
    RecordData {
        rommy_version: "0.1.0".to_string(),
        label: None,
        cwd_abs: "/tmp".to_string(),
        user: Some("ollie".to_string()),
        host: Some("box".to_string()),
        display_command: RommyCommand::Line(line),
        start: UtcInstant { secs: 1761147045, nanos: 0 },
        end: UtcInstant { secs: 1761147046, nanos: 0 },
        duration_ms: 1000,
        out_path: "target/tmp/x.rommy".to_string(),
        status_str: status_label(exit_code).to_string(),
        exit_code,
        stdout_bytes: stdout.as_bytes().to_vec(),
        stderr_bytes: stderr.as_bytes().to_vec(),
    }
}

fn parse_bytes(b: &[u8]) -> Vec<RommyRecord> {
    parse_str(std::str::from_utf8(b).unwrap()).expect("parse failed")
}

#[test]
fn rommy_script_run_produces_valid_blocks() {
    let script = "#!/usr/bin/env bash\nset -Eeuo pipefail\n\necho \"This is stdout\"\necho \"This is stderr\" 1>&2\necho \"Another stdout line\"\n\n";
    let data = RecordData {
        rommy_version: "0.1.0".to_string(),
        label: None,
        cwd_abs: "/tmp".to_string(),
        user: None,
        host: None,
        display_command: RommyCommand::Script {
            path: "/tmp/target/tmp/test_script.sh".to_string(),
            content: script_display_text(script),
        },
        start: UtcInstant { secs: 1761147045, nanos: 0 },
        end: UtcInstant { secs: 1761147045, nanos: 0 },
        duration_ms: 3,
        out_path: "target/tmp/script_test.rommy".to_string(),
        status_str: status_label(0).to_string(),
        exit_code: 0,
        stdout_bytes: b"This is stdout\nAnother stdout line\n".to_vec(),
        stderr_bytes: b"This is stderr\n".to_vec(),
    };
    let content = String::from_utf8(render_record(&data)).unwrap();
    for block in ["<<<META>>>", "<<<COMMAND>>>", "<<<STDOUT>>>", "<<<STDERR>>>"] {
        assert!(content.contains(block), "Output does not contain expected block marker: {}", block);
    }
    assert!(content.contains("This is stdout"), "STDOUT block missing expected text");
    assert!(content.contains("This is stderr"), "STDERR block missing expected text");
    assert!(content.contains("Another stdout line"), "STDOUT block missing second expected line");
    let recs = parse_bytes(content.as_bytes());
    assert_eq!(recs.len(), 1);
    assert_eq!(recs[0].meta.get("script_path").map(String::as_str), Some("/tmp/target/tmp/test_script.sh"));
}

#[test]
fn written_record_reads_back() {
    let data = record_for_line(&["echo", "hello"], "hello\n", "warn", 3);
    let recs = parse_bytes(&render_record(&data));
    assert_eq!(recs.len(), 1);
    let r = &recs[0];
    assert_eq!(r.command, "$ 'echo' 'hello'");
    assert_eq!(r.stdout, "hello");
    assert_eq!(r.stderr, "warn");
    assert_eq!(r.meta.get("status").map(String::as_str), Some("error"));
    assert_eq!(r.meta.get("exit_code").map(String::as_str), Some("3"));
    assert_eq!(r.meta.get("duration_ms").map(String::as_str), Some("1000"));
    assert_eq!(r.meta.get("command_line").map(String::as_str), Some("'echo' 'hello'"));
    assert_eq!(r.meta.get("user").map(String::as_str), Some("ollie"));
    assert_eq!(r.meta.get("label"), None);
    assert_eq!(r.meta.get("timestamp").map(String::as_str), Some("2025-10-22T15:30:45+00:00"));
    assert_eq!(r.meta.len(), 12);
}

#[test]
fn appended_record_reads_back_as_second() {
    let mut bytes = render_record(&record_for_line(&["echo", "first-show"], "first-show\n", "", 0));
    bytes.extend(render_record(&record_for_line(&["echo", "second-show"], "second-show\n", "", 0)));
    let recs = parse_bytes(&bytes);
    assert_eq!(recs.len(), 2);
    assert_eq!(recs[0].stdout, "first-show");
    assert_eq!(recs[1].stdout, "second-show");
}

#[test]
fn render_exact_bytes() {
    let data = record_for_line(&["true"], "", "no newline", 0);
    let text = String::from_utf8(render_record(&data)).unwrap();
    let expected = "<<<META>>>\nrommy_version: 0.1.0\ncwd: /tmp\nuser: ollie\nhost: box\ncommand_line: 'true'\ntimestamp: 2025-10-22T15:30:45+00:00\nstart_ts: 2025-10-22T15:30:45+00:00\nend_ts: 2025-10-22T15:30:46+00:00\nduration_ms: 1000\noutput_path: target/tmp/x.rommy\nstatus: ok\nexit_code: 0\n<<<END>>>\n<<<COMMAND>>>\n$ 'true'\n<<<END>>>\n<<<STDOUT>>>\n<<<END>>>\n<<<STDERR>>>\nno newline\n<<<END>>>\n";
    assert_eq!(text, expected);
}

#[test]
fn render_negative_numbers() {
    let mut data = record_for_line(&["x"], "", "", -1);
    data.duration_ms = -5;
    data.label = Some("nightly".to_string());
    let recs = parse_bytes(&render_record(&data));
    assert_eq!(recs[0].meta.get("exit_code").map(String::as_str), Some("-1"));
    assert_eq!(recs[0].meta.get("duration_ms").map(String::as_str), Some("-5"));
    assert_eq!(recs[0].meta.get("label").map(String::as_str), Some("nightly"));
}

#[test]
fn render_keeps_raw_output_bytes() {
    let mut data = record_for_line(&["x"], "", "", 0);
    data.stdout_bytes = vec![0xff, 0x00, b'a'];
    let bytes = render_record(&data);
    let needle = [b'\n', 0xff, 0x00, b'a', b'\n', b'<'];
    assert!(bytes.windows(needle.len()).any(|w| w == needle));
}

#[test]
fn status_label_values() {
    assert_eq!(status_label(0), "ok");
    assert_eq!(status_label(1), "error");
    assert_eq!(status_label(-1), "error");
}

#[test]
fn script_display_wraps_text() {
    assert_eq!(script_display_text("echo hi"), "#!/usr/bin/env bash\necho hi\n");
}

#[test]
fn display_for_token_values() {
    assert_eq!(display_for_token(&RommyCommand::Line("'cargo' 'test'".to_string())), "$ 'cargo' 'test'");
    assert_eq!(
        display_for_token(&RommyCommand::Script { path: "/a.sh".to_string(), content: "x".to_string() }),
        "#!/usr/bin/env bash\n<script>"
    );
}

#[test]
fn written_file_passes_validation() {
    let mut bytes = render_record(&record_for_line(&["echo", "one"], "one\n", "", 0));
    let text = String::from_utf8(bytes.clone()).unwrap();
    let e = check_file("a.rommy".to_string(), Ok(text));
    assert_eq!(e.records, Some(1));
    assert!(e.error.is_none());
    bytes.extend(render_record(&record_for_line(&["echo", "two"], "", "oops\n", 2)));
    let e = check_file("a.rommy".to_string(), Ok(String::from_utf8(bytes).unwrap()));
    assert_eq!(e.records, Some(2));
    assert!(e.error.is_none());
}

#[test]
fn start_and_end_in_rfc3339() {
    let mut data = record_for_line(&["true"], "", "", 0);
    data.start = UtcInstant { secs: 0, nanos: 0 };
    data.end = UtcInstant { secs: 1431648000, nanos: 123_000_000 };
    let recs = parse_bytes(&render_record(&data));
    assert_eq!(recs[0].meta.get("start_ts").map(String::as_str), Some("1970-01-01T00:00:00+00:00"));
    assert_eq!(recs[0].meta.get("timestamp").map(String::as_str), Some("1970-01-01T00:00:00+00:00"));
    assert_eq!(recs[0].meta.get("end_ts").map(String::as_str), Some("2015-05-15T00:00:00.123+00:00"));
}

#[test]
fn rfc3339_at_the_ends_of_the_range() {
    let mut data = record_for_line(&["true"], "", "", 0);
    data.start = UtcInstant { secs: MIN_SECS, nanos: 0 };
    data.end = UtcInstant { secs: MAX_SECS, nanos: 999_999_999 };
    let recs = parse_bytes(&render_record(&data));
    assert_eq!(recs[0].meta.get("start_ts").map(String::as_str), Some("-262143-01-01T00:00:00+00:00"));
    assert_eq!(recs[0].meta.get("end_ts").map(String::as_str), Some("+262142-12-31T23:59:59.999999999+00:00"));
}

#[test]
fn duration_in_whole_milliseconds() {
    let t = |secs: i64, nanos: u32| UtcInstant { secs, nanos };
    assert_eq!(duration_ms(t(10, 0), t(11, 500_000_000)), 1500);
    assert_eq!(duration_ms(t(10, 999_999_999), t(11, 0)), 0);
    assert_eq!(duration_ms(t(10, 0), t(10, 999_999)), 0);
    assert_eq!(duration_ms(t(11, 500_000_000), t(10, 0)), -1500);
    assert_eq!(duration_ms(t(10, 1_500_000), t(10, 0)), -1);
    assert_eq!(duration_ms(t(MIN_SECS, 0), t(MAX_SECS, 0)), (MAX_SECS - MIN_SECS) * 1000);
}

#[test]
fn instant_range_is_chrono_range() {
    assert_eq!(chrono::DateTime::<chrono::Utc>::MIN_UTC.timestamp(), MIN_SECS);
    assert_eq!(chrono::DateTime::<chrono::Utc>::MAX_UTC.timestamp(), MAX_SECS);
    assert!(chrono::DateTime::from_timestamp(MIN_SECS - 1, 0).is_none());
    assert!(chrono::DateTime::from_timestamp(MAX_SECS + 1, 0).is_none());
}
