use rommy::clock::UtcInstant;
use rommy::cli::shell_join;
use rommy::record::{render_record, status_label, RecordData, RommyCommand};
use rommy::report::{
    check_file, is_rommy_extension, no_files_message, summarize, validation_failure, validation_text,
    OutputLine, Stream, ValidationEntry,
};

fn run_echo(word: &str) -> String {
    let parts = vec!["echo".to_string(), word.to_string()];
    let data = RecordData {
        rommy_version: "0.1.0".to_string(),
        label: None,
        cwd_abs: "/work".to_string(),
        user: None,
        host: None,
        display_command: RommyCommand::Line(shell_join(&parts)),
        start: UtcInstant { secs: 1761147045, nanos: 0 },
        end: UtcInstant { secs: 1761147045, nanos: 0 },
        duration_ms: 2,
        out_path: "target/tmp/v.rommy".to_string(),
        status_str: status_label(0).to_string(),
        exit_code: 0,
        stdout_bytes: format!("{word}\n").into_bytes(),
        stderr_bytes: Vec::new(),
    };
    String::from_utf8(render_record(&data)).unwrap()
}

fn joined(lines: &[OutputLine], stream: Stream) -> String {
    lines
        .iter()
        .filter(|l| l.stream == stream)
        .map(|l| format!("{}\n", l.text))
        .collect()
}

const BAD: &str = "<<<META>>>\nstatus: ok\n<<<END>>>\n<<<COMMAND>>>\n$ echo x\n<<<END>>>\n";

#[test]
fn validate_accepts_valid_rommy_file() {
    let out_path = "target/tmp/validate_ok.rommy";
    let entry = check_file(out_path.to_string(), Ok(run_echo("hello-validate")));
    let report = summarize(vec![entry]);
    let lines = validation_text(&report, false);
    assert!(validation_failure(&report).is_none(), "validate should succeed");
    let stdout = joined(&lines, Stream::Stdout);
    assert!(stdout.contains("OK"), "expected OK line, got: {stdout}");
    assert!(stdout.contains("Validated 1 file(s)."), "expected summary line, got: {stdout}");
    assert!(stdout.contains("OK target/tmp/validate_ok.rommy (1 record(s))"));
}

#[test]
fn validate_fails_for_invalid_rommy_file() {
    let bad_path = "target/tmp/validate_bad.rommy";
    let entry = check_file(bad_path.to_string(), Ok(BAD.to_string()));
    let report = summarize(vec![entry]);
    assert!(validation_failure(&report).is_some(), "validate should fail");
    let stderr = joined(&validation_text(&report, false), Stream::Stderr);
    assert!(stderr.contains("Validation failed"), "expected failure summary, got: {stderr}");
    assert!(stderr.contains("ERR target/tmp/validate_bad.rommy: record 1: missing block(s): STDOUT, STDERR"));
}

#[test]
fn validate_quiet_suppresses_ok_lines() {
    let out_path = "target/tmp/validate_quiet_ok.rommy";
    let entry = check_file(out_path.to_string(), Ok(run_echo("hello-quiet")));
    let report = summarize(vec![entry]);
    assert!(validation_failure(&report).is_none(), "validate should succeed");
    let stdout = joined(&validation_text(&report, true), Stream::Stdout);
    assert!(!stdout.contains("OK "), "quiet mode should suppress per-file OK lines, got: {stdout}");
    assert!(stdout.contains("Validated 1 file(s)."), "quiet mode should still print summary, got: {stdout}");
}

#[test]
fn validate_json_outputs_machine_readable_result() {
    let ok_path = "target/tmp/validate_json_ok.rommy";
    let bad_path = "target/tmp/validate_json_bad.rommy";
    let entries = vec![
        check_file(ok_path.to_string(), Ok(run_echo("hello-json"))),
        check_file(bad_path.to_string(), Ok(BAD.to_string())),
    ];
    let report = summarize(entries);
    assert!(validation_failure(&report).is_some(), "json output should still fail exit code when invalid files exist");
    assert_eq!(report.ok_count + report.err_count, 2);
    assert_eq!(report.ok_count, 1);
    assert_eq!(report.err_count, 1);
    assert_eq!(report.entries.len(), 2);
    assert_eq!(report.entries[0].records, Some(1));
    assert!(report.entries[1].error.is_some());
}

#[test]
fn validate_read_error_is_reported() {
    let entry = check_file("gone.rommy".to_string(), Err("No such file or directory (os error 2)".to_string()));
    assert_eq!(entry.records, None);
    assert_eq!(entry.error.as_deref(), Some("No such file or directory (os error 2)"));
}

#[test]
fn validate_failure_message_exact() {
    let entries: Vec<ValidationEntry> = vec![
        check_file("a".to_string(), Ok(BAD.to_string())),
        check_file("b".to_string(), Ok(BAD.to_string())),
        check_file("c".to_string(), Ok(String::new())),
    ];
    let report = summarize(entries);
    assert_eq!(validation_failure(&report).unwrap(), "Validation failed: 2 file(s) invalid, 1 file(s) valid");
    let lines = validation_text(&report, false);
    assert_eq!(lines.len(), 4);
    assert_eq!(lines[2].text, "OK c (0 record(s))");
    assert_eq!(no_files_message(), "No files found to validate");
}

#[test]
fn rommy_extension_any_case() {
    assert!(is_rommy_extension("rommy"));
    assert!(is_rommy_extension("ROMMY"));
    assert!(is_rommy_extension("RoMmY"));
    assert!(!is_rommy_extension("rommyx"));
    assert!(!is_rommy_extension("txt"));
    assert!(!is_rommy_extension(""));
}
