use rommy::clock::UtcInstant;
use rommy::cli::shell_join;
use rommy::parser::{parse_str, RommyRecord};
use rommy::record::{render_record, status_label, RecordData, RommyCommand};
use rommy::report::{print_record_text, select_records, show_text, ShowError};

fn run_echo(word: &str, out_path: &str) -> Vec<u8> {
    let parts = vec!["echo".to_string(), word.to_string()];
    let data = RecordData {
        rommy_version: "0.1.0".to_string(),
        label: None,
        cwd_abs: "/work".to_string(),
        user: None,
        host: None,
        display_command: RommyCommand::Line(shell_join(&parts)),
        start: UtcInstant { secs: 1761147045, nanos: 0 },
        end: UtcInstant { secs: 1761147045, nanos: 0 },
        duration_ms: 2,
        out_path: out_path.to_string(),
        status_str: status_label(0).to_string(),
        exit_code: 0,
        stdout_bytes: format!("{word}\n").into_bytes(),
        stderr_bytes: Vec::new(),
    };
    render_record(&data)
}

fn records_of(bytes: &[u8]) -> Vec<RommyRecord> {
    parse_str(std::str::from_utf8(bytes).unwrap()).expect("parse failed")
}

#[test]
fn show_text_displays_record_blocks() {
    let out_path = "target/tmp/show_text.rommy";
    let records = records_of(&run_echo("show-text", out_path));
    let selected = select_records(records.len(), None).expect("selection");
    let stdout = show_text(&records, &selected);
    assert!(stdout.contains("=== Record 1 ==="), "unexpected output: {stdout}");
    assert!(stdout.contains("<<<META>>>"), "unexpected output: {stdout}");
    assert!(stdout.contains("show-text"), "unexpected output: {stdout}");
}

#[test]
fn show_json_outputs_machine_readable_records() {
    let out_path = "target/tmp/show_json.rommy";
    let records = records_of(&run_echo("show-json", out_path));
    let selected = select_records(records.len(), None).expect("selection");
    assert_eq!(selected.len(), 1);
    assert_eq!(selected[0], 1);
    assert_eq!(records[selected[0] - 1].stdout, "show-json");
}

#[test]
fn show_record_selects_single_record() {
    let out_path = "target/tmp/show_record_select.rommy";
    let mut bytes = run_echo("first-show", out_path);
    bytes.extend(run_echo("second-show", out_path));
    let records = records_of(&bytes);
    let selected = select_records(records.len(), Some(2)).expect("selection");
    let stdout = show_text(&records, &selected);
    assert!(stdout.contains("=== Record 2 ==="), "expected selected record header, got: {stdout}");
    assert!(stdout.contains("second-show"), "expected second record output, got: {stdout}");
    assert!(!stdout.contains("first-show"), "should not include first record output, got: {stdout}");
}

#[test]
fn show_record_out_of_range_fails() {
    let out_path = "target/tmp/show_record_range.rommy";
    let records = records_of(&run_echo("one-record", out_path));
    let err = select_records(records.len(), Some(2)).expect_err("show should fail for invalid index");
    let stderr = err.message(out_path);
    assert!(stderr.contains("out of range"), "expected out-of-range message, got: {stderr}");
    assert_eq!(stderr, "--record 2 is out of range (1..=1)");
}

#[test]
fn show_selection_errors() {
    assert_eq!(select_records(0, None), Err(ShowError::NoRecords));
    assert_eq!(select_records(3, Some(0)), Err(ShowError::RecordZero));
    assert_eq!(select_records(3, Some(4)), Err(ShowError::OutOfRange { record: 4, len: 3 }));
    assert_eq!(select_records(3, Some(3)), Ok(vec![3]));
    assert_eq!(select_records(3, None), Ok(vec![1, 2, 3]));
    assert_eq!(ShowError::NoRecords.message("a.rommy"), "No records found in a.rommy");
    assert_eq!(ShowError::RecordZero.message("a.rommy"), "--record must be >= 1");
}

#[test]
fn record_text_exact() {
    let sample = "<<<META>>>\nz: 1\na: 2\n<<<END>>>\n<<<COMMAND>>>\n$ x\n<<<END>>>\n<<<STDOUT>>>\n<<<END>>>\n<<<STDERR>>>\ne1\ne2\n<<<END>>>\n";
    let records = parse_str(sample).unwrap();
    assert_eq!(
        print_record_text(7, &records[0]),
        "=== Record 7 ===\n<<<META>>>\na: 2\nz: 1\n<<<END>>>\n<<<COMMAND>>>\n$ x\n<<<END>>>\n<<<STDOUT>>>\n<<<END>>>\n<<<STDERR>>>\ne1\ne2\n<<<END>>>\n"
    );
}

#[test]
fn show_text_separates_records() {
    let mut bytes = run_echo("a", "o.rommy");
    bytes.extend(run_echo("b", "o.rommy"));
    let records = records_of(&bytes);
    let text = show_text(&records, &vec![1, 2]);
    assert!(text.contains("<<<END>>>\n\n=== Record 2 ==="));
    assert!(text.starts_with("=== Record 1 ===\n"));
}
