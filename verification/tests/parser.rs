use rommy::parser::parse_str;

#[test]
fn parse_single_record() {
    let sample = r#"<<<META>>>
rommy_version: 0.1.0
cwd: /home/ollie
status: ok
exit_code: 0
<<<END>>>
<<<COMMAND>>>
$ echo Hello
<<<END>>>
<<<STDOUT>>>
Hello
<<<END>>>
<<<STDERR>>>
<<<END>>>
"#;

    let recs = parse_str(sample).expect("parse failed");
    assert_eq!(recs.len(), 1);
    let r = &recs[0];
    assert_eq!(r.meta.get("status").map(String::as_str), Some("ok"));
    assert_eq!(r.meta.get("exit_code").map(String::as_str), Some("0"));
    assert!(r.stderr.is_empty());
    assert!(r.stdout.contains("Hello"));
    assert!(r.command.contains("echo Hello"));
}

#[test]
fn parse_two_records_appended() {
    let sample = r#"<<<META>>>
rommy_version: 0.1.0
status: ok
exit_code: 0
<<<END>>>
<<<COMMAND>>>
$ echo A
<<<END>>>
<<<STDOUT>>>
A
<<<END>>>
<<<STDERR>>>
<<<END>>>
<<<META>>>
rommy_version: 0.1.0
status: error
exit_code: 2
<<<END>>>
<<<COMMAND>>>
$ echo B 1>&2
<<<END>>>
<<<STDOUT>>>
<<<END>>>
<<<STDERR>>>
B
<<<END>>>
"#;

    let recs = parse_str(sample).expect("parse failed");
    assert_eq!(recs.len(), 2);

    assert_eq!(recs[0].meta.get("status").map(String::as_str), Some("ok"));
    assert_eq!(recs[0].stdout.trim(), "A");
    assert!(recs[0].stderr.trim().is_empty());

    assert_eq!(
        recs[1].meta.get("status").map(String::as_str),
        Some("error")
    );
    assert_eq!(recs[1].meta.get("exit_code").map(String::as_str), Some("2"));
    assert_eq!(recs[1].stderr.trim(), "B");
    assert!(recs[1].stdout.trim().is_empty());
}

#[test]
fn parse_incomplete_record_fails() {
    let sample = r#"<<<META>>>
rommy_version: 0.1.0
status: ok
exit_code: 0
<<<END>>>
<<<COMMAND>>>
$ echo A
<<<END>>>
<<<STDOUT>>>
A
<<<END>>>
"#;

    let err = parse_str(sample).expect_err("parse should fail for incomplete record");
    let msg = err.to_string();
    assert!(
        msg.contains("missing block(s): STDERR"),
        "unexpected parser error: {msg}"
    );
}

#[test]
fn parse_error_variants() {
    use_errors();
}

fn err_of(s: &str) -> String {
    parse_str(s).expect_err("should fail").to_string()
}

fn use_errors() {
    assert_eq!(err_of("hello\n"), "line 1: text outside of a block");
    assert_eq!(err_of("\n<<<END>>>\n"), "line 2: <<<END>>> without an open block");
    assert_eq!(err_of("<<<STDOUT>>>\n"), "line 1: block STDOUT before the first META block");
    assert_eq!(
        err_of("<<<META>>>\n<<<STDOUT>>>\n<<<END>>>\n<<<STDOUT>>>\n"),
        "line 4: duplicate block STDOUT"
    );
    assert_eq!(err_of("<<<META>>>\nno colon here\n"), "line 2: META line is not of the form `key: value`");
    assert_eq!(err_of("<<<META>>>\n  : empty key\n"), "line 2: META line is not of the form `key: value`");
    assert_eq!(err_of("<<<META>>>\n<<<END>>>\n<<<COMMAND>>>\nx"), "block COMMAND is not closed by <<<END>>>");
    assert_eq!(
        err_of("<<<META>>>\n<<<END>>>\n"),
        "record 1: missing block(s): COMMAND, STDOUT, STDERR"
    );
    assert_eq!(
        err_of("<<<META>>>\n<<<END>>>\n<<<COMMAND>>>\n<<<END>>>\n<<<STDOUT>>>\n<<<END>>>\n<<<STDERR>>>\n<<<END>>>\n<<<META>>>\n<<<END>>>\n<<<STDOUT>>>\n<<<END>>>\n"),
        "record 2: missing block(s): COMMAND, STDERR"
    );
}

#[test]
fn parse_empty_text_has_no_records() {
    assert_eq!(parse_str("").unwrap().len(), 0);
    assert_eq!(parse_str("\n\n  \n").unwrap().len(), 0);
}

#[test]
fn parse_readme_layout_without_inner_end_lines() {
    let sample = "<<<META>>>\ntimestamp: 2025-10-22T15:30:45Z\nexit_code: 0\nduration_ms: 11234\n<<<COMMAND>>>\n$ cargo test\n<<<STDOUT>>>\nrunning 3 tests\ntest result: ok. 3 passed; 0 failed;\n<<<STDERR>>>\n<<<END>>>\n";
    let recs = parse_str(sample).expect("parse failed");
    assert_eq!(recs.len(), 1);
    assert_eq!(recs[0].command, "$ cargo test");
    assert_eq!(recs[0].stdout, "running 3 tests\ntest result: ok. 3 passed; 0 failed;");
    assert_eq!(recs[0].meta.get("duration_ms").map(String::as_str), Some("11234"));
}

#[test]
fn parse_keeps_block_text_and_crlf_markers() {
    let sample = "<<<META>>>\r\nk:  v  \r\nk: w\r\n<<<END>>>\r\n<<<COMMAND>>>\r\n\r\n  x\r\n<<<END>>>\r\n<<<STDOUT>>>\r\n<<<END>>>\r\n<<<STDERR>>>\r\n<<<END>>>\r\n";
    let recs = parse_str(sample).expect("parse failed");
    assert_eq!(recs[0].meta.get("k").map(String::as_str), Some("w"));
    assert_eq!(recs[0].meta.len(), 1);
    assert_eq!(recs[0].command, "\r\n  x\r");
}

#[test]
fn meta_insert_and_get() {
    let mut m = rommy::meta::Meta::new();
    m.insert("b".to_string(), "2".to_string());
    m.insert("a".to_string(), "1".to_string());
    m.insert("b".to_string(), "3".to_string());
    assert_eq!(m.len(), 2);
    assert_eq!(m.get("a").map(String::as_str), Some("1"));
    assert_eq!(m.get("b").map(String::as_str), Some("3"));
    assert_eq!(m.get("c"), None);
    let keys: Vec<&str> = m.entries().iter().map(|(k, _)| k.as_str()).collect();
    assert_eq!(keys, vec!["a", "b"]);
}
