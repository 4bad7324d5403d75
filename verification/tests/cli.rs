use rommy::cli::{
    bash_args_for_script, bash_line_for_command, color_is_enabled, colorize_stderr_chunk, command_source,
    lock_file_name, lock_path, malformed_env_warning, missing_command_message, output_dir, parse_env_pair, rommy_note_cyan, shell_escape,
    shell_join, temp_file_name, temp_out_path, wrote_message, ColorChoice, ColorEnv, CommandSource, RunConfig,
};

fn run_config() -> RunConfig {
    RunConfig {
        out: None,
        cwd: None,
        envs: Vec::new(),
        append: false,
        label: None,
        script: None,
        no_stream: false,
        cmd: Vec::new(),
        color: ColorChoice::Auto,
    }
}

fn color_env() -> ColorEnv {
    ColorEnv {
        no_color: false,
        clicolor_force: false,
        clicolor: None,
        stderr_is_terminal: false,
        stdout_is_terminal: false,
    }
}

#[test]
fn shell_escape_quotes() {
    assert_eq!(shell_escape("abc"), "'abc'");
    assert_eq!(shell_escape(""), "''");
    assert_eq!(shell_escape("it's"), "'it'\\''s'");
    assert_eq!(shell_escape("a b;$x"), "'a b;$x'");
}

#[test]
fn shell_escape_keeps_non_ascii() {
    assert_eq!(shell_escape("é"), "'é'");
    assert_eq!(shell_join(&vec!["grüße".to_string(), "".to_string(), "x".to_string()]), "'grüße' '' 'x'");
}

#[test]
fn shell_join_words() {
    let parts = vec!["echo".to_string(), "a b".to_string(), "it's".to_string()];
    assert_eq!(shell_join(&parts), "'echo' 'a b' 'it'\\''s'");
    assert_eq!(shell_join(&Vec::new()), "");
    assert_eq!(shell_join(&vec!["echo".to_string(), "show-text".to_string()]), "'echo' 'show-text'");
}

#[test]
fn bash_arguments() {
    assert_eq!(bash_args_for_script("/s.sh"), vec!["-Eeuo", "pipefail", "/s.sh"]);
    assert_eq!(bash_line_for_command(&vec!["ls".to_string()]).as_deref(), Some("'ls'"));
    assert_eq!(bash_line_for_command(&Vec::new()), None);
    assert_eq!(missing_command_message(), "Provide either --script <file> or a command after --");
}

#[test]
fn command_sources() {
    let mut c = run_config();
    assert_eq!(command_source(&c), CommandSource::Editor);
    c.cmd = vec!["ls".to_string()];
    assert_eq!(command_source(&c), CommandSource::CommandLine);
    c.script = Some("x.sh".to_string());
    assert_eq!(command_source(&c), CommandSource::ScriptFile);
}

#[test]
fn env_pairs() {
    assert_eq!(parse_env_pair("A=1"), Some(("A".to_string(), "1".to_string())));
    assert_eq!(parse_env_pair("A=1=2"), Some(("A".to_string(), "1=2".to_string())));
    assert_eq!(parse_env_pair("=x"), Some((String::new(), "x".to_string())));
    assert_eq!(parse_env_pair("noequals"), None);
}

#[test]
fn lock_and_temp_paths() {
    assert_eq!(lock_file_name("out.rommy"), ".out.rommy.lock");
    assert_eq!(lock_path("target/tmp/x.rommy"), "target/tmp/.x.rommy.lock");
    assert_eq!(lock_path("x.rommy"), ".x.rommy.lock");
    assert_eq!(lock_path("/"), "/.rommy.rommy.lock");
    assert_eq!(temp_file_name("x.rommy", 42, 7), ".x.rommy.42.7.tmp");
    assert_eq!(temp_out_path("d/x.rommy", 1, 1234567890123), "d/.x.rommy.1.1234567890123.tmp");
}

#[test]
fn colors() {
    let mut e = color_env();
    assert!(!color_is_enabled(ColorChoice::Auto, &e));
    assert!(color_is_enabled(ColorChoice::Always, &e));
    assert!(!color_is_enabled(ColorChoice::Never, &e));
    e.stderr_is_terminal = true;
    assert!(color_is_enabled(ColorChoice::Auto, &e));
    e.clicolor = Some("0".to_string());
    assert!(!color_is_enabled(ColorChoice::Auto, &e));
    e.clicolor = Some("1".to_string());
    assert!(color_is_enabled(ColorChoice::Auto, &e));
    e.clicolor_force = true;
    e.stderr_is_terminal = false;
    e.clicolor = Some("0".to_string());
    assert!(color_is_enabled(ColorChoice::Auto, &e));
    e.no_color = true;
    assert!(!color_is_enabled(ColorChoice::Always, &e));
}

#[test]
fn notes_and_chunks() {
    assert_eq!(rommy_note_cyan(true, "Wrote x"), "\x1b[36mWrote x\x1b[0m");
    assert_eq!(rommy_note_cyan(false, "Wrote x"), "Wrote x");
    assert_eq!(wrote_message("a.rommy"), "Wrote a.rommy");
    assert_eq!(colorize_stderr_chunk(true, b"e"), b"\x1b[33me\x1b[0m".to_vec());
    assert_eq!(colorize_stderr_chunk(false, b"e"), b"e".to_vec());
}

#[test]
fn lock_and_temp_beside_output() {
    assert_eq!(output_dir("target/tmp/x.rommy").as_deref(), Some("target/tmp"));
    assert_eq!(output_dir("x.rommy").as_deref(), Some(""));
    assert_eq!(output_dir("/").as_deref(), None);
    let l = lock_path("d/x.rommy");
    let t = temp_out_path("d/x.rommy", 3, 4);
    assert_eq!(output_dir(&l), output_dir("d/x.rommy"));
    assert_eq!(output_dir(&t), output_dir("d/x.rommy"));
    assert_ne!(l, t);
    assert_ne!(lock_path("d/a.rommy"), lock_path("d/b.rommy"));
    assert_eq!(lock_path("d/a.rommy"), lock_path("d/a.rommy"));
}

#[test]
fn env_warning_text() {
    assert_eq!(malformed_env_warning("FOO"), "WARN: ignoring malformed --env 'FOO', expected KEY=VALUE");
}
