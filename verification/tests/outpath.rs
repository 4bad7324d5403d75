use rommy::clock::{format_hms, format_two_digits, format_year, LocalTime};
use rommy::outpath::{command_token, default_root_dir, home_dir, resolve_auto_out_path, RootEnv, TargetOs};

fn env() -> RootEnv {
    RootEnv { rommy_root: None, xdg_state_home: None, local_app_data: None, user_profile: None, home: None }
}

#[test]
fn command_token_examples() {
    assert_eq!(command_token("$ cargo clippy -q"), "cargo_clippy");
    assert_eq!(command_token("#!/usr/bin/env bash\n<script>"), "bash_script");
    assert_eq!(command_token("$ /usr/bin/env"), "bash_script");
    assert_eq!(command_token("$ 'cargo' 'test'"), "cargo_test");
    assert_eq!(command_token("   "), "cmd");
    assert_eq!(command_token(""), "cmd");
    assert_eq!(command_token("$ $ $ Echo HELLO world"), "echo_hello");
    assert_eq!(command_token("$ /bin/bash -c x"), "bin_bash_c");
    assert_eq!(command_token("$ /bin/bash"), "bash_script");
    assert_eq!(command_token("$ ___ ###"), "cmd");
    assert_eq!(command_token("$ grüße welt"), "gr_e_welt");
    assert_eq!(
        command_token("$ averyveryveryveryverylongcommandname withargs"),
        "averyveryveryveryverylongcommand"
    );
    assert_eq!(command_token("\u{3000}$ ls\u{a0}-la /tmp"), "ls_la");
}

#[test]
fn command_token_shape() {
    for s in ["$ a b", "x", "$ !!! ???", "$ A-B_C d.e", "   tab\tsep  "] {
        let t = command_token(s);
        assert!(!t.is_empty() && t.len() <= 32);
        assert!(t.chars().all(|c| c.is_ascii_lowercase() || c.is_ascii_digit() || c == '_'));
    }
}

#[test]
fn default_root_dir_order() {
    let mut e = env();
    e.home = Some("/home/u".to_string());
    assert_eq!(default_root_dir(&e, TargetOs::Other), "/home/u/.local/state/rommy");
    assert_eq!(default_root_dir(&e, TargetOs::MacOs), "/home/u/Library/Application Support/Rommy");
    e.xdg_state_home = Some("/state".to_string());
    assert_eq!(default_root_dir(&e, TargetOs::Other), "/state/rommy");
    e.rommy_root = Some("/custom".to_string());
    assert_eq!(default_root_dir(&e, TargetOs::Other), "/custom");
}

#[test]
fn default_root_dir_without_home() {
    assert_eq!(default_root_dir(&env(), TargetOs::Other), "~/.local/state/rommy");
}

#[test]
fn default_root_dir_windows() {
    let mut e = env();
    e.user_profile = Some("C:/Users/u".to_string());
    assert_eq!(default_root_dir(&e, TargetOs::Windows), "C:/Users/u/AppData/Local/Rommy");
    e.local_app_data = Some("C:/Local".to_string());
    assert_eq!(default_root_dir(&e, TargetOs::Windows), "C:/Local/Rommy");
}

#[test]
fn home_dir_by_os() {
    let mut e = env();
    e.home = Some("/h".to_string());
    e.user_profile = Some("/p".to_string());
    assert_eq!(home_dir(TargetOs::Other, &e).as_deref(), Some("/h"));
    assert_eq!(home_dir(TargetOs::Windows, &e).as_deref(), Some("/p"));
    e.user_profile = None;
    assert_eq!(home_dir(TargetOs::Windows, &e).as_deref(), Some("/h"));
}

#[test]
fn auto_out_path_layout() {
    let when = LocalTime { year: 2025, month: 10, day: 20, hour: 17, minute: 30, second: 48, nanosecond: 5 };
    let p = resolve_auto_out_path("/root", &when, "$ cargo clippy");
    assert_eq!(p.dir, "/root/2025/10/20");
    assert_eq!(p.path, "/root/2025/10/20/173048.cargo_clippy.rommy");
}

#[test]
fn auto_out_path_pads_fields() {
    let when = LocalTime { year: 987, month: 1, day: 2, hour: 3, minute: 4, second: 5, nanosecond: 0 };
    let p = resolve_auto_out_path("r", &when, "#!/usr/bin/env bash\n<script>");
    assert_eq!(p.dir, "r/0987/01/02");
    assert_eq!(p.path, "r/0987/01/02/030405.bash_script.rommy");
}

#[test]
fn year_formats() {
    assert_eq!(format_year(2025), "2025");
    assert_eq!(format_year(987), "0987");
    assert_eq!(format_year(0), "0000");
    assert_eq!(format_year(-5), "-0005");
    assert_eq!(format_year(-12345), "-12345");
    assert_eq!(format_year(12345), "+12345");
    assert_eq!(format_year(10000), "+10000");
}

#[test]
fn two_digit_fields() {
    assert_eq!(format_two_digits(0), "00");
    assert_eq!(format_two_digits(7), "07");
    assert_eq!(format_two_digits(59), "59");
    let t = LocalTime { year: 2016, month: 12, day: 31, hour: 23, minute: 59, second: 59, nanosecond: 1_000_000_000 };
    assert_eq!(format_hms(&t), "235960");
}

#[test]
fn command_token_ignores_ascii_case() {
    assert_eq!(command_token("$ Cargo CLIPPY -q"), "cargo_clippy");
    assert_eq!(command_token("$ CARGO clippy"), command_token("$ cargo clippy"));
    assert_eq!(command_token("#!/USR/BIN/ENV BASH\n<SCRIPT>"), "bash_script");
}

#[test]
fn command_token_first_two_words_only() {
    assert_eq!(command_token("$ cargo test --all --verbose"), command_token("$ cargo test"));
    assert_eq!(command_token("  echo hi   there "), "echo_hi");
}

#[test]
fn command_token_underscores() {
    assert_eq!(command_token("$ a--b c"), "a_b_c");
    assert_eq!(command_token("$ __x__"), "x");
    assert_eq!(command_token("$ -- ++"), "cmd");
    let t = command_token("$ aaaaaaaaaaaaaaaaaaaaaaaaaaaaaaa-b");
    assert_eq!(t.len(), 32);
    assert_eq!(t, "aaaaaaaaaaaaaaaaaaaaaaaaaaaaaaa_");
}
