use rommy::scratch::{
    editor_wait_args, has_real_content, pick_editor, scratch_dir, scratch_script_path, scratch_template,
    wait_args_for,
};

#[test]
fn editor_choice() {
    let (e, a) = pick_editor(Some("vim".to_string()), Some("emacs".to_string()), false);
    assert_eq!(e, "vim");
    assert!(a.is_empty());
    assert_eq!(pick_editor(None, Some("emacs".to_string()), false).0, "emacs");
    assert_eq!(pick_editor(None, None, false).0, "nano");
    assert_eq!(pick_editor(None, None, true).0, "notepad");
}

#[test]
fn wait_flags() {
    assert_eq!(editor_wait_args("code"), vec!["--wait"]);
    assert_eq!(editor_wait_args("/usr/bin/CODE"), vec!["--wait"]);
    assert_eq!(editor_wait_args("VSCodium"), vec!["--wait"]);
    assert_eq!(editor_wait_args("Subl"), vec!["-w"]);
    assert_eq!(editor_wait_args("gedit"), vec!["--wait"]);
    assert!(editor_wait_args("vim").is_empty());
    assert_eq!(wait_args_for("sublime_text"), vec!["-w"]);
    assert!(wait_args_for("SUBL").is_empty());
}

#[test]
fn real_content() {
    assert!(has_real_content(scratch_template().replace("echo \"Hello from Rommy scratch!\"\n", "").as_str()));
    assert!(!has_real_content("#!/usr/bin/env bash\n# nothing yet\n"));
    assert!(has_real_content(scratch_template()));
    assert!(!has_real_content(""));
    assert!(!has_real_content("  \n\t# only a comment\n\n"));
    assert!(has_real_content("# c\n  ls # list"));
    assert!(has_real_content("\r\nx\r\n"));
}

#[test]
fn scratch_paths() {
    assert_eq!(scratch_dir("/tmp"), "/tmp/rommy");
    assert_eq!(scratch_script_path("/tmp/rommy", 1700000000, 99), "/tmp/rommy/scratch-1700000000-99.sh");
}
