use shellhist::{detect, detect_text, parse, parse_auto, strip_bom, HistoryEntry, Shell};

#[test]
fn strip_bom_removes_only_a_leading_bom() {
    assert_eq!(strip_bom(b"\xEF\xBB\xBFhi"), b"hi");
    assert_eq!(strip_bom(b"hi"), b"hi");
}

#[test]
fn detect_zsh_by_extended_line() {
    assert_eq!(detect(b": 1700000000:0;ls", None), Shell::Zsh);
}

#[test]
fn detect_bash_by_timestamp_line() {
    assert_eq!(detect(b"#1700000000\nls\n", None), Shell::Bash);
}

#[test]
fn detect_fish_by_cmd_record() {
    assert_eq!(
        detect(b"- cmd: ls\n  when: 1700000000\n", None),
        Shell::Fish
    );
}

#[test]
fn detect_powershell_by_filename_when_content_is_plain() {
    assert_eq!(
        detect(b"Get-Process\nls\n", Some("ConsoleHost_history.txt")),
        Shell::PowerShell
    );
}

#[test]
fn detect_falls_back_to_unknown_for_plain_unnamed() {
    assert_eq!(detect(b"ls\ncd /tmp\n", None), Shell::Unknown);
}

#[test]
fn parse_auto_unknown_is_plain_lines() {
    let e = parse_auto(b"ls\ncd /tmp\n", None);
    assert_eq!(e.len(), 2);
    assert_eq!(e[0].command, "ls");
    assert_eq!(e[1].timestamp, None);
}

#[test]
fn content_beats_the_filename() {
    assert_eq!(detect(b": 1:0;ls\n", Some(".bash_history")), Shell::Zsh);
    assert_eq!(detect(b"#5\nls\n", Some("ConsoleHost_history.txt")), Shell::Bash);
}

#[test]
fn filenames_are_matched_case_insensitively() {
    assert_eq!(detect(b"ls\n", Some("/home/u/.ZSH_HISTORY")), Shell::Zsh);
    assert_eq!(detect(b"ls\n", Some("fish_history")), Shell::Fish);
    assert_eq!(detect(b"ls\n", Some(".Bash_History")), Shell::Bash);
    assert_eq!(detect(b"ls\n", Some("PSReadLine/x.txt")), Shell::PowerShell);
    assert_eq!(detect(b"ls\n", Some("notes.txt")), Shell::Unknown);
}

#[test]
fn only_the_first_two_hundred_lines_are_sniffed() {
    let mut text = String::new();
    for _ in 0..200 {
        text.push_str("ls\n");
    }
    text.push_str(": 1:0;late\n");
    assert_eq!(detect_text(&text, None), Shell::Unknown);
    let mut text = String::new();
    for _ in 0..199 {
        text.push_str("ls\n");
    }
    text.push_str(": 1:0;late\n");
    assert_eq!(detect_text(&text, None), Shell::Zsh);
}

#[test]
fn parse_dispatches_on_the_shell() {
    let data = b": 1:2;ls\n";
    let z = parse(data, Shell::Zsh);
    assert_eq!(z[0].command, "ls");
    assert_eq!(z[0].elapsed, Some(2));
    let b = parse(data, Shell::Bash);
    assert_eq!(b[0].command, ": 1:2;ls");
    assert_eq!(parse(data, Shell::Unknown), b);
    let p = parse(data, Shell::PowerShell);
    assert_eq!(p[0].shell, Shell::PowerShell);
    assert!(parse(data, Shell::Fish).is_empty());
}

#[test]
fn a_bom_does_not_change_what_is_read() {
    let with_bom = parse_auto(b"\xEF\xBB\xBF: 3:1;make\n", None);
    let without = parse_auto(b": 3:1;make\n", None);
    assert_eq!(with_bom, without);
}

#[test]
fn parse_auto_reads_zsh_readme_example() {
    let entries: Vec<HistoryEntry> = parse_auto(b": 1700000000:5;make build\n", None);
    assert_eq!(entries[0].command, "make build");
    assert_eq!(entries[0].elapsed, Some(5));
}

#[test]
fn plain_constructor_sets_only_shell_and_command() {
    let e = HistoryEntry::plain(Shell::Fish, &['l', 's']);
    assert_eq!(e.shell, Shell::Fish);
    assert_eq!(e.command, "ls");
    assert_eq!(e.timestamp, None);
    assert_eq!(e.elapsed, None);
    assert!(e.paths.is_empty());
}
