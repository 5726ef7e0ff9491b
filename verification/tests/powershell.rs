use shellhist::powershell::{parse, parse_text};
use shellhist::Shell;

#[test]
fn plain_lines_become_entries_without_timestamps() {
    let e = parse(b"Get-Process\nGet-ChildItem\n");
    assert_eq!(e.len(), 2);
    assert_eq!(e[0].command, "Get-Process");
    assert!(e.iter().all(|x| x.timestamp.is_none()));
    assert_eq!(e[0].shell, Shell::PowerShell);
}

#[test]
fn leading_bom_is_stripped() {
    let e = parse(b"\xEF\xBB\xBFGet-Process\n");
    assert_eq!(e.len(), 1);
    assert_eq!(e[0].command, "Get-Process");
}

#[test]
fn backtick_continuation_rejoins_a_multiline_command() {
    let e = parse(b"Get-Process |`\nWhere-Object CPU -gt 1\nls\n");
    assert_eq!(e.len(), 2);
    assert_eq!(e[0].command, "Get-Process |\nWhere-Object CPU -gt 1");
    assert_eq!(e[1].command, "ls");
}

#[test]
fn powershell_empty_input_yields_no_entries() {
    assert!(parse(b"").is_empty());
}

#[test]
fn doubled_backtick_is_a_literal() {
    let e = parse_text("Write-Host ``\nls");
    assert_eq!(e.len(), 2);
    assert_eq!(e[0].command, "Write-Host ``");
    assert_eq!(e[1].command, "ls");
}

#[test]
fn trailing_continuation_at_end_of_file_is_kept() {
    let e = parse_text("a`\nb`");
    assert_eq!(e.len(), 1);
    assert_eq!(e[0].command, "a\nb");
    // A lone continued empty line yields nothing.
    assert!(parse_text("`").is_empty());
}

#[test]
fn carriage_returns_are_kept_in_powershell_lines() {
    let e = parse_text("ls\r\n");
    assert_eq!(e.len(), 1);
    assert_eq!(e[0].command, "ls\r");
}
