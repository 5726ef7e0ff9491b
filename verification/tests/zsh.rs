use shellhist::zsh::{is_extended_line, parse, parse_text};
use shellhist::Shell;

#[test]
fn extended_prefix_is_recognized() {
    assert!(is_extended_line(": 1700000000:3;sleep 3"));
    assert!(!is_extended_line("plain command"));
    assert!(!is_extended_line(": notanumber:0;x"));
}

#[test]
fn extended_entry_carries_start_and_elapsed() {
    let e = parse(b": 1700000000:3;sleep 3\n: 1700000010:0;ls\n");
    assert_eq!(e.len(), 2);
    assert_eq!(e[0].timestamp, Some(1_700_000_000));
    assert_eq!(e[0].elapsed, Some(3));
    assert_eq!(e[0].command, "sleep 3");
    assert_eq!(e[1].elapsed, Some(0));
}

#[test]
fn plain_zsh_history_has_no_timestamps() {
    let e = parse(b"ls\ncd /tmp\n");
    assert_eq!(e.len(), 2);
    assert!(e
        .iter()
        .all(|x| x.timestamp.is_none() && x.elapsed.is_none()));
}

#[test]
fn backslash_continuation_rejoins_a_multiline_command() {
    let e = parse(b": 1700000000:0;echo a\\\nb\n: 1700000001:0;ls\n");
    assert_eq!(e.len(), 2);
    assert_eq!(e[0].command, "echo a\nb");
    assert_eq!(e[1].command, "ls");
}

#[test]
fn a_command_containing_a_semicolon_keeps_it() {
    let e = parse(b": 1700000000:0;echo a; echo b\n");
    assert_eq!(e.len(), 1);
    assert_eq!(e[0].command, "echo a; echo b");
}

#[test]
fn zsh_empty_input_yields_no_entries() {
    assert!(parse(b"").is_empty());
}

#[test]
fn extended_prefix_needs_both_numbers() {
    assert!(!is_extended_line(": 1700000000;ls"));
    assert!(!is_extended_line(": :0;ls"));
    assert!(!is_extended_line(": 1:;ls"));
    assert!(!is_extended_line(":1:0;ls"));
    assert!(is_extended_line(": 1:0;"));
}

#[test]
fn overflowing_digit_run_still_has_the_extended_shape() {
    let line = ": 99999999999999999999:0;ls";
    assert!(is_extended_line(line));
    assert_eq!(shellhist::detect(line.as_bytes(), None), Shell::Zsh);
    // The start time does not fit in an i64, so the line is read as a plain command.
    let e = parse_text(line);
    assert_eq!(e.len(), 1);
    assert_eq!(e[0].command, line);
    assert_eq!(e[0].timestamp, None);
    assert_eq!(e[0].elapsed, None);
}

#[test]
fn even_backslash_run_is_a_literal_not_a_continuation() {
    let e = parse_text(": 1:0;echo a\\\\\n: 2:0;ls\n");
    assert_eq!(e.len(), 2);
    assert_eq!(e[0].command, "echo a\\\\");
    assert_eq!(e[1].timestamp, Some(2));
}

#[test]
fn open_continuation_at_end_of_file_is_kept() {
    let e = parse_text(": 5:1;tail\\");
    assert_eq!(e.len(), 1);
    assert_eq!(e[0].command, "tail");
    assert_eq!(e[0].shell, Shell::Zsh);
}

#[test]
fn extended_line_with_empty_command_is_an_entry() {
    let e = parse_text(": 5:1;\n\n");
    assert_eq!(e.len(), 1);
    assert_eq!(e[0].command, "");
    assert_eq!(e[0].timestamp, Some(5));
    assert_eq!(e[0].elapsed, Some(1));
}
