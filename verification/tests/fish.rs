use shellhist::fish::{parse, parse_text, unescape};
use shellhist::Shell;

#[test]
fn unescape_reverses_only_backslash_and_newline() {
    assert_eq!(unescape(r"a\\b"), r"a\b");
    assert_eq!(unescape(r"line1\nline2"), "line1\nline2");
    assert_eq!(unescape(r"keep\:colon"), r"keep\:colon"); // ':' not an escape
}

#[test]
fn parses_cmd_when_and_paths() {
    let data = b"- cmd: git status\n  when: 1700000000\n  paths:\n    - /repo\n- cmd: ls\n  when: 1700000005\n";
    let e = parse(data);
    assert_eq!(e.len(), 2);
    assert_eq!(e[0].command, "git status");
    assert_eq!(e[0].timestamp, Some(1_700_000_000));
    assert_eq!(e[0].paths, vec!["/repo".to_string()]);
    assert_eq!(e[1].command, "ls");
    assert!(e[1].paths.is_empty());
}

#[test]
fn cmd_with_colon_and_hash_is_kept_verbatim() {
    let e = parse(b"- cmd: echo http://x # note\n  when: 1700000000\n");
    assert_eq!(e.len(), 1);
    assert_eq!(e[0].command, "echo http://x # note");
}

#[test]
fn escaped_newline_in_cmd_is_restored() {
    let e = parse(b"- cmd: echo a\\nb\n  when: 1700000000\n");
    assert_eq!(e[0].command, "echo a\nb");
}

#[test]
fn fish_empty_input_yields_no_entries() {
    assert!(parse(b"").is_empty());
}

#[test]
fn unescape_keeps_a_trailing_lone_backslash() {
    assert_eq!(unescape("end\\"), "end\\");
    assert_eq!(unescape(""), "");
    assert_eq!(unescape("no escapes here"), "no escapes here");
}

#[test]
fn unescape_undoes_fish_escaping() {
    // fish stores `a\b<newline>c` as `a\\b\nc`.
    let original = "a\\b\nc";
    let stored = "a\\\\b\\nc";
    assert_eq!(unescape(stored), original);
}

#[test]
fn when_value_is_trimmed_and_may_be_signed() {
    let e = parse_text("- cmd: a\n  when:  -12 \n- cmd: b\n  when: +7\n- cmd: c\n  when: soon\n");
    assert_eq!(e.len(), 3);
    assert_eq!(e[0].timestamp, Some(-12));
    assert_eq!(e[1].timestamp, Some(7));
    assert_eq!(e[2].timestamp, None);
    assert!(e.iter().all(|x| x.shell == Shell::Fish && x.elapsed.is_none()));
}

#[test]
fn paths_block_ends_at_an_unrelated_line() {
    let e = parse_text("- cmd: cp a b\n  paths:\n    - a\n    - b\nstray\n    - c\n");
    assert_eq!(e.len(), 1);
    assert_eq!(e[0].paths, vec!["a".to_string(), "b".to_string()]);
}

#[test]
fn annotations_before_any_record_are_ignored() {
    let e = parse_text("  when: 5\n  paths:\n    - /x\n- cmd: ls\n");
    assert_eq!(e.len(), 1);
    assert_eq!(e[0].timestamp, None);
    assert!(e[0].paths.is_empty());
}
