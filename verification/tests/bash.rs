use shellhist::bash::{parse, parse_text, parse_timestamp_line};
use shellhist::Shell;

#[test]
fn timestamp_line_requires_hash_then_only_digits() {
    assert_eq!(parse_timestamp_line("#1700000000"), Some(1_700_000_000));
    assert_eq!(parse_timestamp_line("#0"), Some(0));
    assert_eq!(parse_timestamp_line("# 1700"), None); // space after #
    assert_eq!(parse_timestamp_line("#abc"), None);
    assert_eq!(parse_timestamp_line("echo #1700"), None);
    assert_eq!(parse_timestamp_line("#"), None);
}

#[test]
fn plain_history_is_one_command_per_line() {
    let e = parse(b"ls -la\ncd /tmp\nwhoami\n");
    assert_eq!(e.len(), 3);
    assert_eq!(e[0].command, "ls -la");
    assert!(e.iter().all(|x| x.timestamp.is_none()));
}

#[test]
fn timestamped_history_pairs_each_command_with_its_epoch() {
    let e = parse(b"#1700000000\nls\n#1700000005\nwhoami\n");
    assert_eq!(e.len(), 2);
    assert_eq!(e[0].timestamp, Some(1_700_000_000));
    assert_eq!(e[0].command, "ls");
    assert_eq!(e[1].timestamp, Some(1_700_000_005));
    assert_eq!(e[1].command, "whoami");
}

#[test]
fn multiline_command_keeps_embedded_newlines_under_one_timestamp() {
    let e = parse(b"#1700000000\nfor i in 1 2\ndo echo $i\ndone\n#1700000009\nls\n");
    assert_eq!(e.len(), 2);
    assert_eq!(e[0].command, "for i in 1 2\ndo echo $i\ndone");
    assert_eq!(e[0].timestamp, Some(1_700_000_000));
    assert_eq!(e[1].command, "ls");
}

#[test]
fn bash_empty_input_yields_no_entries() {
    assert!(parse(b"").is_empty());
    assert!(parse(b"\n\n").is_empty());
}

#[test]
fn timestamp_line_rejects_values_beyond_i64() {
    assert_eq!(parse_timestamp_line("#9223372036854775807"), Some(i64::MAX));
    assert_eq!(parse_timestamp_line("#9223372036854775808"), None);
    assert_eq!(parse_timestamp_line("#-5"), None);
    assert_eq!(parse_timestamp_line("#00042"), Some(42));
}

#[test]
fn plain_lines_before_the_first_marker_stay_separate() {
    let e = parse(b"early\n\nalso early\n#100\nlate one\nlate two\n");
    assert_eq!(e.len(), 3);
    assert_eq!(e[0].command, "early");
    assert_eq!(e[0].timestamp, None);
    assert_eq!(e[1].command, "also early");
    assert_eq!(e[2].command, "late one\nlate two");
    assert_eq!(e[2].timestamp, Some(100));
    assert!(e.iter().all(|x| x.shell == Shell::Bash && x.elapsed.is_none() && x.paths.is_empty()));
}

#[test]
fn marker_with_no_command_or_one_blank_line_is_dropped() {
    let e = parse(b"#1\n#2\n\n#3\nls\n");
    assert_eq!(e.len(), 1);
    assert_eq!(e[0].command, "ls");
    assert_eq!(e[0].timestamp, Some(3));
    // Two blank lines join into a single newline, which is kept.
    let e = parse(b"#1\n\n\n");
    assert_eq!(e.len(), 1);
    assert_eq!(e[0].command, "\n");
}

#[test]
fn crlf_line_endings_are_removed() {
    let e = parse_text("#7\r\nls\r\nwhoami\r\n");
    assert_eq!(e.len(), 1);
    assert_eq!(e[0].command, "ls\nwhoami");
    assert_eq!(e[0].timestamp, Some(7));
}

#[test]
fn invalid_utf8_is_replaced_not_rejected() {
    let e = parse(b"echo \xFF\xFEok\n");
    assert_eq!(e.len(), 1);
    assert_eq!(e[0].command, "echo \u{FFFD}\u{FFFD}ok");
}
