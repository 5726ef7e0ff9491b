//! Graded anomaly auditor over shell command history.
//!
//! Consumes [`HistoryEntry`] streams and reports [`HistAnomaly`]s. Every anomaly
//! is an **observation** ("consistent with …"); the examiner draws the
//! conclusions. MITRE techniques are narrated as consistency, never as a verdict.
//! The matchers are deliberately simple substring and suffix checks over the
//! ASCII-lowercased command.

use vstd::prelude::*;

use crate::text::{
    ascii_lower, ascii_lower_chars, chars_of, contains, contains_str, ends_with, has_suffix,
    occurs_at, starts_with, string_of,
};
use crate::{entry_views, EntryView, HistoryEntry};

verus! {

/// Severity of a finding (`Info` < `Low` < `Medium` < `High` < `Critical`), as
/// the fleet's report model grades it.
#[derive(Debug, Clone, Copy, PartialEq, Eq, Hash, Structural)]
pub enum Severity {
    Info,
    Low,
    Medium,
    High,
    Critical,
}

/// The analytical lens a finding belongs to, as the fleet's report model names it.
#[derive(Debug, Clone, Copy, PartialEq, Eq, Hash, Structural)]
pub enum Category {
    Integrity,
    Structure,
    Residue,
    Provenance,
    History,
    Concealment,
    Threat,
}

/// A graded shell-history anomaly.
#[derive(Debug, Clone, PartialEq, Eq)]
pub enum HistAnomaly {
    /// A surviving command that disables or clears history (the clearing itself
    /// was recorded). MITRE T1070.003.
    HistoryDisabled { command: String },
    /// A timestamped entry whose epoch precedes its predecessor's — non-monotonic
    /// history, consistent with injected or back-dated entries.
    TimestampRegression { at: i64, previous: i64 },
    /// A download piped straight into a shell interpreter. MITRE T1059 / T1105.
    RemoteExecPipe { command: String },
    /// A PowerShell encoded/obfuscated command line. MITRE T1059.001 / T1027.
    PwshEncodedCommand { command: String },
}

/// The mathematical value of a [`HistAnomaly`].
pub enum AnomalyView {
    HistoryDisabled { command: Seq<char> },
    TimestampRegression { at: i64, previous: i64 },
    RemoteExecPipe { command: Seq<char> },
    PwshEncodedCommand { command: Seq<char> },
}

impl View for HistAnomaly {
    type V = AnomalyView;

    open spec fn view(&self) -> AnomalyView {
        match self {
            HistAnomaly::HistoryDisabled { command } => AnomalyView::HistoryDisabled {
                command: command@,
            },
            HistAnomaly::TimestampRegression { at, previous } => AnomalyView::TimestampRegression {
                at: *at,
                previous: *previous,
            },
            HistAnomaly::RemoteExecPipe { command } => AnomalyView::RemoteExecPipe {
                command: command@,
            },
            HistAnomaly::PwshEncodedCommand { command } => AnomalyView::PwshEncodedCommand {
                command: command@,
            },
        }
    }
}

pub open spec fn anomaly_views(a: Seq<HistAnomaly>) -> Seq<AnomalyView> {
    a.map_values(|x: HistAnomaly| x@)
}

/// The stable, published code of each anomaly kind.
pub open spec fn anomaly_code(a: AnomalyView) -> Seq<char> {
    match a {
        AnomalyView::HistoryDisabled { .. } => "SHELLHIST-HISTORY-DISABLED"@,
        AnomalyView::TimestampRegression { .. } => "SHELLHIST-TIMESTAMP-REGRESSION"@,
        AnomalyView::RemoteExecPipe { .. } => "SHELLHIST-REMOTE-EXEC-PIPE"@,
        AnomalyView::PwshEncodedCommand { .. } => "SHELLHIST-PWSH-ENCODED-CMD"@,
    }
}

/// The lens of each anomaly kind.
pub open spec fn anomaly_category(a: AnomalyView) -> Category {
    match a {
        AnomalyView::HistoryDisabled { .. } => Category::Concealment,
        AnomalyView::TimestampRegression { .. } => Category::Integrity,
        AnomalyView::RemoteExecPipe { .. } => Category::Threat,
        AnomalyView::PwshEncodedCommand { .. } => Category::Threat,
    }
}

/// Rust's `Debug` rendering of a string (quoted, with escapes).
pub uninterp spec fn debug_repr(s: Seq<char>) -> Seq<char>;

/// `format!("{:?}", s)`: the string's `Debug` rendering. What the rendering is
/// (quoting and escaping rules) is left to the name.
#[verifier::external_body]
fn debug_text(s: &str) -> (r: String)
    ensures
        r@ == debug_repr(s@),
{
    format!("{:?}", s)
}

/// The ASCII digit for `d < 10`.
pub open spec fn digit_char(d: nat) -> char {
    (d + 48) as char
}

/// The decimal digits of `n`, most significant first, without leading zeros.
pub open spec fn digits_of(n: nat) -> Seq<char>
    decreases n,
{
    if n < 10 {
        seq![digit_char(n)]
    } else {
        digits_of(n / 10).push(digit_char(n % 10))
    }
}

/// `i64`'s `Display`: a `-` for negatives, then the digits of the magnitude.
pub open spec fn decimal_repr(v: int) -> Seq<char> {
    if v < 0 {
        seq!['-'] + digits_of((-v) as nat)
    } else {
        digits_of(v as nat)
    }
}

fn push_digits(out: &mut Vec<char>, n: u64)
    ensures
        final(out)@ == old(out)@ + digits_of(n as nat),
    decreases n,
{
    if n >= 10 {
        push_digits(out, n / 10);
    }
    let d: u8 = (n % 10) as u8;
    out.push((d + 48) as char);
    assert(final(out)@ =~= old(out)@ + digits_of(n as nat));
}

fn push_decimal(out: &mut Vec<char>, v: i64)
    ensures
        final(out)@ == old(out)@ + decimal_repr(v as int),
{
    if v < 0 {
        out.push('-');
        let m: u64 = if v == -0x7fff_ffff_ffff_ffff - 1 {
            0x8000_0000_0000_0000
        } else {
            (-v) as u64
        };
        push_digits(out, m);
        assert(final(out)@ =~= old(out)@ + decimal_repr(v as int));
    } else {
        push_digits(out, v as u64);
    }
}

fn push_str(out: &mut Vec<char>, s: &str)
    ensures
        final(out)@ == old(out)@ + s@,
{
    let cs = chars_of(s);
    let mut i: usize = 0;
    let ghost base = out@;
    while i < cs.len()
        invariant
            i <= cs@.len(),
            out@ =~= base + cs@.take(i as int),
        decreases cs.len() - i,
    {
        out.push(cs[i]);
        i = i + 1;
    }
    assert(cs@.take(cs@.len() as int) =~= cs@);
}

/// The human-readable observation of each anomaly, always phrased as
/// "consistent with", never as a verdict.
pub open spec fn anomaly_note(a: AnomalyView) -> Seq<char> {
    match a {
        AnomalyView::HistoryDisabled { command } => "the command "@ + debug_repr(command)
            + " disables or clears shell history; consistent with anti-forensic history tampering (MITRE T1070.003)"@,
        AnomalyView::TimestampRegression { at, previous } => "an entry timestamped "@
            + decimal_repr(at as int) + " follows one timestamped "@ + decimal_repr(
            previous as int,
        ) + " (history went backwards in time); consistent with injected or back-dated entries"@,
        AnomalyView::RemoteExecPipe { command } => "the command "@ + debug_repr(command)
            + " downloads and pipes content directly into a shell; consistent with remote payload execution (MITRE T1059 / T1105)"@,
        AnomalyView::PwshEncodedCommand { command } => "the command "@ + debug_repr(command)
            + " uses an encoded or policy-bypassing PowerShell invocation; consistent with obfuscated execution (MITRE T1059.001 / T1027)"@,
    }
}

impl HistAnomaly {
    /// The stable, published anomaly code (scheme-prefixed SCREAMING-KEBAB).
    pub fn code(&self) -> (c: &'static str)
        ensures
            c@ == anomaly_code(self@),
    {
        match self {
            HistAnomaly::HistoryDisabled { .. } => "SHELLHIST-HISTORY-DISABLED",
            HistAnomaly::TimestampRegression { .. } => "SHELLHIST-TIMESTAMP-REGRESSION",
            HistAnomaly::RemoteExecPipe { .. } => "SHELLHIST-REMOTE-EXEC-PIPE",
            HistAnomaly::PwshEncodedCommand { .. } => "SHELLHIST-PWSH-ENCODED-CMD",
        }
    }

    /// Every anomaly is a scored, medium-severity observation.
    pub fn severity(&self) -> (s: Option<Severity>)
        ensures
            s == Some(Severity::Medium),
    {
        Some(Severity::Medium)
    }

    /// The analytical lens of the anomaly.
    pub fn category(&self) -> (c: Category)
        ensures
            c == anomaly_category(self@),
    {
        match self {
            HistAnomaly::HistoryDisabled { .. } => Category::Concealment,
            HistAnomaly::TimestampRegression { .. } => Category::Integrity,
            HistAnomaly::RemoteExecPipe { .. } | HistAnomaly::PwshEncodedCommand { .. } => {
                Category::Threat
            },
        }
    }

    /// The human-readable, consistent-with note.
    pub fn note(&self) -> (n: String)
        ensures
            n@ == anomaly_note(self@),
    {
        let mut out: Vec<char> = Vec::new();
        match self {
            HistAnomaly::HistoryDisabled { command } => {
                push_str(&mut out, "the command ");
                push_str(&mut out, debug_text(command.as_str()).as_str());
                push_str(
                    &mut out,
                    " disables or clears shell history; consistent with anti-forensic history tampering (MITRE T1070.003)",
                );
            },
            HistAnomaly::TimestampRegression { at, previous } => {
                push_str(&mut out, "an entry timestamped ");
                push_decimal(&mut out, *at);
                push_str(&mut out, " follows one timestamped ");
                push_decimal(&mut out, *previous);
                push_str(
                    &mut out,
                    " (history went backwards in time); consistent with injected or back-dated entries",
                );
            },
            HistAnomaly::RemoteExecPipe { command } => {
                push_str(&mut out, "the command ");
                push_str(&mut out, debug_text(command.as_str()).as_str());
                push_str(
                    &mut out,
                    " downloads and pipes content directly into a shell; consistent with remote payload execution (MITRE T1059 / T1105)",
                );
            },
            HistAnomaly::PwshEncodedCommand { command } => {
                push_str(&mut out, "the command ");
                push_str(&mut out, debug_text(command.as_str()).as_str());
                push_str(
                    &mut out,
                    " uses an encoded or policy-bypassing PowerShell invocation; consistent with obfuscated execution (MITRE T1059.001 / T1027)",
                );
            },
        }
        assert(out@ =~= anomaly_note(self@));
        string_of(out.as_slice())
    }
}

// ---------------------------------------------------------------------------
// Matchers
// ---------------------------------------------------------------------------

/// A command that disables or clears history: one of the known idioms, a
/// `/dev/null` symlink over a history file, or a removal of one.
pub open spec fn disables_history(cmd: Seq<char>) -> bool {
    let c = ascii_lower(cmd);
    ||| contains(c, "unset histfile"@)
    ||| contains(c, "set +o history"@)
    ||| contains(c, "history -c"@)
    ||| contains(c, "histfile=/dev/null"@)
    ||| contains(c, "clear-history"@)
    ||| (contains(c, "ln -sf /dev/null"@) || contains(c, "ln -s /dev/null"@)) && contains(c, "history"@)
    ||| contains(c, "rm "@) && contains(c, "_history"@)
    ||| contains(c, "remove-item"@) && contains(c, "consolehost_history"@)
}

/// The lowercased command pipes into `sh`, `bash` or `zsh`.
pub open spec fn pipes_into_shell(c: Seq<char>) -> bool {
    ||| contains(c, "| sh"@)
    ||| contains(c, "|sh"@)
    ||| contains(c, "| bash"@)
    ||| contains(c, "|bash"@)
    ||| contains(c, "| zsh"@)
    ||| contains(c, "|zsh"@)
}

/// A download piped straight into a shell, a PowerShell download-and-invoke
/// one-liner, or a base64 decode piped into a shell.
pub open spec fn pipes_download_to_shell(cmd: Seq<char>) -> bool {
    let c = ascii_lower(cmd);
    let downloads = contains(c, "curl "@) || contains(c, "wget "@);
    ||| downloads && pipes_into_shell(c)
    ||| (contains(c, "downloadstring"@) || contains(c, "downloadfile"@)) && (contains(c, "iex"@)
        || contains(c, "invoke-expression"@))
    ||| (contains(c, "base64 -d"@) || contains(c, "base64 --decode"@)) && pipes_into_shell(c)
}

/// An encoded or policy-bypassing PowerShell invocation.
pub open spec fn encoded_powershell(cmd: Seq<char>) -> bool {
    let c = ascii_lower(cmd);
    ||| contains(c, "-encodedcommand"@)
    ||| contains(c, "-enc "@)
    ||| ends_with(c, "-enc"@)
    ||| contains(c, "executionpolicy bypass"@)
    ||| contains(c, "frombase64string"@) && (contains(c, "iex"@) || contains(c, "invoke-expression"@))
}

fn lowered(cmd: &str) -> (c: Vec<char>)
    ensures
        c@ == ascii_lower(cmd@),
{
    let cs = chars_of(cmd);
    ascii_lower_chars(cs.as_slice())
}

fn is_history_disable(cmd: &str) -> (b: bool)
    ensures
        b == disables_history(cmd@),
{
    let c = lowered(cmd);
    let c = c.as_slice();
    if contains_str(c, "unset histfile") || contains_str(c, "set +o history") || contains_str(
        c,
        "history -c",
    ) || contains_str(c, "histfile=/dev/null") || contains_str(c, "clear-history") {
        return true;
    }
    (contains_str(c, "ln -sf /dev/null") || contains_str(c, "ln -s /dev/null")) && contains_str(
        c,
        "history",
    ) || (contains_str(c, "rm ") && contains_str(c, "_history")) || (contains_str(
        c,
        "remove-item",
    ) && contains_str(c, "consolehost_history"))
}

fn pipes_into_shell_chars(c: &[char]) -> (b: bool)
    ensures
        b == pipes_into_shell(c@),
{
    contains_str(c, "| sh") || contains_str(c, "|sh") || contains_str(c, "| bash")
        || contains_str(c, "|bash") || contains_str(c, "| zsh") || contains_str(c, "|zsh")
}

fn is_remote_exec_pipe(cmd: &str) -> (b: bool)
    ensures
        b == pipes_download_to_shell(cmd@),
{
    let c = lowered(cmd);
    let c = c.as_slice();
    let downloads = contains_str(c, "curl ") || contains_str(c, "wget ");
    let into_shell = pipes_into_shell_chars(c);
    if downloads && into_shell {
        return true;
    }
    (contains_str(c, "downloadstring") || contains_str(c, "downloadfile")) && (contains_str(
        c,
        "iex",
    ) || contains_str(c, "invoke-expression")) || ((contains_str(c, "base64 -d")
        || contains_str(c, "base64 --decode")) && into_shell)
}

fn is_pwsh_encoded(cmd: &str) -> (b: bool)
    ensures
        b == encoded_powershell(cmd@),
{
    let c = lowered(cmd);
    let c = c.as_slice();
    let enc = chars_of("-enc");
    contains_str(c, "-encodedcommand") || contains_str(c, "-enc ") || has_suffix(
        c,
        enc.as_slice(),
    ) || contains_str(c, "executionpolicy bypass") || (contains_str(c, "frombase64string") && (
    contains_str(c, "iex") || contains_str(c, "invoke-expression")))
}

// ---------------------------------------------------------------------------
// The audit
// ---------------------------------------------------------------------------

/// The audit state: anomalies so far and the last timestamp seen.
pub struct AuditScan {
    pub found: Seq<AnomalyView>,
    pub last_ts: Option<i64>,
}

/// What one entry adds: each matching command pattern, in a fixed order, then a
/// regression when its timestamp precedes the last timestamp seen. An entry
/// without a timestamp leaves the last timestamp as it was.
pub open spec fn audit_step(st: AuditScan, e: EntryView) -> AuditScan {
    let c = e.command;
    let f1 = if disables_history(c) {
        st.found.push(AnomalyView::HistoryDisabled { command: c })
    } else {
        st.found
    };
    let f2 = if pipes_download_to_shell(c) {
        f1.push(AnomalyView::RemoteExecPipe { command: c })
    } else {
        f1
    };
    let f3 = if encoded_powershell(c) {
        f2.push(AnomalyView::PwshEncodedCommand { command: c })
    } else {
        f2
    };
    match e.timestamp {
        Some(ts) => AuditScan {
            found: match st.last_ts {
                Some(prev) => if ts < prev {
                    f3.push(AnomalyView::TimestampRegression { at: ts, previous: prev })
                } else {
                    f3
                },
                None => f3,
            },
            last_ts: Some(ts),
        },
        None => AuditScan { found: f3, last_ts: st.last_ts },
    }
}

pub open spec fn audit_scan(entries: Seq<EntryView>) -> AuditScan
    decreases entries.len(),
{
    if entries.len() == 0 {
        AuditScan { found: Seq::<AnomalyView>::empty(), last_ts: None }
    } else {
        audit_step(audit_scan(entries.drop_last()), entries.last())
    }
}

/// The anomalies of an entry stream.
pub open spec fn audit_of(entries: Seq<EntryView>) -> Seq<AnomalyView> {
    audit_scan(entries).found
}

fn push_anomaly(out: &mut Vec<HistAnomaly>, a: HistAnomaly)
    ensures
        anomaly_views(final(out)@) == anomaly_views(old(out)@).push(a@),
{
    out.push(a);
    assert(anomaly_views(final(out)@) =~= anomaly_views(old(out)@).push(a@));
}

/// Audit a history-entry stream for anomalies.
pub fn audit(entries: &[HistoryEntry]) -> (out: Vec<HistAnomaly>)
    ensures
        anomaly_views(out@) == audit_of(entry_views(entries@)),
{
    let mut out: Vec<HistAnomaly> = Vec::new();
    let mut last_ts: Option<i64> = None;
    let mut i: usize = 0;
    while i < entries.len()
        invariant
            i <= entries@.len(),
            anomaly_views(out@) == audit_scan(entry_views(entries@).take(i as int)).found,
            last_ts == audit_scan(entry_views(entries@).take(i as int)).last_ts,
        decreases entries.len() - i,
    {
        let entry = &entries[i];
        assert(entry_views(entries@).take(i as int + 1).drop_last() =~= entry_views(entries@).take(
            i as int,
        ));
        assert(entry_views(entries@).take(i as int + 1).last() == entry@);
        let cmd = entry.command.as_str();
        if is_history_disable(cmd) {
            push_anomaly(&mut out, HistAnomaly::HistoryDisabled { command: entry.command.clone() });
        }
        if is_remote_exec_pipe(cmd) {
            push_anomaly(&mut out, HistAnomaly::RemoteExecPipe { command: entry.command.clone() });
        }
        if is_pwsh_encoded(cmd) {
            push_anomaly(&mut out, HistAnomaly::PwshEncodedCommand { command: entry.command.clone() });
        }
        if let Some(ts) = entry.timestamp {
            if let Some(prev) = last_ts {
                if ts < prev {
                    push_anomaly(&mut out, HistAnomaly::TimestampRegression { at: ts, previous: prev });
                }
            }
            last_ts = Some(ts);
        }
        i = i + 1;
    }
    assert(entry_views(entries@).take(entries@.len() as int) =~= entry_views(entries@));
    out
}

// ---------------------------------------------------------------------------
// Laws
// ---------------------------------------------------------------------------

/// Which of the four kinds an anomaly is.
pub open spec fn anomaly_kind(a: AnomalyView) -> nat {
    match a {
        AnomalyView::HistoryDisabled { .. } => 0,
        AnomalyView::TimestampRegression { .. } => 1,
        AnomalyView::RemoteExecPipe { .. } => 2,
        AnomalyView::PwshEncodedCommand { .. } => 3,
    }
}

/// The published codes are a contract: each kind has its own code, and every
/// code carries the `SHELLHIST-` scheme prefix.
pub proof fn law_codes_distinct_and_prefixed(a: AnomalyView, b: AnomalyView)
    ensures
        anomaly_kind(a) != anomaly_kind(b) ==> anomaly_code(a) != anomaly_code(b),
        starts_with(anomaly_code(a), "SHELLHIST-"@),
{
    reveal_strlit("SHELLHIST-HISTORY-DISABLED");
    reveal_strlit("SHELLHIST-TIMESTAMP-REGRESSION");
    reveal_strlit("SHELLHIST-REMOTE-EXEC-PIPE");
    reveal_strlit("SHELLHIST-PWSH-ENCODED-CMD");
    reveal_strlit("SHELLHIST-");
    let (ca, cb) = (anomaly_code(a), anomaly_code(b));
    if anomaly_kind(a) != anomaly_kind(b) {
        if ca.len() == cb.len() {
            // Same length: the two fixed codes then differ at their eleventh character.
            assert(ca[10] != cb[10]);
        }
    }
    assert(ca.take(10) =~= "SHELLHIST-"@);
}

proof fn lemma_contains_in_tail(pre: Seq<char>, tail: Seq<char>, needle: Seq<char>, k: int)
    requires
        occurs_at(tail, needle, k),
    ensures
        contains(pre + tail, needle),
{
    let whole = pre + tail;
    assert(whole.subrange(pre.len() + k, pre.len() + k + needle.len()) =~= tail.subrange(
        k,
        k + needle.len(),
    ));
    assert(occurs_at(whole, needle, pre.len() + k));
}

/// Every note is hedged: it says what the anomaly is "consistent with".
pub proof fn law_note_is_hedged(a: AnomalyView)
    ensures
        contains(anomaly_note(a), "consistent with"@),
{
    reveal_strlit("consistent with");
    match a {
        AnomalyView::HistoryDisabled { command } => {
            let tail =
                " disables or clears shell history; consistent with anti-forensic history tampering (MITRE T1070.003)"@;
            reveal_strlit(
                " disables or clears shell history; consistent with anti-forensic history tampering (MITRE T1070.003)",
            );
            assert(tail.subrange(35, 50) =~= "consistent with"@);
            lemma_contains_in_tail("the command "@ + debug_repr(command), tail, "consistent with"@, 35);
        },
        AnomalyView::TimestampRegression { at, previous } => {
            let tail = " (history went backwards in time); consistent with injected or back-dated entries"@;
            reveal_strlit(
                " (history went backwards in time); consistent with injected or back-dated entries",
            );
            assert(tail.subrange(35, 50) =~= "consistent with"@);
            lemma_contains_in_tail(
                "an entry timestamped "@ + decimal_repr(at as int) + " follows one timestamped "@
                    + decimal_repr(previous as int),
                tail,
                "consistent with"@,
                35,
            );
        },
        AnomalyView::RemoteExecPipe { command } => {
            let tail =
                " downloads and pipes content directly into a shell; consistent with remote payload execution (MITRE T1059 / T1105)"@;
            reveal_strlit(
                " downloads and pipes content directly into a shell; consistent with remote payload execution (MITRE T1059 / T1105)",
            );
            assert(tail.subrange(52, 67) =~= "consistent with"@);
            lemma_contains_in_tail("the command "@ + debug_repr(command), tail, "consistent with"@, 52);
        },
        AnomalyView::PwshEncodedCommand { command } => {
            let tail =
                " uses an encoded or policy-bypassing PowerShell invocation; consistent with obfuscated execution (MITRE T1059.001 / T1027)"@;
            reveal_strlit(
                " uses an encoded or policy-bypassing PowerShell invocation; consistent with obfuscated execution (MITRE T1059.001 / T1027)",
            );
            assert(tail.subrange(60, 75) =~= "consistent with"@);
            lemma_contains_in_tail("the command "@ + debug_repr(command), tail, "consistent with"@, 60);
        },
    }
}

/// Timestamps never go backwards: among entries that carry one, each is at
/// least the one before it.
pub open spec fn timestamps_nondecreasing(es: Seq<EntryView>) -> bool {
    forall|i: int, j: int|
        0 <= i < j < es.len() && es[i].timestamp is Some && es[j].timestamp is Some
            ==> (#[trigger] es[i].timestamp)->0 <= (#[trigger] es[j].timestamp)->0
}

/// The timestamp of the last entry that has one.
pub open spec fn last_timestamp(es: Seq<EntryView>) -> Option<i64>
    decreases es.len(),
{
    if es.len() == 0 {
        None
    } else if es.last().timestamp is Some {
        es.last().timestamp
    } else {
        last_timestamp(es.drop_last())
    }
}

proof fn lemma_last_timestamp(es: Seq<EntryView>)
    ensures
        audit_scan(es).last_ts == last_timestamp(es),
        last_timestamp(es) matches Some(t) ==> exists|i: int|
            0 <= i < es.len() && #[trigger] es[i].timestamp == Some(t),
    decreases es.len(),
{
    if es.len() > 0 {
        lemma_last_timestamp(es.drop_last());
        if es.last().timestamp is Some {
            assert(es[es.len() - 1].timestamp == es.last().timestamp);
        } else if last_timestamp(es.drop_last()) is Some {
            let t = last_timestamp(es.drop_last())->0;
            let i = choose|i: int|
                0 <= i < es.drop_last().len() && #[trigger] es.drop_last()[i].timestamp == Some(t);
            assert(es[i].timestamp == Some(t));
        }
    }
}

/// A regression anomaly.
pub open spec fn is_regression(a: AnomalyView) -> bool {
    a is TimestampRegression
}

proof fn lemma_regressions(es: Seq<EntryView>)
    ensures
        forall|k: int|
            0 <= k < audit_of(es).len() ==> (#[trigger] audit_of(es)[k] matches
                AnomalyView::TimestampRegression { at, previous } ==> at < previous),
        timestamps_nondecreasing(es) ==> forall|k: int|
            0 <= k < audit_of(es).len() ==> !is_regression(#[trigger] audit_of(es)[k]),
    decreases es.len(),
{
    if es.len() > 0 {
        let prev = es.drop_last();
        lemma_regressions(prev);
        lemma_last_timestamp(prev);
        if timestamps_nondecreasing(es) {
            assert(timestamps_nondecreasing(prev)) by {
                assert forall|i: int, j: int|
                    0 <= i < j < prev.len() && prev[i].timestamp is Some
                        && prev[j].timestamp is Some implies (#[trigger] prev[i].timestamp)->0
                    <= (#[trigger] prev[j].timestamp)->0 by {
                    assert(prev[i] == es[i] && prev[j] == es[j]);
                }
            }
            if let (Some(ts), Some(p)) = (es.last().timestamp, audit_scan(prev).last_ts) {
                let i = choose|i: int| 0 <= i < prev.len() && #[trigger] prev[i].timestamp == Some(p);
                assert(es[i].timestamp == Some(p));
                assert(es[es.len() - 1].timestamp == Some(ts));
                assert(p <= ts);
            }
        }
    }
}

/// Every regression anomaly reports an entry earlier than its predecessor, and
/// history whose timestamps never go backwards raises no regression.
pub proof fn law_regressions_only_backwards(es: Seq<EntryView>)
    ensures
        forall|k: int|
            0 <= k < audit_of(es).len() ==> (#[trigger] audit_of(es)[k] matches
                AnomalyView::TimestampRegression { at, previous } ==> at < previous),
        timestamps_nondecreasing(es) ==> forall|k: int|
            0 <= k < audit_of(es).len() ==> !is_regression(#[trigger] audit_of(es)[k]),
{
    lemma_regressions(es);
}

/// A command no matcher recognizes.
pub open spec fn benign_command(c: Seq<char>) -> bool {
    !disables_history(c) && !pipes_download_to_shell(c) && !encoded_powershell(c)
}

/// Benign history fires nothing: when no command matches a pattern and the
/// timestamps never go backwards, the audit is empty.
pub proof fn law_benign_history_is_silent(es: Seq<EntryView>)
    requires
        forall|i: int| 0 <= i < es.len() ==> benign_command(#[trigger] es[i].command),
        timestamps_nondecreasing(es),
    ensures
        audit_of(es).len() == 0,
    decreases es.len(),
{
    if es.len() > 0 {
        let prev = es.drop_last();
        assert forall|i: int| 0 <= i < prev.len() implies benign_command(
            #[trigger] prev[i].command,
        ) by {
            assert(prev[i] == es[i]);
        }
        assert(timestamps_nondecreasing(prev)) by {
            assert forall|i: int, j: int|
                0 <= i < j < prev.len() && prev[i].timestamp is Some
                    && prev[j].timestamp is Some implies (#[trigger] prev[i].timestamp)->0
                <= (#[trigger] prev[j].timestamp)->0 by {
                assert(prev[i] == es[i] && prev[j] == es[j]);
            }
        }
        law_benign_history_is_silent(prev);
        assert(benign_command(es[es.len() - 1].command));
        lemma_regressions(es);
        if audit_of(es).len() > 0 {
            assert(is_regression(audit_of(es)[0]));
        }
    }
}

/// Two streams meet in order: the first timestamp of `b` (the one at an entry
/// with no timestamp before it in `b`) is not earlier than the last timestamp of
/// `a`.
pub open spec fn ordered_at_seam(a: Seq<EntryView>, b: Seq<EntryView>) -> bool {
    forall|i: int|
        0 <= i < b.len() && last_timestamp(b.take(i)) is None && (#[trigger] b[i].timestamp) is Some
            && last_timestamp(a) is Some ==> last_timestamp(a)->0 <= b[i].timestamp->0
}

proof fn lemma_audit_concat(a: Seq<EntryView>, b: Seq<EntryView>)
    requires
        ordered_at_seam(a, b),
    ensures
        audit_scan(a + b).found == audit_scan(a).found + audit_scan(b).found,
        audit_scan(a + b).last_ts == (if last_timestamp(b) is Some {
            last_timestamp(b)
        } else {
            last_timestamp(a)
        }),
    decreases b.len(),
{
    lemma_last_timestamp(a);
    lemma_last_timestamp(b);
    if b.len() == 0 {
        assert(a + b =~= a);
        assert(audit_scan(a).found + audit_scan(b).found =~= audit_scan(a).found);
    } else {
        let init = b.drop_last();
        let e = b.last();
        assert(ordered_at_seam(a, init)) by {
            assert forall|i: int|
                0 <= i < init.len() && last_timestamp(init.take(i)) is None
                    && (#[trigger] init[i].timestamp) is Some && last_timestamp(a) is Some implies
                last_timestamp(a)->0 <= init[i].timestamp->0 by {
                assert(init.take(i) =~= b.take(i));
                assert(init[i] == b[i]);
            }
        }
        lemma_audit_concat(a, init);
        lemma_last_timestamp(init);
        assert((a + b).drop_last() =~= a + init);
        assert((a + b).last() == e);
        let joined = audit_scan(a + init);
        let alone = audit_scan(init);
        if e.timestamp is Some && last_timestamp(init) is None && last_timestamp(a) is Some {
            assert(b.take(b.len() - 1) =~= init);
            assert(b[b.len() - 1] == e);
            assert(last_timestamp(a)->0 <= e.timestamp->0);
        }
        let step_j = audit_step(joined, e);
        let step_a = audit_step(alone, e);
        assert(step_j.found =~= audit_scan(a).found + step_a.found);
    }
}

/// Auditing is compositional: when the second stream's first timestamp does not
/// go back behind the first stream's last one, auditing the two joined gives the
/// two audits joined.
pub proof fn law_audit_concatenates(a: Seq<EntryView>, b: Seq<EntryView>)
    requires
        ordered_at_seam(a, b),
    ensures
        audit_of(a + b) == audit_of(a) + audit_of(b),
{
    lemma_audit_concat(a, b);
}

/// Two streams that differ at most in the ASCII case of their commands.
pub open spec fn same_up_to_case(a: Seq<EntryView>, b: Seq<EntryView>) -> bool {
    &&& a.len() == b.len()
    &&& forall|i: int|
        0 <= i < a.len() ==> ascii_lower((#[trigger] a[i]).command) == ascii_lower(b[i].command)
            && a[i].timestamp == b[i].timestamp
}

proof fn lemma_case_insensitive(a: Seq<EntryView>, b: Seq<EntryView>)
    requires
        same_up_to_case(a, b),
    ensures
        audit_of(a).len() == audit_of(b).len(),
        forall|k: int|
            0 <= k < audit_of(a).len() ==> anomaly_code(#[trigger] audit_of(a)[k]) == anomaly_code(
                audit_of(b)[k],
            ),
        audit_scan(a).last_ts == audit_scan(b).last_ts,
    decreases a.len(),
{
    if a.len() > 0 {
        let (ia, ib) = (a.drop_last(), b.drop_last());
        assert(same_up_to_case(ia, ib)) by {
            assert forall|i: int| 0 <= i < ia.len() implies ascii_lower((#[trigger] ia[i]).command)
                == ascii_lower(ib[i].command) && ia[i].timestamp == ib[i].timestamp by {
                assert(ia[i] == a[i] && ib[i] == b[i]);
            }
        }
        lemma_case_insensitive(ia, ib);
        let (ea, eb) = (a.last(), b.last());
        assert(ascii_lower(a[a.len() - 1].command) == ascii_lower(b[b.len() - 1].command));
        assert(disables_history(ea.command) == disables_history(eb.command));
        assert(pipes_download_to_shell(ea.command) == pipes_download_to_shell(eb.command));
        assert(encoded_powershell(ea.command) == encoded_powershell(eb.command));
        assert(ea.timestamp == eb.timestamp);
        let (fa, fb) = (audit_of(a), audit_of(b));
        let (pa, pb) = (audit_of(ia), audit_of(ib));
        assert forall|k: int| 0 <= k < fa.len() implies anomaly_code(#[trigger] fa[k])
            == anomaly_code(fb[k]) by {
            if k < pa.len() {
                assert(fa[k] == pa[k] && fb[k] == pb[k]);
            }
        }
    }
}

/// The audit ignores ASCII case: streams whose commands differ only in case
/// (with the same timestamps) raise anomalies with the same codes, in the same
/// order.
pub proof fn law_audit_ignores_case(a: Seq<EntryView>, b: Seq<EntryView>)
    requires
        same_up_to_case(a, b),
    ensures
        audit_of(a).len() == audit_of(b).len(),
        forall|k: int|
            0 <= k < audit_of(a).len() ==> anomaly_code(#[trigger] audit_of(a)[k]) == anomaly_code(
                audit_of(b)[k],
            ),
{
    lemma_case_insensitive(a, b);
}

/// The lowercased command holds a history-disabling idiom: `unset histfile`,
/// `set +o history`, `history -c`, `histfile=/dev/null`, `clear-history`, a
/// `/dev/null` symlink together with `history`, an `rm ` together with
/// `_history`, or a `remove-item` together with `consolehost_history`.
pub open spec fn history_clearing_idiom(c: Seq<char>) -> bool {
    let l = ascii_lower(c);
    ||| contains(l, "unset histfile"@)
    ||| contains(l, "set +o history"@)
    ||| contains(l, "history -c"@)
    ||| contains(l, "histfile=/dev/null"@)
    ||| contains(l, "clear-history"@)
    ||| (contains(l, "ln -sf /dev/null"@) || contains(l, "ln -s /dev/null"@)) && contains(l, "history"@)
    ||| contains(l, "rm "@) && contains(l, "_history"@)
    ||| contains(l, "remove-item"@) && contains(l, "consolehost_history"@)
}

/// The lowercased command pipes into `sh`, `bash` or `zsh` (with or without a
/// space after the bar).
pub open spec fn shell_pipe_idiom(l: Seq<char>) -> bool {
    ||| contains(l, "| sh"@)
    ||| contains(l, "|sh"@)
    ||| contains(l, "| bash"@)
    ||| contains(l, "|bash"@)
    ||| contains(l, "| zsh"@)
    ||| contains(l, "|zsh"@)
}

/// The lowercased command holds a download-and-run idiom: `curl ` or `wget `
/// piped into a shell, a `downloadstring`/`downloadfile` run through `iex` or
/// `invoke-expression`, or a `base64 -d`/`base64 --decode` piped into a shell.
pub open spec fn download_and_run_idiom(c: Seq<char>) -> bool {
    let l = ascii_lower(c);
    ||| (contains(l, "curl "@) || contains(l, "wget "@)) && shell_pipe_idiom(l)
    ||| (contains(l, "downloadstring"@) || contains(l, "downloadfile"@)) && (contains(l, "iex"@)
        || contains(l, "invoke-expression"@))
    ||| (contains(l, "base64 -d"@) || contains(l, "base64 --decode"@)) && shell_pipe_idiom(l)
}

/// The lowercased command holds an encoded-PowerShell idiom: `-encodedcommand`,
/// `-enc ` or a final `-enc`, `executionpolicy bypass`, or `frombase64string`
/// run through `iex` or `invoke-expression`.
pub open spec fn encoded_powershell_idiom(c: Seq<char>) -> bool {
    let l = ascii_lower(c);
    ||| contains(l, "-encodedcommand"@)
    ||| contains(l, "-enc "@)
    ||| ends_with(l, "-enc"@)
    ||| contains(l, "executionpolicy bypass"@)
    ||| contains(l, "frombase64string"@) && (contains(l, "iex"@) || contains(l, "invoke-expression"@))
}

/// `a` is a prefix of `b`.
pub open spec fn starts_audit(a: Seq<AnomalyView>, b: Seq<AnomalyView>) -> bool {
    a.len() <= b.len() && b.take(a.len() as int) == a
}

/// An earlier part of the stream keeps its anomalies, in front.
proof fn lemma_audit_prefix(es: Seq<EntryView>, j: int)
    requires
        0 <= j <= es.len(),
    ensures
        starts_audit(audit_of(es.take(j)), audit_of(es)),
    decreases es.len(),
{
    if j == es.len() {
        assert(es.take(j) =~= es);
        assert(audit_of(es).take(audit_of(es).len() as int) =~= audit_of(es));
    } else {
        let init = es.drop_last();
        lemma_audit_prefix(init, j);
        assert(init.take(j) =~= es.take(j));
        let (a, b, c) = (audit_of(es.take(j)), audit_of(init), audit_of(es));
        assert(c.take(b.len() as int) =~= b);
        assert(c.take(a.len() as int) =~= b.take(a.len() as int));
    }
}

/// What the entry at `i` adds is in the audit of the whole stream.
proof fn lemma_entry_anomaly(es: Seq<EntryView>, i: int, a: AnomalyView, k: int)
    requires
        0 <= i < es.len(),
        0 <= k < audit_of(es.take(i + 1)).len(),
        audit_of(es.take(i + 1))[k] == a,
    ensures
        exists|k: int| 0 <= k < audit_of(es).len() && #[trigger] audit_of(es)[k] == a,
{
    lemma_audit_prefix(es, i + 1);
    let part = audit_of(es.take(i + 1));
    assert(audit_of(es).take(part.len() as int)[k] == audit_of(es)[k]);
    assert(audit_of(es)[k] == a);
}

proof fn lemma_step_at(es: Seq<EntryView>, i: int)
    requires
        0 <= i < es.len(),
    ensures
        audit_scan(es.take(i + 1)) == audit_step(audit_scan(es.take(i)), es[i]),
{
    assert(es.take(i + 1).drop_last() =~= es.take(i));
    assert(es.take(i + 1).last() == es[i]);
}

/// History-disabling commands are reported: an entry whose command holds a
/// history-disabling idiom gets a `HistoryDisabled` anomaly carrying its
/// command, wherever it stands in the stream.
pub proof fn law_history_disable_reported(es: Seq<EntryView>, i: int)
    requires
        0 <= i < es.len(),
        history_clearing_idiom(es[i].command),
    ensures
        exists|k: int|
            0 <= k < audit_of(es).len() && #[trigger] audit_of(es)[k]
                == (AnomalyView::HistoryDisabled { command: es[i].command }),
{
    lemma_step_at(es, i);
    let st = audit_scan(es.take(i));
    let a = AnomalyView::HistoryDisabled { command: es[i].command };
    lemma_entry_anomaly(es, i, a, st.found.len() as int);
}

/// Downloads run straight away are reported: an entry whose command holds a
/// download-and-run idiom (including a `DownloadString` cradle run through the
/// full `Invoke-Expression` name) gets a `RemoteExecPipe` anomaly carrying its
/// command.
pub proof fn law_remote_exec_pipe_reported(es: Seq<EntryView>, i: int)
    requires
        0 <= i < es.len(),
        download_and_run_idiom(es[i].command),
    ensures
        exists|k: int|
            0 <= k < audit_of(es).len() && #[trigger] audit_of(es)[k]
                == (AnomalyView::RemoteExecPipe { command: es[i].command }),
{
    lemma_step_at(es, i);
    let st = audit_scan(es.take(i));
    let c = es[i].command;
    let a = AnomalyView::RemoteExecPipe { command: c };
    let k = st.found.len() + if disables_history(c) { 1int } else { 0int };
    lemma_entry_anomaly(es, i, a, k);
}

/// Encoded or policy-bypassing PowerShell is reported: an entry whose command
/// holds an encoded-PowerShell idiom gets a `PwshEncodedCommand` anomaly
/// carrying its command.
pub proof fn law_pwsh_encoded_reported(es: Seq<EntryView>, i: int)
    requires
        0 <= i < es.len(),
        encoded_powershell_idiom(es[i].command),
    ensures
        exists|k: int|
            0 <= k < audit_of(es).len() && #[trigger] audit_of(es)[k]
                == (AnomalyView::PwshEncodedCommand { command: es[i].command }),
{
    lemma_step_at(es, i);
    let st = audit_scan(es.take(i));
    let c = es[i].command;
    let a = AnomalyView::PwshEncodedCommand { command: c };
    let k = st.found.len() + (if disables_history(c) { 1int } else { 0int }) + (
    if pipes_download_to_shell(c) {
        1int
    } else {
        0int
    });
    lemma_entry_anomaly(es, i, a, k);
}

/// A timestamp that goes back behind the last earlier one is reported: the
/// entry gets a `TimestampRegression` anomaly naming its time and that earlier
/// time.
pub proof fn law_timestamp_regression_reported(es: Seq<EntryView>, i: int, t: i64, p: i64)
    requires
        0 <= i < es.len(),
        es[i].timestamp == Some(t),
        last_timestamp(es.take(i)) == Some(p),
        t < p,
    ensures
        exists|k: int|
            0 <= k < audit_of(es).len() && #[trigger] audit_of(es)[k]
                == (AnomalyView::TimestampRegression { at: t, previous: p }),
{
    lemma_step_at(es, i);
    lemma_last_timestamp(es.take(i));
    let a = AnomalyView::TimestampRegression { at: t, previous: p };
    let part = audit_of(es.take(i + 1));
    lemma_entry_anomaly(es, i, a, part.len() - 1);
}

/// Whether anomaly `a` is backed by the entries: a command anomaly carries the
/// command of some entry, which holds an idiom of its kind.
pub open spec fn backed_by(a: AnomalyView, es: Seq<EntryView>) -> bool {
    match a {
        AnomalyView::HistoryDisabled { command } => exists|i: int|
            0 <= i < es.len() && #[trigger] es[i].command == command && history_clearing_idiom(
                command,
            ),
        AnomalyView::RemoteExecPipe { command } => exists|i: int|
            0 <= i < es.len() && #[trigger] es[i].command == command && download_and_run_idiom(
                command,
            ),
        AnomalyView::PwshEncodedCommand { command } => exists|i: int|
            0 <= i < es.len() && #[trigger] es[i].command == command && encoded_powershell_idiom(
                command,
            ),
        AnomalyView::TimestampRegression { .. } => true,
    }
}

proof fn lemma_backed_grows(a: AnomalyView, es: Seq<EntryView>)
    requires
        es.len() > 0,
        backed_by(a, es.drop_last()),
    ensures
        backed_by(a, es),
{
    let init = es.drop_last();
    match a {
        AnomalyView::HistoryDisabled { command } => {
            let i = choose|i: int|
                0 <= i < init.len() && #[trigger] init[i].command == command
                    && history_clearing_idiom(command);
            assert(es[i] == init[i]);
        },
        AnomalyView::RemoteExecPipe { command } => {
            let i = choose|i: int|
                0 <= i < init.len() && #[trigger] init[i].command == command
                    && download_and_run_idiom(command);
            assert(es[i] == init[i]);
        },
        AnomalyView::PwshEncodedCommand { command } => {
            let i = choose|i: int|
                0 <= i < init.len() && #[trigger] init[i].command == command
                    && encoded_powershell_idiom(command);
            assert(es[i] == init[i]);
        },
        AnomalyView::TimestampRegression { .. } => {},
    }
}

proof fn lemma_audit_sound(es: Seq<EntryView>)
    ensures
        forall|k: int| 0 <= k < audit_of(es).len() ==> backed_by(#[trigger] audit_of(es)[k], es),
    decreases es.len(),
{
    if es.len() > 0 {
        let init = es.drop_last();
        lemma_audit_sound(init);
        let prev = audit_of(init);
        let n = es.len() - 1;
        assert(es[n] == es.last());
        assert forall|k: int| 0 <= k < audit_of(es).len() implies backed_by(
            #[trigger] audit_of(es)[k],
            es,
        ) by {
            if k < prev.len() {
                assert(audit_of(es)[k] == prev[k]);
                lemma_backed_grows(prev[k], es);
            } else {
                match audit_of(es)[k] {
                    AnomalyView::HistoryDisabled { command } => {
                        assert(es[n].command == command);
                    },
                    AnomalyView::RemoteExecPipe { command } => {
                        assert(es[n].command == command);
                    },
                    AnomalyView::PwshEncodedCommand { command } => {
                        assert(es[n].command == command);
                    },
                    AnomalyView::TimestampRegression { .. } => {},
                }
            }
        }
    }
}

/// No false alarms: every command anomaly in the audit carries the command of
/// some entry of the stream, and that command holds an idiom of its kind.
pub proof fn law_anomalies_match_their_idioms(es: Seq<EntryView>)
    ensures
        forall|k: int| 0 <= k < audit_of(es).len() ==> backed_by(#[trigger] audit_of(es)[k], es),
{
    lemma_audit_sound(es);
}

} // verus!
