//! Readers for shell command-history files and an auditor over what they read.
//!
//! The four common history formats — bash (`.bash_history`), zsh
//! (`.zsh_history`, including `EXTENDED_HISTORY`), fish (`fish_history`) and
//! PowerShell PSReadLine (`ConsoleHost_history.txt`) — are decoded into one
//! uniform [`HistoryEntry`] stream. Decoding is lenient (lossy UTF-8) and total:
//! every function here is verified free of panics on any input.
//!
//! Each reader is specified over a model: the text the bytes decode to, its
//! lines, and a scan over those lines whose result the reader returns exactly.

use vstd::prelude::*;

pub mod bash;
pub mod fish;
pub mod forensic;
pub mod powershell;
pub mod zsh;
pub mod text;

use crate::text::{
    ascii_lower, ascii_lower_chars, chars_of, contains, contains_str, decode_lossy, has_prefix,
    lines, lines_of, lossy_utf8, starts_with, string_of, texts,
};

verus! {

/// The shell a history file was produced by.
#[derive(Debug, Clone, Copy, PartialEq, Eq, Hash, Structural)]
pub enum Shell {
    Bash,
    Zsh,
    Fish,
    PowerShell,
    /// Format could not be determined; parsed as plain one-command-per-line.
    Unknown,
}

/// One command-history entry, normalized across shells.
#[derive(Debug, Clone, PartialEq, Eq)]
pub struct HistoryEntry {
    /// The shell this entry was decoded from.
    pub shell: Shell,
    /// The command text (multi-line commands keep their embedded newlines).
    pub command: String,
    /// Start time as Unix epoch seconds, when the format records it (bash with
    /// `HISTTIMEFORMAT`, zsh `EXTENDED_HISTORY`, fish). `None` for plain bash and
    /// PowerShell PSReadLine, which store no timestamps.
    pub timestamp: Option<i64>,
    /// Wall-clock duration in seconds (zsh `EXTENDED_HISTORY` only).
    pub elapsed: Option<i64>,
    /// Filesystem paths fish heuristically associated with the command.
    pub paths: Vec<String>,
}

/// The mathematical value of a [`HistoryEntry`].
pub struct EntryView {
    pub shell: Shell,
    pub command: Seq<char>,
    pub timestamp: Option<i64>,
    pub elapsed: Option<i64>,
    pub paths: Seq<Seq<char>>,
}

impl View for HistoryEntry {
    type V = EntryView;

    open spec fn view(&self) -> EntryView {
        EntryView {
            shell: self.shell,
            command: self.command@,
            timestamp: self.timestamp,
            elapsed: self.elapsed,
            paths: self.paths@.map_values(|p: String| p@),
        }
    }
}

/// The values of a sequence of entries.
pub open spec fn entry_views(es: Seq<HistoryEntry>) -> Seq<EntryView> {
    es.map_values(|e: HistoryEntry| e@)
}

/// An entry with only a shell and a command: no timestamp, duration or paths.
pub open spec fn plain_view(shell: Shell, command: Seq<char>) -> EntryView {
    EntryView {
        shell,
        command,
        timestamp: None,
        elapsed: None,
        paths: Seq::<Seq<char>>::empty(),
    }
}

impl HistoryEntry {
    /// An entry carrying only `shell` and `command`.
    pub fn plain(shell: Shell, command: &[char]) -> (e: HistoryEntry)
        ensures
            e@ == plain_view(shell, command@),
    {
        let paths: Vec<String> = Vec::new();
        let e = HistoryEntry {
            shell,
            command: string_of(command),
            timestamp: None,
            elapsed: None,
            paths,
        };
        assert(e@.paths =~= Seq::<Seq<char>>::empty());
        e
    }
}

/// The bytes that remain of `data` once a leading UTF-8 byte-order mark
/// (`EF BB BF`) is removed.
pub open spec fn bom_stripped(data: Seq<u8>) -> Seq<u8> {
    if data.len() >= 3 && data[0] == 0xEF && data[1] == 0xBB && data[2] == 0xBF {
        data.skip(3)
    } else {
        data
    }
}

/// The text every reader works on: the lossy UTF-8 decoding of the input once a
/// leading byte-order mark is gone.
pub open spec fn history_text(data: Seq<u8>) -> Seq<char> {
    lossy_utf8(bom_stripped(data))
}

/// The input is well-formed: once a leading byte-order mark is gone, the bytes
/// are valid UTF-8.
pub open spec fn valid_history(data: Seq<u8>) -> bool {
    vstd::utf8::valid_utf8(bom_stripped(data))
}

/// The text of well-formed input: its exact UTF-8 decoding, BOM removed.
pub open spec fn decoded_history(data: Seq<u8>) -> Seq<char> {
    vstd::utf8::decode_utf8(bom_stripped(data))
}

/// Strip a leading UTF-8 BOM (`EF BB BF`) if present.
pub fn strip_bom(data: &[u8]) -> (out: &[u8])
    ensures
        out@ == bom_stripped(data@),
{
    if data.len() >= 3 && data[0] == 0xEF && data[1] == 0xBB && data[2] == 0xBF {
        &data[3..data.len()]
    } else {
        data
    }
}

/// The decoded text of history bytes (BOM removed, lossy UTF-8).
pub fn decode_history(data: &[u8]) -> (text: String)
    ensures
        text@ == history_text(data@),
        valid_history(data@) ==> text@ == decoded_history(data@),
{
    decode_lossy(strip_bom(data))
}

/// The shell a single line proves: a zsh `EXTENDED_HISTORY` line, a fish
/// `- cmd:` record, or a bash `#<epoch>` timestamp line, in that order.
pub open spec fn line_shell(line: Seq<char>) -> Option<Shell> {
    if zsh::extended_shape(line) {
        Some(Shell::Zsh)
    } else if starts_with(line, "- cmd:"@) {
        Some(Shell::Fish)
    } else if bash::timestamp_of(line) is Some {
        Some(Shell::Bash)
    } else {
        None
    }
}

/// The shell the first decisive line proves, if any line is decisive.
pub open spec fn sniff(lines: Seq<Seq<char>>) -> Option<Shell>
    decreases lines.len(),
{
    if lines.len() == 0 {
        None
    } else {
        match line_shell(lines[0]) {
            Some(s) => Some(s),
            None => sniff(lines.drop_first()),
        }
    }
}

/// How many leading lines content sniffing looks at.
pub open spec fn sniff_window() -> nat {
    200
}

/// The lines sniffing looks at: the first `sniff_window()` of them.
pub open spec fn sniffed_lines(text: Seq<char>) -> Seq<Seq<char>> {
    let ls = lines_of(text);
    if ls.len() <= sniff_window() {
        ls
    } else {
        ls.take(sniff_window() as int)
    }
}

/// The shell a filename names, matched case-insensitively.
pub open spec fn name_shell(name: Seq<char>) -> Shell {
    let lower = ascii_lower(name);
    if contains(lower, "zsh_history"@) {
        Shell::Zsh
    } else if contains(lower, "fish_history"@) {
        Shell::Fish
    } else if contains(lower, "bash_history"@) {
        Shell::Bash
    } else if contains(lower, "consolehost_history"@) || contains(lower, "psreadline"@) {
        Shell::PowerShell
    } else {
        Shell::Unknown
    }
}

/// Content first; the filename only when no line decides; `Unknown` otherwise.
pub open spec fn detect_shell(text: Seq<char>, filename: Option<Seq<char>>) -> Shell {
    match sniff(sniffed_lines(text)) {
        Some(s) => s,
        None => match filename {
            Some(name) => name_shell(name),
            None => Shell::Unknown,
        },
    }
}

/// The filename hint, as text.
pub open spec fn hint_view(filename: Option<&str>) -> Option<Seq<char>> {
    match filename {
        Some(name) => Some(name@),
        None => None,
    }
}

fn line_shell_chars(line: &[char], fish_tag: &[char]) -> (r: Option<Shell>)
    requires
        fish_tag@ == "- cmd:"@,
    ensures
        r == line_shell(line@),
{
    if zsh::has_extended_shape(line) {
        Some(Shell::Zsh)
    } else if has_prefix(line, fish_tag) {
        Some(Shell::Fish)
    } else if bash::timestamp_of_chars(line).is_some() {
        Some(Shell::Bash)
    } else {
        None
    }
}

fn name_shell_str(name: &str) -> (r: Shell)
    ensures
        r == name_shell(name@),
{
    let cs = chars_of(name);
    let lower = ascii_lower_chars(cs.as_slice());
    let l = lower.as_slice();
    if contains_str(l, "zsh_history") {
        Shell::Zsh
    } else if contains_str(l, "fish_history") {
        Shell::Fish
    } else if contains_str(l, "bash_history") {
        Shell::Bash
    } else if contains_str(l, "consolehost_history") || contains_str(l, "psreadline") {
        Shell::PowerShell
    } else {
        Shell::Unknown
    }
}

/// Detect the format of decoded history text, with an optional filename hint.
pub fn detect_text(text: &str, filename: Option<&str>) -> (shell: Shell)
    ensures
        shell == detect_shell(text@, hint_view(filename)),
{
    let cs = chars_of(text);
    let all = lines(cs.as_slice());
    let n: usize = if all.len() <= 200 { all.len() } else { 200 };
    let ghost window = sniffed_lines(text@);
    assert(window =~= texts(all@).take(n as int));
    let fish_tag = chars_of("- cmd:");
    let mut i: usize = 0;
    assert(window.skip(0) =~= window);
    while i < n
        invariant
            i <= n,
            n <= all@.len(),
            window == texts(all@).take(n as int),
            window == sniffed_lines(text@),
            fish_tag@ == "- cmd:"@,
            sniff(window) == sniff(window.skip(i as int)),
        decreases n - i,
    {
        let line = &all[i];
        assert(window.skip(i as int)[0] == line@);
        match line_shell_chars(line.as_slice(), fish_tag.as_slice()) {
            Some(s) => {
                assert(window.skip(i as int).len() > 0);
                assert(sniff(window.skip(i as int)) == Some(s));
                return s;
            },
            None => {},
        }
        assert(window.skip(i as int).drop_first() =~= window.skip(i as int + 1));
        i = i + 1;
    }
    assert(window.skip(n as int) =~= Seq::<Seq<char>>::empty());
    match filename {
        Some(name) => name_shell_str(name),
        None => Shell::Unknown,
    }
}

/// Detect the history format from the bytes and an optional filename hint.
///
/// Content sniffing wins over the filename (a renamed file is still parseable):
/// a zsh `: <epoch>:<elapsed>;` line or a fish `- cmd:` record is unambiguous; a
/// bash `#<epoch>` timestamp line marks timestamped bash. Otherwise the filename
/// disambiguates PSReadLine vs plain bash; failing that, `Unknown` (plain lines).
pub fn detect(data: &[u8], filename: Option<&str>) -> (shell: Shell)
    ensures
        shell == detect_shell(history_text(data@), hint_view(filename)),
        valid_history(data@) ==> shell == detect_shell(decoded_history(data@), hint_view(filename)),
{
    let text = decode_history(data);
    detect_text(text.as_str(), filename)
}

/// The entries the reader for `shell` makes of history text; `Unknown` is read
/// as plain bash.
pub open spec fn shell_entries(text: Seq<char>, shell: Shell) -> Seq<EntryView> {
    match shell {
        Shell::Bash | Shell::Unknown => bash::bash_entries(text),
        Shell::Zsh => zsh::zsh_entries(text),
        Shell::Fish => fish::fish_entries(text),
        Shell::PowerShell => powershell::pwsh_entries(text),
    }
}

/// Parse history bytes as the given shell.
pub fn parse(data: &[u8], shell: Shell) -> (entries: Vec<HistoryEntry>)
    ensures
        entry_views(entries@) == shell_entries(history_text(data@), shell),
        valid_history(data@) ==> entry_views(entries@) == shell_entries(
            decoded_history(data@),
            shell,
        ),
{
    match shell {
        Shell::Bash | Shell::Unknown => bash::parse(data),
        Shell::Zsh => zsh::parse(data),
        Shell::Fish => fish::parse(data),
        Shell::PowerShell => powershell::parse(data),
    }
}

/// Detect the format, then parse. The zero-knowledge entry point.
pub fn parse_auto(data: &[u8], filename: Option<&str>) -> (entries: Vec<HistoryEntry>)
    ensures
        entry_views(entries@) == shell_entries(
            history_text(data@),
            detect_shell(history_text(data@), hint_view(filename)),
        ),
        valid_history(data@) ==> entry_views(entries@) == shell_entries(
            decoded_history(data@),
            detect_shell(decoded_history(data@), hint_view(filename)),
        ),
{
    parse(data, detect(data, filename))
}

// ---------------------------------------------------------------------------
// Laws
// ---------------------------------------------------------------------------

/// Content sniffing wins over the filename: once a line decides the format, no
/// filename hint changes what `detect` returns.
pub proof fn law_content_beats_filename(
    text: Seq<char>,
    hint: Option<Seq<char>>,
    other: Option<Seq<char>>,
)
    requires
        sniff(sniffed_lines(text)) is Some,
    ensures
        detect_shell(text, hint) == detect_shell(text, other),
        detect_shell(text, hint) == sniff(sniffed_lines(text))->0,
{
}

proof fn lemma_sniff_none(ls: Seq<Seq<char>>)
    requires
        sniff(ls) is None,
    ensures
        forall|i: int| 0 <= i < ls.len() ==> line_shell(#[trigger] ls[i]) is None,
    decreases ls.len(),
{
    if ls.len() > 0 {
        lemma_sniff_none(ls.drop_first());
        assert forall|i: int| 0 <= i < ls.len() implies line_shell(#[trigger] ls[i]) is None by {
            if i > 0 {
                assert(ls[i] == ls.drop_first()[i - 1]);
            }
        }
    }
}

/// A short file whose format nothing decides is read as plain lines: when
/// detection falls back to `Unknown` on text of at most `sniff_window()` lines,
/// the automatic parse yields one untimed bash entry per non-empty line.
pub proof fn law_unknown_is_plain_lines(text: Seq<char>, hint: Option<Seq<char>>)
    requires
        lines_of(text).len() <= sniff_window(),
        detect_shell(text, hint) == Shell::Unknown,
    ensures
        shell_entries(text, detect_shell(text, hint)) == bash::plain_entries(
            lines_of(text),
            Shell::Bash,
        ),
{
    let ls = lines_of(text);
    assert(sniffed_lines(text) == ls);
    if sniff(ls) is Some {
        assert(sniff(ls)->0 != Shell::Unknown) by {
            lemma_sniff_shells(ls);
        }
    }
    lemma_sniff_none(ls);
    assert forall|i: int| 0 <= i < ls.len() implies bash::timestamp_of(#[trigger] ls[i]) is None by {
        assert(line_shell(ls[i]) is None);
    }
    bash::law_bash_plain_lines(text);
}

proof fn lemma_sniff_shells(ls: Seq<Seq<char>>)
    ensures
        sniff(ls) matches Some(s) ==> s != Shell::Unknown,
    decreases ls.len(),
{
    if ls.len() > 0 {
        lemma_sniff_shells(ls.drop_first());
    }
}

/// A leading byte-order mark changes nothing: history bytes with a BOM read as
/// the same text as the bytes without it.
pub proof fn law_bom_is_invisible(data: Seq<u8>)
    requires
        !(data.len() >= 3 && data[0] == 0xEF && data[1] == 0xBB && data[2] == 0xBF),
    ensures
        history_text(seq![0xEFu8, 0xBBu8, 0xBFu8] + data) == history_text(data),
{
    assert((seq![0xEFu8, 0xBBu8, 0xBFu8] + data).skip(3) =~= data);
}

} // verus!
