//! PowerShell PSReadLine history (`ConsoleHost_history.txt`).
//!
//! Plain one-command-per-line with **no timestamps**. A command spanning
//! multiple lines ends each non-final physical line with a trailing backtick
//! (PowerShell's line-continuation character); the reader rejoins them. A
//! leading UTF-8 BOM is stripped if present.
//!
//! PSReadLine refuses to persist lines containing `password`/`token`/`secret`/
//! `apikey`/`asplaintext`, so the *absence* of a credential command here is not
//! evidence it was never run — a coverage caveat, never a negative finding.

use vstd::prelude::*;

use crate::text::{
    chars_of, lemma_nonempty_lines_step, logical_lines, nonempty_lines, rejoin_lines, texts,
};
use crate::{decoded_history, entry_views, history_text, valid_history, plain_view, EntryView, HistoryEntry, Shell};

verus! {

/// One plain PowerShell entry per non-empty logical line, in order.
pub open spec fn pwsh_entries_of(lls: Seq<Seq<char>>) -> Seq<EntryView>
    decreases lls.len(),
{
    if lls.len() == 0 {
        Seq::<EntryView>::empty()
    } else if lls.last().len() == 0 {
        pwsh_entries_of(lls.drop_last())
    } else {
        pwsh_entries_of(lls.drop_last()).push(plain_view(Shell::PowerShell, lls.last()))
    }
}

/// The entries of PSReadLine history text: its logical lines, empty ones
/// skipped. A physical line ending in an odd run of backticks continues onto the
/// next (an even run is escaped literal backticks).
pub open spec fn pwsh_entries(text: Seq<char>) -> Seq<EntryView> {
    pwsh_entries_of(logical_lines(text, '`'))
}

/// Parse decoded PSReadLine history text into entries (all timestamps `None`).
pub fn parse_text(text: &str) -> (entries: Vec<HistoryEntry>)
    ensures
        entry_views(entries@) == pwsh_entries(text@),
{
    let cs = chars_of(text);
    let lls = rejoin_lines(cs.as_slice(), '`');
    let mut entries: Vec<HistoryEntry> = Vec::new();
    let mut i: usize = 0;
    while i < lls.len()
        invariant
            i <= lls@.len(),
            entry_views(entries@) == pwsh_entries_of(texts(lls@).take(i as int)),
        decreases lls.len() - i,
    {
        let ll = &lls[i];
        assert(texts(lls@).take(i as int + 1).drop_last() =~= texts(lls@).take(i as int));
        assert(texts(lls@).take(i as int + 1).last() == ll@);
        if ll.len() > 0 {
            let e = HistoryEntry::plain(Shell::PowerShell, ll.as_slice());
            let ghost before = entry_views(entries@);
            entries.push(e);
            assert(entry_views(entries@) =~= before.push(e@));
        }
        i = i + 1;
    }
    assert(texts(lls@).take(lls@.len() as int) =~= texts(lls@));
    entries
}

/// Parse PSReadLine history bytes into entries (all timestamps `None`).
pub fn parse(data: &[u8]) -> (entries: Vec<HistoryEntry>)
    ensures
        entry_views(entries@) == pwsh_entries(history_text(data@)),
        valid_history(data@) ==> entry_views(entries@) == pwsh_entries(decoded_history(data@)),
{
    let text = crate::decode_history(data);
    parse_text(text.as_str())
}

proof fn lemma_pwsh_shaped(lls: Seq<Seq<char>>)
    ensures
        forall|i: int|
            0 <= i < pwsh_entries_of(lls).len() ==> #[trigger] pwsh_entries_of(lls)[i]
                == plain_view(Shell::PowerShell, pwsh_entries_of(lls)[i].command)
                && pwsh_entries_of(lls)[i].command.len() > 0,
    decreases lls.len(),
{
    if lls.len() > 0 {
        lemma_pwsh_shaped(lls.drop_last());
    }
}

/// PSReadLine stores no timestamps: every entry is a plain PowerShell command
/// (no time, no duration, no paths) with a non-empty command.
pub proof fn law_pwsh_entries_untimed(text: Seq<char>)
    ensures
        forall|i: int|
            0 <= i < pwsh_entries(text).len() ==> #[trigger] pwsh_entries(text)[i] == plain_view(
                Shell::PowerShell,
                pwsh_entries(text)[i].command,
            ) && pwsh_entries(text)[i].command.len() > 0,
{
    lemma_pwsh_shaped(logical_lines(text, '`'));
}

proof fn lemma_pwsh_per_line(lls: Seq<Seq<char>>)
    ensures
        pwsh_entries_of(lls).len() == nonempty_lines(lls).len(),
        forall|i: int|
            0 <= i < pwsh_entries_of(lls).len() ==> #[trigger] pwsh_entries_of(lls)[i] == plain_view(
                Shell::PowerShell,
                nonempty_lines(lls)[i],
            ),
    decreases lls.len(),
{
    if lls.len() > 0 {
        lemma_pwsh_per_line(lls.drop_last());
        lemma_nonempty_lines_step(lls);
        let prev = pwsh_entries_of(lls.drop_last());
        let ne = nonempty_lines(lls.drop_last());
        if lls.last().len() > 0 {
            assert forall|i: int| 0 <= i < pwsh_entries_of(lls).len() implies #[trigger] pwsh_entries_of(
                lls,
            )[i] == plain_view(Shell::PowerShell, nonempty_lines(lls)[i]) by {
                if i < prev.len() {
                    assert(pwsh_entries_of(lls)[i] == prev[i]);
                    assert(nonempty_lines(lls)[i] == ne[i]);
                }
            }
        }
    }
}

/// The PSReadLine reader yields exactly one untimed PowerShell entry per
/// non-empty logical line, in order, holding that line as its command
/// (repeated commands are all kept).
pub proof fn law_pwsh_one_entry_per_line(text: Seq<char>)
    ensures
        pwsh_entries(text).len() == nonempty_lines(logical_lines(text, '`')).len(),
        forall|i: int|
            0 <= i < pwsh_entries(text).len() ==> #[trigger] pwsh_entries(text)[i] == plain_view(
                Shell::PowerShell,
                nonempty_lines(logical_lines(text, '`'))[i],
            ),
{
    lemma_pwsh_per_line(logical_lines(text, '`'));
}

} // verus!
