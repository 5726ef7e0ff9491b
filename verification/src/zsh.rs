//! Zsh history (`.zsh_history`).
//!
//! With `EXTENDED_HISTORY` each entry is `: <beginning_time>:<elapsed_seconds>;<command>`.
//! A command containing newlines is written with each embedded newline escaped
//! as a trailing backslash before the physical newline; the reader rejoins
//! backslash-continued physical lines. Without `EXTENDED_HISTORY` the file is
//! plain one-per-line.

use vstd::prelude::*;

use crate::text::{
    all_digit_chars, all_digits, chars_of, lemma_nonempty_lines_step, nonempty_lines, copy_range, digits_i64, logical_lines, parse_digits_i64, rejoin_lines, string_of,
    texts,
};
use crate::{decoded_history, entry_views, history_text, valid_history, plain_view, EntryView, HistoryEntry, Shell};

verus! {

/// The index of the first `c` in `s`.
pub open spec fn first_index(s: Seq<char>, c: char) -> Option<int>
    decreases s.len(),
{
    if s.len() == 0 {
        None
    } else if s[0] == c {
        Some(0)
    } else {
        match first_index(s.drop_first(), c) {
            Some(i) => Some(i + 1),
            None => None,
        }
    }
}

pub proof fn lemma_first_index_bounds(s: Seq<char>, c: char)
    ensures
        first_index(s, c) matches Some(i) ==> 0 <= i < s.len() && s[i] == c,
    decreases s.len(),
{
    if s.len() > 0 {
        lemma_first_index_bounds(s.drop_first(), c);
    }
}

pub fn find_char(s: &[char], c: char) -> (r: Option<usize>)
    ensures
        r matches Some(i) ==> first_index(s@, c) == Some(i as int),
        r is None ==> first_index(s@, c) is None,
{
    let mut i: usize = 0;
    assert(s@.skip(0) =~= s@);
    while i < s.len()
        invariant
            i <= s@.len(),
            first_index(s@, c) == match first_index(s@.skip(i as int), c) {
                Some(j) => Some(j + i),
                None => None::<int>,
            },
        decreases s.len() - i,
    {
        if s[i] == c {
            return Some(i);
        }
        assert(s@.skip(i as int).drop_first() =~= s@.skip(i as int + 1));
        i = i + 1;
    }
    None
}

/// The three fields of an `EXTENDED_HISTORY` line `: <start>:<elapsed>;<command>`:
/// after `: `, the text is split at its first `;`, and the part before that at
/// its first `:`. Yields the start text, the elapsed text and the command.
pub open spec fn extended_fields(line: Seq<char>) -> Option<(Seq<char>, Seq<char>, Seq<char>)> {
    if line.len() >= 2 && line[0] == ':' && line[1] == ' ' {
        let rest = line.skip(2);
        match first_index(rest, ';') {
            None => None,
            Some(j) => {
                let meta = rest.take(j);
                match first_index(meta, ':') {
                    None => None,
                    Some(k) => Some((meta.take(k), meta.skip(k + 1), rest.skip(j + 1))),
                }
            },
        }
    } else {
        None
    }
}

/// The line has the `EXTENDED_HISTORY` shape `: <digits>:<digits>;`: both
/// fields are non-empty runs of ASCII digits, whatever their value.
pub open spec fn extended_shape(line: Seq<char>) -> bool {
    match extended_fields(line) {
        Some((start, elapsed, _)) => start.len() > 0 && all_digits(start) && elapsed.len() > 0
            && all_digits(elapsed),
        None => false,
    }
}

/// The `EXTENDED_HISTORY` prefix of `line` as values: `(start, elapsed, command)`,
/// when both fields are non-empty digit runs whose values fit in an `i64`.
pub open spec fn extended_prefix(line: Seq<char>) -> Option<(i64, i64, Seq<char>)> {
    match extended_fields(line) {
        Some((start, elapsed, command)) => match (digits_i64(start), digits_i64(elapsed)) {
            (Some(s), Some(e)) => Some((s, e, command)),
            _ => None,
        },
        None => None,
    }
}

/// Splits `: <start>:<elapsed>;<command>` into its three texts.
pub fn split_extended(line: &[char]) -> (r: Option<(Vec<char>, Vec<char>, Vec<char>)>)
    ensures
        r matches Some((s, e, c)) ==> extended_fields(line@) == Some((s@, e@, c@)),
        r is None ==> extended_fields(line@) is None,
{
    if !(line.len() >= 2 && line[0] == ':' && line[1] == ' ') {
        return None;
    }
    let rest = copy_range(line, 2, line.len());
    assert(rest@ =~= line@.skip(2));
    let j = match find_char(rest.as_slice(), ';') {
        Some(j) => j,
        None => return None,
    };
    proof {
        lemma_first_index_bounds(rest@, ';');
    }
    let meta = copy_range(rest.as_slice(), 0, j);
    let command = copy_range(rest.as_slice(), j + 1, rest.len());
    assert(meta@ =~= rest@.take(j as int));
    assert(command@ =~= rest@.skip(j as int + 1));
    let k = match find_char(meta.as_slice(), ':') {
        Some(k) => k,
        None => return None,
    };
    proof {
        lemma_first_index_bounds(meta@, ':');
    }
    let start = copy_range(meta.as_slice(), 0, k);
    let elapsed = copy_range(meta.as_slice(), k + 1, meta.len());
    assert(start@ =~= meta@.take(k as int));
    assert(elapsed@ =~= meta@.skip(k as int + 1));
    Some((start, elapsed, command))
}

/// Splits `: <start>:<elapsed>;<command>` into its three parts, the two numbers
/// parsed as `i64`.
pub fn parse_extended_prefix(line: &[char]) -> (r: Option<(i64, i64, Vec<char>)>)
    ensures
        r matches Some((s, e, c)) ==> extended_prefix(line@) == Some((s, e, c@)),
        r is None ==> extended_prefix(line@) is None,
{
    match split_extended(line) {
        Some((start, elapsed, command)) => match (
            parse_digits_i64(start.as_slice()),
            parse_digits_i64(elapsed.as_slice()),
        ) {
            (Some(s), Some(e)) => Some((s, e, command)),
            _ => None,
        },
        None => None,
    }
}

/// The line has the `EXTENDED_HISTORY` shape, checked on its digits alone.
pub fn has_extended_shape(line: &[char]) -> (b: bool)
    ensures
        b == extended_shape(line@),
{
    match split_extended(line) {
        Some((start, elapsed, _)) => start.len() > 0 && all_digit_chars(start.as_slice())
            && elapsed.len() > 0 && all_digit_chars(elapsed.as_slice()),
        None => false,
    }
}

/// True if `line` begins with the `EXTENDED_HISTORY` metadata prefix
/// `: <digits>:<digits>;`: two non-empty runs of ASCII digits, of any length.
pub fn is_extended_line(line: &str) -> (b: bool)
    ensures
        b == extended_shape(line@),
{
    let cs = chars_of(line);
    has_extended_shape(cs.as_slice())
}

/// The entry a non-empty logical line stands for: an `EXTENDED_HISTORY` line
/// carries its start time and duration; any other line is a plain command.
pub open spec fn zsh_entry(ll: Seq<char>) -> EntryView {
    match extended_prefix(ll) {
        Some((start, elapsed, command)) => EntryView {
            shell: Shell::Zsh,
            command,
            timestamp: Some(start),
            elapsed: Some(elapsed),
            paths: Seq::<Seq<char>>::empty(),
        },
        None => plain_view(Shell::Zsh, ll),
    }
}

/// One entry per non-empty logical line, in order.
pub open spec fn zsh_entries_of(lls: Seq<Seq<char>>) -> Seq<EntryView>
    decreases lls.len(),
{
    if lls.len() == 0 {
        Seq::<EntryView>::empty()
    } else if lls.last().len() == 0 {
        zsh_entries_of(lls.drop_last())
    } else {
        zsh_entries_of(lls.drop_last()).push(zsh_entry(lls.last()))
    }
}

/// The entries of zsh history text: its logical lines, empty ones skipped. A
/// physical line ending in an odd run of backslashes continues onto the next,
/// the escaping backslash dropped and the newline kept.
pub open spec fn zsh_entries(text: Seq<char>) -> Seq<EntryView> {
    zsh_entries_of(logical_lines(text, '\\'))
}

/// Parse decoded zsh history text into entries.
pub fn parse_text(text: &str) -> (entries: Vec<HistoryEntry>)
    ensures
        entry_views(entries@) == zsh_entries(text@),
{
    let cs = chars_of(text);
    let lls = rejoin_lines(cs.as_slice(), '\\');
    let mut entries: Vec<HistoryEntry> = Vec::new();
    let mut i: usize = 0;
    while i < lls.len()
        invariant
            i <= lls@.len(),
            entry_views(entries@) == zsh_entries_of(texts(lls@).take(i as int)),
        decreases lls.len() - i,
    {
        let ll = &lls[i];
        assert(texts(lls@).take(i as int + 1).drop_last() =~= texts(lls@).take(i as int));
        assert(texts(lls@).take(i as int + 1).last() == ll@);
        if ll.len() > 0 {
            let e = match parse_extended_prefix(ll.as_slice()) {
                Some((start, elapsed, command)) => {
                    let paths: Vec<String> = Vec::new();
                    let e = HistoryEntry {
                        shell: Shell::Zsh,
                        command: string_of(command.as_slice()),
                        timestamp: Some(start),
                        elapsed: Some(elapsed),
                        paths,
                    };
                    assert(e@.paths =~= Seq::<Seq<char>>::empty());
                    e
                },
                None => HistoryEntry::plain(Shell::Zsh, ll.as_slice()),
            };
            let ghost before = entry_views(entries@);
            entries.push(e);
            assert(entry_views(entries@) =~= before.push(e@));
        }
        i = i + 1;
    }
    assert(texts(lls@).take(lls@.len() as int) =~= texts(lls@));
    entries
}

/// Parse zsh history bytes into entries.
pub fn parse(data: &[u8]) -> (entries: Vec<HistoryEntry>)
    ensures
        entry_views(entries@) == zsh_entries(history_text(data@)),
        valid_history(data@) ==> entry_views(entries@) == zsh_entries(decoded_history(data@)),
{
    let text = crate::decode_history(data);
    parse_text(text.as_str())
}

// ---------------------------------------------------------------------------
// Laws
// ---------------------------------------------------------------------------

/// An entry as the zsh reader makes them: tagged zsh, no paths, and a start time
/// exactly when it has a duration (both come from one `EXTENDED_HISTORY`
/// prefix, both non-negative); an entry without them has a non-empty command.
pub open spec fn zsh_shaped(e: EntryView) -> bool {
    &&& e.shell == Shell::Zsh
    &&& e.paths.len() == 0
    &&& (e.timestamp is Some <==> e.elapsed is Some)
    &&& (e.timestamp matches Some(t) ==> t >= 0)
    &&& (e.elapsed matches Some(d) ==> d >= 0)
    &&& (e.timestamp is None ==> e.command.len() > 0)
}

proof fn lemma_zsh_shaped(lls: Seq<Seq<char>>)
    ensures
        forall|i: int|
            0 <= i < zsh_entries_of(lls).len() ==> zsh_shaped(#[trigger] zsh_entries_of(lls)[i]),
    decreases lls.len(),
{
    if lls.len() > 0 {
        lemma_zsh_shaped(lls.drop_last());
        let ll = lls.last();
        if ll.len() > 0 {
            if extended_prefix(ll) is Some {
                let (start, elapsed, _) = extended_fields(ll)->0;
                assert(digits_i64(start) is Some);
                assert(digits_i64(elapsed) is Some);
                crate::text::lemma_decimal_nonneg(start);
                crate::text::lemma_decimal_nonneg(elapsed);
                assert(zsh_shaped(zsh_entry(ll)));
            }
            assert(zsh_shaped(zsh_entry(ll)));
            let prev = zsh_entries_of(lls.drop_last());
            assert(zsh_entries_of(lls) == prev.push(zsh_entry(ll)));
            assert forall|i: int| 0 <= i < zsh_entries_of(lls).len() implies zsh_shaped(
                #[trigger] zsh_entries_of(lls)[i],
            ) by {
                if i < prev.len() {
                    assert(zsh_entries_of(lls)[i] == prev[i]);
                }
            }
        } else {
            assert(zsh_entries_of(lls) == zsh_entries_of(lls.drop_last()));
        }
    }
}

/// Every zsh entry is tagged zsh, has no paths, carries a start time exactly
/// when it carries a duration (neither negative), and has a non-empty command
/// when it carries neither.
pub proof fn law_zsh_entries_shape(text: Seq<char>)
    ensures
        forall|i: int|
            0 <= i < zsh_entries(text).len() ==> zsh_shaped(#[trigger] zsh_entries(text)[i]),
{
    lemma_zsh_shaped(logical_lines(text, '\\'));
}

proof fn lemma_zsh_per_line(lls: Seq<Seq<char>>)
    ensures
        zsh_entries_of(lls).len() == nonempty_lines(lls).len(),
        forall|i: int|
            0 <= i < zsh_entries_of(lls).len() ==> #[trigger] zsh_entries_of(lls)[i] == zsh_entry(
                nonempty_lines(lls)[i],
            ),
    decreases lls.len(),
{
    if lls.len() > 0 {
        lemma_zsh_per_line(lls.drop_last());
        lemma_nonempty_lines_step(lls);
        let prev = zsh_entries_of(lls.drop_last());
        let ne = nonempty_lines(lls.drop_last());
        if lls.last().len() > 0 {
            assert forall|i: int| 0 <= i < zsh_entries_of(lls).len() implies #[trigger] zsh_entries_of(
                lls,
            )[i] == zsh_entry(nonempty_lines(lls)[i]) by {
                if i < prev.len() {
                    assert(zsh_entries_of(lls)[i] == prev[i]);
                    assert(nonempty_lines(lls)[i] == ne[i]);
                }
            }
        }
    }
}

/// The zsh reader yields exactly one entry per non-empty logical line, in
/// order: the i-th entry is what the i-th non-empty logical line stands for,
/// whatever the entries before it hold (repeated commands are all kept).
pub proof fn law_zsh_one_entry_per_line(text: Seq<char>)
    ensures
        zsh_entries(text).len() == nonempty_lines(logical_lines(text, '\\')).len(),
        forall|i: int|
            0 <= i < zsh_entries(text).len() ==> #[trigger] zsh_entries(text)[i] == zsh_entry(
                nonempty_lines(logical_lines(text, '\\'))[i],
            ),
{
    lemma_zsh_per_line(logical_lines(text, '\\'));
}

} // verus!
