//! Bash history (`.bash_history`).
//!
//! Plain one-command-per-line by default. With `HISTTIMEFORMAT` set, each entry
//! is preceded by a `#<unix_epoch>` line. Multi-line commands are stored with
//! literal embedded newlines, so a `#<digits>` line is the only reliable entry
//! boundary: the lines that follow it accumulate into one command until the next
//! boundary.

use vstd::prelude::*;

use crate::text::{chars_of, copy_range, digits_i64, join_lines, lines, lines_of, parse_digits_i64, string_of, texts};
use crate::{decoded_history, entry_views, history_text, valid_history, plain_view, EntryView, HistoryEntry, Shell};

verus! {

/// The epoch a bash timestamp line records: `#` followed by one or more ASCII
/// digits and nothing else, whose value fits in an `i64`.
pub open spec fn timestamp_of(line: Seq<char>) -> Option<i64> {
    if line.len() > 0 && line[0] == '#' {
        digits_i64(line.skip(1))
    } else {
        None
    }
}

/// If `line` is a bash timestamp line (`#` immediately followed by ≥1 digits and
/// nothing else), return the epoch. Bash writes only the raw integer.
pub fn parse_timestamp_line(line: &str) -> (r: Option<i64>)
    ensures
        r == timestamp_of(line@),
{
    let cs = chars_of(line);
    timestamp_of_chars(cs.as_slice())
}

pub fn timestamp_of_chars(line: &[char]) -> (r: Option<i64>)
    ensures
        r == timestamp_of(line@),
{
    if line.len() > 0 && line[0] == '#' {
        let rest = copy_range(line, 1, line.len());
        assert(rest@ =~= line@.skip(1));
        parse_digits_i64(rest.as_slice())
    } else {
        None
    }
}

/// The scan state: entries so far, the epoch of the last marker, whether a
/// marker has been seen, and the lines gathered since it.
pub struct BashScan {
    pub entries: Seq<EntryView>,
    pub pending: Option<i64>,
    pub accumulating: bool,
    pub lines: Seq<Seq<char>>,
}

/// The command gathered since the last marker, joined by newlines, closes an
/// entry stamped `ts`, unless no line or only one empty line was gathered.
pub open spec fn flush(entries: Seq<EntryView>, ts: Option<i64>, lines: Seq<Seq<char>>) -> Seq<
    EntryView,
> {
    if lines.len() == 0 || join_lines(lines).len() == 0 {
        entries
    } else {
        entries.push(
            EntryView {
                shell: Shell::Bash,
                command: join_lines(lines),
                timestamp: ts,
                elapsed: None,
                paths: Seq::<Seq<char>>::empty(),
            },
        )
    }
}

/// One line through the scan. A timestamp line closes the command gathered so
/// far and starts a new one; after a first marker every other line joins the
/// current command; before any marker each non-empty line is its own command.
pub open spec fn bash_step(st: BashScan, line: Seq<char>) -> BashScan {
    match timestamp_of(line) {
        Some(ts) => BashScan {
            entries: flush(st.entries, st.pending, st.lines),
            pending: Some(ts),
            accumulating: true,
            lines: Seq::<Seq<char>>::empty(),
        },
        None => if st.accumulating {
            BashScan { lines: st.lines.push(line), ..st }
        } else if line.len() > 0 {
            BashScan { entries: st.entries.push(plain_view(Shell::Bash, line)), ..st }
        } else {
            st
        },
    }
}

pub open spec fn bash_scan(lines: Seq<Seq<char>>) -> BashScan
    decreases lines.len(),
{
    if lines.len() == 0 {
        BashScan {
            entries: Seq::<EntryView>::empty(),
            pending: None,
            accumulating: false,
            lines: Seq::<Seq<char>>::empty(),
        }
    } else {
        bash_step(bash_scan(lines.drop_last()), lines.last())
    }
}

/// The entries of bash history text: the scan over its lines, with the last
/// gathered command closed at the end.
pub open spec fn bash_entries(text: Seq<char>) -> Seq<EntryView> {
    bash_lines_entries(lines_of(text))
}

/// The entries of a sequence of bash history lines: the scan, with the last
/// gathered command closed at the end.
pub open spec fn bash_lines_entries(lines: Seq<Seq<char>>) -> Seq<EntryView> {
    let st = bash_scan(lines);
    flush(st.entries, st.pending, st.lines)
}

/// Closes the gathered command (`cmd`, from `n` lines) into `entries`.
fn flush_into(entries: &mut Vec<HistoryEntry>, ts: Option<i64>, cmd: &Vec<char>, has_lines: bool, Ghost(lines): Ghost<Seq<Seq<char>>>)
    requires
        has_lines == (lines.len() > 0),
        cmd@ == join_lines(lines),
    ensures
        entry_views(final(entries)@) == flush(entry_views(old(entries)@), ts, lines),
{
    if !has_lines || cmd.len() == 0 {
        return;
    }
    let paths: Vec<String> = Vec::new();
    let e = HistoryEntry {
        shell: Shell::Bash,
        command: string_of(cmd.as_slice()),
        timestamp: ts,
        elapsed: None,
        paths,
    };
    assert(e@.paths =~= Seq::<Seq<char>>::empty());
    let ghost before = entry_views(entries@);
    entries.push(e);
    assert(entry_views(entries@) =~= before.push(e@));
}

/// Parse decoded bash history text into entries.
pub fn parse_text(text: &str) -> (entries: Vec<HistoryEntry>)
    ensures
        entry_views(entries@) == bash_entries(text@),
{
    let cs = chars_of(text);
    let ls = lines(cs.as_slice());
    let mut entries: Vec<HistoryEntry> = Vec::new();
    let mut pending: Option<i64> = None;
    let mut accumulating = false;
    let mut cmd: Vec<char> = Vec::new();
    let mut has_lines = false;
    let ghost mut gathered: Seq<Seq<char>> = Seq::empty();
    let mut i: usize = 0;
    while i < ls.len()
        invariant
            i <= ls@.len(),
            ({
                let st = bash_scan(texts(ls@).take(i as int));
                &&& entry_views(entries@) == st.entries
                &&& pending == st.pending
                &&& accumulating == st.accumulating
                &&& gathered == st.lines
            }),
            has_lines == (gathered.len() > 0),
            cmd@ == join_lines(gathered),
        decreases ls.len() - i,
    {
        let line = &ls[i];
        assert(texts(ls@).take(i as int + 1).drop_last() =~= texts(ls@).take(i as int));
        assert(texts(ls@).take(i as int + 1).last() == line@);
        match timestamp_of_chars(line.as_slice()) {
            Some(ts) => {
                flush_into(&mut entries, pending, &cmd, has_lines, Ghost(gathered));
                pending = Some(ts);
                accumulating = true;
                cmd = Vec::new();
                has_lines = false;
                proof {
                    gathered = Seq::empty();
                }
            },
            None => {
                if accumulating {
                    if has_lines {
                        cmd.push('\n');
                    }
                    let ghost base = cmd@;
                    let mut k: usize = 0;
                    while k < line.len()
                        invariant
                            k <= line@.len(),
                            cmd@ =~= base + line@.take(k as int),
                        decreases line.len() - k,
                    {
                        cmd.push(line[k]);
                        k = k + 1;
                    }
                    proof {
                        assert(line@.take(line@.len() as int) =~= line@);
                        let old_g = gathered;
                        gathered = gathered.push(line@);
                        assert(gathered.drop_last() =~= old_g);
                        assert(cmd@ =~= join_lines(gathered));
                    }
                    has_lines = true;
                } else if line.len() > 0 {
                    let e = HistoryEntry::plain(Shell::Bash, line.as_slice());
                    let ghost before = entry_views(entries@);
                    entries.push(e);
                    assert(entry_views(entries@) =~= before.push(e@));
                }
            },
        }
        i = i + 1;
    }
    assert(texts(ls@).take(ls@.len() as int) =~= texts(ls@));
    flush_into(&mut entries, pending, &cmd, has_lines, Ghost(gathered));
    entries
}

/// Parse bash history bytes into entries.
pub fn parse(data: &[u8]) -> (entries: Vec<HistoryEntry>)
    ensures
        entry_views(entries@) == bash_entries(history_text(data@)),
        valid_history(data@) ==> entry_views(entries@) == bash_entries(decoded_history(data@)),
{
    let text = crate::decode_history(data);
    parse_text(text.as_str())
}

// ---------------------------------------------------------------------------
// Laws
// ---------------------------------------------------------------------------

/// An entry as the bash reader makes them: tagged bash, a non-empty command, no
/// duration and no paths.
pub open spec fn bash_shaped(e: EntryView) -> bool {
    &&& e.shell == Shell::Bash
    &&& e.command.len() > 0
    &&& e.elapsed is None
    &&& e.paths.len() == 0
}

/// One plain entry of `shell` per non-empty line, in order.
pub open spec fn plain_entries(lines: Seq<Seq<char>>, shell: Shell) -> Seq<EntryView>
    decreases lines.len(),
{
    if lines.len() == 0 {
        Seq::<EntryView>::empty()
    } else if lines.last().len() == 0 {
        plain_entries(lines.drop_last(), shell)
    } else {
        plain_entries(lines.drop_last(), shell).push(plain_view(shell, lines.last()))
    }
}

proof fn lemma_flush_shaped(entries: Seq<EntryView>, ts: Option<i64>, lines: Seq<Seq<char>>)
    requires
        forall|i: int| 0 <= i < entries.len() ==> bash_shaped(#[trigger] entries[i]),
    ensures
        forall|i: int|
            0 <= i < flush(entries, ts, lines).len() ==> bash_shaped(
                #[trigger] flush(entries, ts, lines)[i],
            ),
{
}

proof fn lemma_scan_shaped(lines: Seq<Seq<char>>)
    ensures
        forall|i: int|
            0 <= i < bash_scan(lines).entries.len() ==> bash_shaped(
                #[trigger] bash_scan(lines).entries[i],
            ),
    decreases lines.len(),
{
    if lines.len() > 0 {
        let prev = bash_scan(lines.drop_last());
        lemma_scan_shaped(lines.drop_last());
        lemma_flush_shaped(prev.entries, prev.pending, prev.lines);
    }
}

/// Every entry the bash reader returns is tagged bash, has a non-empty command,
/// and carries neither a duration nor paths.
pub proof fn law_bash_entries_shape(text: Seq<char>)
    ensures
        forall|i: int|
            0 <= i < bash_entries(text).len() ==> bash_shaped(#[trigger] bash_entries(text)[i]),
{
    let st = bash_scan(lines_of(text));
    lemma_scan_shaped(lines_of(text));
    lemma_flush_shaped(st.entries, st.pending, st.lines);
}

proof fn lemma_scan_plain(lines: Seq<Seq<char>>)
    requires
        forall|i: int| 0 <= i < lines.len() ==> timestamp_of(#[trigger] lines[i]) is None,
    ensures
        bash_scan(lines) == (BashScan {
            entries: plain_entries(lines, Shell::Bash),
            pending: None,
            accumulating: false,
            lines: Seq::<Seq<char>>::empty(),
        }),
    decreases lines.len(),
{
    if lines.len() > 0 {
        assert(timestamp_of(lines[lines.len() - 1]) is None);
        lemma_scan_plain(lines.drop_last());
    }
}

/// Without any `#<epoch>` line, bash history is plain one-command-per-line:
/// one untimed entry per non-empty line, in order.
pub proof fn law_bash_plain_lines(text: Seq<char>)
    requires
        forall|i: int|
            0 <= i < lines_of(text).len() ==> timestamp_of(#[trigger] lines_of(text)[i]) is None,
    ensures
        bash_entries(text) == plain_entries(lines_of(text), Shell::Bash),
{
    lemma_scan_plain(lines_of(text));
}

proof fn lemma_scan_body(pre: Seq<Seq<char>>, body: Seq<Seq<char>>)
    requires
        bash_scan(pre).accumulating,
        forall|i: int| 0 <= i < body.len() ==> timestamp_of(#[trigger] body[i]) is None,
    ensures
        bash_scan(pre + body) == (BashScan {
            lines: bash_scan(pre).lines + body,
            ..bash_scan(pre)
        }),
    decreases body.len(),
{
    if body.len() == 0 {
        assert(pre + body =~= pre);
        assert(bash_scan(pre).lines + body =~= bash_scan(pre).lines);
    } else {
        let init = body.drop_last();
        assert forall|i: int| 0 <= i < init.len() implies timestamp_of(#[trigger] init[i]) is None by {
            assert(init[i] == body[i]);
        }
        lemma_scan_body(pre, init);
        assert((pre + body).drop_last() =~= pre + init);
        assert((pre + body).last() == body.last());
        assert(timestamp_of(body[body.len() - 1]) is None);
        assert(bash_scan(pre).lines + init + seq![body.last()] =~= bash_scan(pre).lines + body);
        assert((bash_scan(pre).lines + init).push(body.last()) =~= bash_scan(pre).lines + body);
    }
}

/// A `#<epoch>` line opens one command: every following line up to the next
/// marker belongs to it, joined with its embedded newlines and stamped with that
/// epoch.
pub proof fn law_bash_marker_block(text: Seq<char>, marker: Seq<char>, body: Seq<Seq<char>>)
    requires
        lines_of(text) == seq![marker] + body,
        timestamp_of(marker) is Some,
        forall|i: int| 0 <= i < body.len() ==> timestamp_of(#[trigger] body[i]) is None,
        join_lines(body).len() > 0,
    ensures
        bash_entries(text) == seq![
            EntryView {
                shell: Shell::Bash,
                command: join_lines(body),
                timestamp: timestamp_of(marker),
                elapsed: None,
                paths: Seq::<Seq<char>>::empty(),
            },
        ],
{
    let pre = seq![marker];
    assert(pre.drop_last() =~= Seq::<Seq<char>>::empty());
    let init = bash_scan(Seq::<Seq<char>>::empty());
    assert(bash_scan(pre) == bash_step(init, marker));
    assert(flush(init.entries, init.pending, init.lines) == init.entries);
    assert(bash_scan(pre).accumulating);
    assert(bash_scan(pre).lines =~= Seq::<Seq<char>>::empty());
    assert(bash_scan(pre).entries =~= Seq::<EntryView>::empty());
    lemma_scan_body(pre, body);
    assert(Seq::<Seq<char>>::empty() + body =~= body);
    if body.len() == 0 {
        assert(join_lines(body).len() == 0);
    }
    assert(bash_entries(text) =~= seq![
        EntryView {
            shell: Shell::Bash,
            command: join_lines(body),
            timestamp: timestamp_of(marker),
            elapsed: None,
            paths: Seq::<Seq<char>>::empty(),
        },
    ]);
}

/// The entry a marker block closes into.
pub open spec fn block_entry(marker: Seq<char>, body: Seq<Seq<char>>) -> EntryView {
    EntryView {
        shell: Shell::Bash,
        command: join_lines(body),
        timestamp: timestamp_of(marker),
        elapsed: None,
        paths: Seq::<Seq<char>>::empty(),
    }
}

pub open spec fn is_prefix(a: Seq<EntryView>, b: Seq<EntryView>) -> bool {
    a.len() <= b.len() && b.take(a.len() as int) == a
}

proof fn lemma_flush_extends(entries: Seq<EntryView>, ts: Option<i64>, lines: Seq<Seq<char>>)
    ensures
        is_prefix(entries, flush(entries, ts, lines)),
{
    assert(flush(entries, ts, lines).take(entries.len() as int) =~= entries);
}

proof fn lemma_prefix_trans(a: Seq<EntryView>, b: Seq<EntryView>, c: Seq<EntryView>)
    requires
        is_prefix(a, b),
        is_prefix(b, c),
    ensures
        is_prefix(a, c),
{
    assert(c.take(a.len() as int) =~= c.take(b.len() as int).take(a.len() as int));
}

/// Later lines only add entries: the entries closed after `a` stay in front.
proof fn lemma_scan_grows(a: Seq<Seq<char>>, b: Seq<Seq<char>>)
    ensures
        is_prefix(bash_scan(a).entries, bash_scan(a + b).entries),
    decreases b.len(),
{
    if b.len() == 0 {
        assert(a + b =~= a);
        assert(bash_scan(a).entries.take(bash_scan(a).entries.len() as int) =~= bash_scan(
            a,
        ).entries);
    } else {
        lemma_scan_grows(a, b.drop_last());
        assert((a + b).drop_last() =~= a + b.drop_last());
        let prev = bash_scan(a + b.drop_last());
        lemma_flush_extends(prev.entries, prev.pending, prev.lines);
        let next = bash_scan(a + b).entries;
        assert(is_prefix(prev.entries, next)) by {
            assert(next.take(prev.entries.len() as int) =~= prev.entries);
        }
        lemma_prefix_trans(bash_scan(a).entries, prev.entries, next);
    }
}

proof fn lemma_scan_block(prefix: Seq<Seq<char>>, marker: Seq<char>, body: Seq<Seq<char>>)
    requires
        timestamp_of(marker) is Some,
        forall|i: int| 0 <= i < body.len() ==> timestamp_of(#[trigger] body[i]) is None,
    ensures
        bash_scan(prefix + seq![marker] + body) == (BashScan {
            entries: bash_lines_entries(prefix),
            pending: timestamp_of(marker),
            accumulating: true,
            lines: body,
        }),
{
    let head = prefix + seq![marker];
    assert(head.drop_last() =~= prefix);
    assert(head.last() == marker);
    assert(bash_scan(head).lines =~= Seq::<Seq<char>>::empty());
    lemma_scan_body(head, body);
    assert(Seq::<Seq<char>>::empty() + body =~= body);
}

/// A `#<epoch>` marker opens its own command wherever it stands: after any
/// earlier lines, the marker and the lines up to the next marker (or the end)
/// add exactly one entry — their lines joined by newlines, stamped with the
/// marker's epoch — behind the entries of the earlier lines, which stay as they
/// were. Nothing compares the new command with earlier ones.
pub proof fn law_bash_marker_block_after(
    prefix: Seq<Seq<char>>,
    marker: Seq<char>,
    body: Seq<Seq<char>>,
    rest: Seq<Seq<char>>,
)
    requires
        timestamp_of(marker) is Some,
        forall|i: int| 0 <= i < body.len() ==> timestamp_of(#[trigger] body[i]) is None,
        join_lines(body).len() > 0,
        rest.len() == 0 || timestamp_of(rest[0]) is Some,
    ensures
        is_prefix(
            bash_lines_entries(prefix).push(block_entry(marker, body)),
            bash_lines_entries(prefix + seq![marker] + body + rest),
        ),
        rest.len() == 0 ==> bash_lines_entries(prefix + seq![marker] + body) == bash_lines_entries(
            prefix,
        ).push(block_entry(marker, body)),
{
    lemma_scan_block(prefix, marker, body);
    let block = prefix + seq![marker] + body;
    let expected = bash_lines_entries(prefix).push(block_entry(marker, body));
    if body.len() == 0 {
        assert(join_lines(body).len() == 0);
    }
    assert(bash_lines_entries(block) =~= expected);
    if rest.len() == 0 {
        assert(block + rest =~= block);
        assert(expected.take(expected.len() as int) =~= expected);
    } else {
        let first = block.push(rest[0]);
        assert(first.drop_last() =~= block);
        assert(first.last() == rest[0]);
        assert(bash_scan(first).entries == expected);
        let tail = rest.drop_first();
        assert(first + tail =~= block + rest);
        lemma_scan_grows(first, tail);
        let whole = bash_scan(first + tail);
        lemma_flush_extends(whole.entries, whole.pending, whole.lines);
        lemma_prefix_trans(expected, whole.entries, bash_lines_entries(block + rest));
    }
}

} // verus!
