//! Fish history (`fish_history`).
//!
//! A "nearly-YAML" record list: each entry is `- cmd: <text>`, `  when: <epoch>`,
//! and an optional `  paths:` block of `    - <path>` lines. The `cmd` value can
//! contain literal `:` and `#`, so it is not valid YAML — it is parsed by line
//! prefix. Fish escapes exactly two things in `cmd`: `\` → `\\` and newline →
//! `\n`; decoding reverses only those.

use vstd::prelude::*;

use crate::text::{
    is_space, lemma_trim_end_prefix, chars_of, copy_range, has_prefix, lines, lines_of, parse_signed_i64, signed_i64,
    starts_with, string_of, texts, trim, trim_chars, trim_end, trim_end_chars,
};
use crate::{decoded_history, entry_views, history_text, valid_history, EntryView, HistoryEntry, Shell};

verus! {

/// Fish's two-rule unescaping: `\\` → `\`, `\n` → newline. A backslash before
/// any other character is kept with it, and a lone backslash at the end stays a
/// backslash.
pub open spec fn unescaped(s: Seq<char>) -> Seq<char>
    decreases s.len(),
{
    if s.len() == 0 {
        Seq::<char>::empty()
    } else if s[0] == '\\' {
        if s.len() == 1 {
            seq!['\\']
        } else if s[1] == '\\' {
            seq!['\\'] + unescaped(s.skip(2))
        } else if s[1] == 'n' {
            seq!['\n'] + unescaped(s.skip(2))
        } else {
            seq!['\\', s[1]] + unescaped(s.skip(2))
        }
    } else {
        seq![s[0]] + unescaped(s.skip(1))
    }
}

/// Fish's escaping of a command: `\` → `\\`, newline → `\n`.
pub open spec fn escaped(s: Seq<char>) -> Seq<char>
    decreases s.len(),
{
    if s.len() == 0 {
        Seq::<char>::empty()
    } else if s[0] == '\\' {
        seq!['\\', '\\'] + escaped(s.skip(1))
    } else if s[0] == '\n' {
        seq!['\\', 'n'] + escaped(s.skip(1))
    } else {
        seq![s[0]] + escaped(s.skip(1))
    }
}

pub fn unescape_chars(s: &[char]) -> (out: Vec<char>)
    ensures
        out@ == unescaped(s@),
{
    let mut out: Vec<char> = Vec::new();
    let mut i: usize = 0;
    assert(s@.skip(0) =~= s@);
    while i < s.len()
        invariant
            i <= s@.len(),
            out@ + unescaped(s@.skip(i as int)) == unescaped(s@),
        decreases s.len() - i,
    {
        let ghost rest = s@.skip(i as int);
        let c = s[i];
        if c == '\\' {
            if i + 1 == s.len() {
                out.push('\\');
                i = i + 1;
                assert(s@.skip(i as int) =~= Seq::<char>::empty());
                assert(out@ + unescaped(s@.skip(i as int)) =~= unescaped(s@));
            } else {
                let d = s[i + 1];
                if d == '\\' {
                    out.push('\\');
                } else if d == 'n' {
                    out.push('\n');
                } else {
                    out.push('\\');
                    out.push(d);
                }
                assert(rest.skip(2) =~= s@.skip(i as int + 2));
                i = i + 2;
                assert(out@ + unescaped(s@.skip(i as int)) =~= unescaped(s@));
            }
        } else {
            out.push(c);
            assert(rest.skip(1) =~= s@.skip(i as int + 1));
            i = i + 1;
            assert(out@ + unescaped(s@.skip(i as int)) =~= unescaped(s@));
        }
    }
    assert(out@ + unescaped(s@.skip(i as int)) =~= out@);
    out
}

fn same_text(a: &[char], b: &[char]) -> (r: bool)
    ensures
        r == (a@ == b@),
{
    if a.len() != b.len() {
        return false;
    }
    let r = has_prefix(a, b);
    assert(a@.take(b@.len() as int) =~= a@);
    r
}

/// Reverse fish's two-rule escaping: `\\` → `\`, `\n` → newline. No other escape
/// exists, so a lone backslash before any other char is kept verbatim.
pub fn unescape(s: &str) -> (out: String)
    ensures
        out@ == unescaped(s@),
{
    let cs = chars_of(s);
    let u = unescape_chars(cs.as_slice());
    string_of(u.as_slice())
}

/// The scan state: entries so far, and whether the lines read are inside a
/// `paths:` block.
pub struct FishScan {
    pub entries: Seq<EntryView>,
    pub in_paths: bool,
}

/// A new record for the command `cmd` (escaped as stored).
pub open spec fn record(cmd: Seq<char>) -> EntryView {
    EntryView {
        shell: Shell::Fish,
        command: unescaped(cmd),
        timestamp: None,
        elapsed: None,
        paths: Seq::<Seq<char>>::empty(),
    }
}

/// Sets the time of the last entry, if there is one.
pub open spec fn stamp_last(entries: Seq<EntryView>, ts: Option<i64>) -> Seq<EntryView> {
    if entries.len() == 0 {
        entries
    } else {
        entries.update(entries.len() - 1, EntryView { timestamp: ts, ..entries.last() })
    }
}

/// Adds a path to the last entry, if there is one.
pub open spec fn add_path_last(entries: Seq<EntryView>, path: Seq<char>) -> Seq<EntryView> {
    if entries.len() == 0 {
        entries
    } else {
        entries.update(
            entries.len() - 1,
            EntryView { paths: entries.last().paths.push(path), ..entries.last() },
        )
    }
}

/// One line through the scan. `- cmd: ` starts a record; `  when: ` sets the
/// last record's time (the trimmed value as an `i64`, or none); `  paths:`
/// opens a block whose `    - ` lines add paths to the last record; any other
/// line closes that block.
pub open spec fn fish_step(st: FishScan, line: Seq<char>) -> FishScan {
    if starts_with(line, "- cmd: "@) {
        FishScan { entries: st.entries.push(record(line.skip("- cmd: "@.len() as int))), in_paths: false }
    } else if starts_with(line, "  when: "@) {
        let ts = signed_i64(trim(line.skip("  when: "@.len() as int)));
        FishScan {
            entries: stamp_last(st.entries, ts),
            in_paths: false,
        }
    } else if trim_end(line) == "  paths:"@ {
        FishScan { in_paths: true, ..st }
    } else if st.in_paths {
        if starts_with(line, "    - "@) {
            let path = unescaped(line.skip("    - "@.len() as int));
            FishScan {
                entries: add_path_last(st.entries, path),
                in_paths: true,
            }
        } else {
            FishScan { in_paths: false, ..st }
        }
    } else {
        st
    }
}

pub open spec fn fish_scan(lines: Seq<Seq<char>>) -> FishScan
    decreases lines.len(),
{
    if lines.len() == 0 {
        FishScan { entries: Seq::<EntryView>::empty(), in_paths: false }
    } else {
        fish_step(fish_scan(lines.drop_last()), lines.last())
    }
}

/// The entries of fish history text.
pub open spec fn fish_entries(text: Seq<char>) -> Seq<EntryView> {
    fish_scan(lines_of(text)).entries
}

/// Parse decoded fish history text into entries.
pub fn parse_text(text: &str) -> (entries: Vec<HistoryEntry>)
    ensures
        entry_views(entries@) == fish_entries(text@),
{
    let cs = chars_of(text);
    let ls = lines(cs.as_slice());
    let cmd_tag = chars_of("- cmd: ");
    let when_tag = chars_of("  when: ");
    let paths_tag = chars_of("  paths:");
    let path_tag = chars_of("    - ");
    let mut entries: Vec<HistoryEntry> = Vec::new();
    let mut in_paths = false;
    let mut i: usize = 0;
    while i < ls.len()
        invariant
            i <= ls@.len(),
            cmd_tag@ == "- cmd: "@,
            when_tag@ == "  when: "@,
            paths_tag@ == "  paths:"@,
            path_tag@ == "    - "@,
            entry_views(entries@) == fish_scan(texts(ls@).take(i as int)).entries,
            in_paths == fish_scan(texts(ls@).take(i as int)).in_paths,
        decreases ls.len() - i,
    {
        let line = &ls[i];
        assert(texts(ls@).take(i as int + 1).drop_last() =~= texts(ls@).take(i as int));
        assert(texts(ls@).take(i as int + 1).last() == line@);
        let ghost before = entry_views(entries@);
        if has_prefix(line.as_slice(), cmd_tag.as_slice()) {
            let raw = copy_range(line.as_slice(), cmd_tag.len(), line.len());
            assert(raw@ =~= line@.skip("- cmd: "@.len() as int));
            let cmd = unescape_chars(raw.as_slice());
            let paths: Vec<String> = Vec::new();
            let e = HistoryEntry {
                shell: Shell::Fish,
                command: string_of(cmd.as_slice()),
                timestamp: None,
                elapsed: None,
                paths,
            };
            assert(e@.paths =~= Seq::<Seq<char>>::empty());
            entries.push(e);
            assert(entry_views(entries@) =~= before.push(record(raw@)));
            in_paths = false;
        } else if has_prefix(line.as_slice(), when_tag.as_slice()) {
            let raw = copy_range(line.as_slice(), when_tag.len(), line.len());
            assert(raw@ =~= line@.skip("  when: "@.len() as int));
            let trimmed = trim_chars(raw.as_slice());
            let ts = parse_signed_i64(trimmed.as_slice());
            if entries.len() > 0 {
                let mut last = entries.pop().unwrap();
                last.timestamp = ts;
                entries.push(last);
                assert(entry_views(entries@) =~= stamp_last(before, ts));
            } else {
                assert(entry_views(entries@) =~= stamp_last(before, ts));
            }
            in_paths = false;
        } else if same_text(trim_end_chars(line.as_slice()).as_slice(), paths_tag.as_slice()) {
            in_paths = true;
        } else if in_paths {
            if has_prefix(line.as_slice(), path_tag.as_slice()) {
                let raw = copy_range(line.as_slice(), path_tag.len(), line.len());
                assert(raw@ =~= line@.skip("    - "@.len() as int));
                let path = unescape_chars(raw.as_slice());
                let ghost p = path@;
                if entries.len() > 0 {
                    let mut last = entries.pop().unwrap();
                    let ghost old_paths = last@.paths;
                    last.paths.push(string_of(path.as_slice()));
                    assert(last@.paths =~= old_paths.push(p));
                    entries.push(last);
                    assert(entry_views(entries@) =~= add_path_last(before, p));
                } else {
                    assert(entry_views(entries@) =~= add_path_last(before, p));
                }
            } else {
                in_paths = false;
            }
        }
        i = i + 1;
    }
    assert(texts(ls@).take(ls@.len() as int) =~= texts(ls@));
    entries
}

/// Parse fish history bytes into entries.
pub fn parse(data: &[u8]) -> (entries: Vec<HistoryEntry>)
    ensures
        entry_views(entries@) == fish_entries(history_text(data@)),
        valid_history(data@) ==> entry_views(entries@) == fish_entries(decoded_history(data@)),
{
    let text = crate::decode_history(data);
    parse_text(text.as_str())
}

// ---------------------------------------------------------------------------
// Laws
// ---------------------------------------------------------------------------

/// Unescaping undoes fish's escaping: every command survives the round trip.
pub proof fn law_unescape_undoes_escape(s: Seq<char>)
    ensures
        unescaped(escaped(s)) == s,
    decreases s.len(),
{
    if s.len() > 0 {
        law_unescape_undoes_escape(s.skip(1));
        let rest = escaped(s.skip(1));
        if s[0] == '\\' {
            let e = seq!['\\', '\\'] + rest;
            assert(e.skip(2) =~= rest);
            assert(e =~= escaped(s));
        } else if s[0] == '\n' {
            let e = seq!['\\', 'n'] + rest;
            assert(e.skip(2) =~= rest);
            assert(e =~= escaped(s));
        } else {
            let e = seq![s[0]] + rest;
            assert(e.skip(1) =~= rest);
            assert(e =~= escaped(s));
        }
        assert(seq![s[0]] + s.skip(1) =~= s);
    }
}

/// Text without a backslash is its own unescaping.
pub proof fn law_unescape_plain(s: Seq<char>)
    requires
        forall|i: int| 0 <= i < s.len() ==> s[i] != '\\',
    ensures
        unescaped(s) == s,
    decreases s.len(),
{
    if s.len() > 0 {
        assert(s[0] != '\\');
        law_unescape_plain(s.skip(1));
        assert(seq![s[0]] + s.skip(1) =~= s);
    }
}

/// How many lines start a record (`- cmd: `).
pub open spec fn record_lines(lines: Seq<Seq<char>>) -> nat
    decreases lines.len(),
{
    if lines.len() == 0 {
        0
    } else if starts_with(lines.last(), "- cmd: "@) {
        record_lines(lines.drop_last()) + 1
    } else {
        record_lines(lines.drop_last())
    }
}

/// An entry as the fish reader makes them: tagged fish, with no duration.
pub open spec fn fish_shaped(e: EntryView) -> bool {
    e.shell == Shell::Fish && e.elapsed is None
}

proof fn lemma_fish_scan(lines: Seq<Seq<char>>)
    ensures
        fish_scan(lines).entries.len() == record_lines(lines),
        forall|i: int|
            0 <= i < fish_scan(lines).entries.len() ==> fish_shaped(
                #[trigger] fish_scan(lines).entries[i],
            ),
    decreases lines.len(),
{
    if lines.len() > 0 {
        lemma_fish_scan(lines.drop_last());
    }
}

/// Fish history has exactly one entry per `- cmd: ` line, each tagged fish and
/// without a duration; `when:` and `paths:` lines only annotate the last one.
pub proof fn law_fish_one_entry_per_record(text: Seq<char>)
    ensures
        fish_entries(text).len() == record_lines(lines_of(text)),
        forall|i: int|
            0 <= i < fish_entries(text).len() ==> fish_shaped(#[trigger] fish_entries(text)[i]),
{
    lemma_fish_scan(lines_of(text));
}

/// The paths the `    - ` lines `ps` name, unescaped.
pub open spec fn path_values(ps: Seq<Seq<char>>) -> Seq<Seq<char>> {
    ps.map_values(|p: Seq<char>| unescaped(p.skip("    - "@.len() as int)))
}

/// A `    - ` line is none of the other kinds of line.
proof fn lemma_path_line_kind(p: Seq<char>)
    requires
        starts_with(p, "    - "@),
    ensures
        !starts_with(p, "- cmd: "@),
        !starts_with(p, "  when: "@),
        trim_end(p) != "  paths:"@,
{
    reveal_strlit("    - ");
    reveal_strlit("- cmd: ");
    reveal_strlit("  when: ");
    reveal_strlit("  paths:");
    assert("    - "@.len() == 6);
    assert(p.take(6)[0] == p[0] && p.take(6)[2] == p[2]);
    assert(p[0] == ' ' && p[2] == ' ');
    if starts_with(p, "- cmd: "@) {
        assert(p[0] == "- cmd: "@[0]);
    }
    if starts_with(p, "  when: "@) {
        assert(p[2] == "  when: "@[2]);
    }
    lemma_trim_end_prefix(p);
    if trim_end(p) == "  paths:"@ {
        assert(trim_end(p)[2] == p[2]);
    }
}

proof fn lemma_paths_block(pre: Seq<Seq<char>>, ps: Seq<Seq<char>>)
    requires
        fish_scan(pre).in_paths,
        fish_scan(pre).entries.len() > 0,
        forall|i: int| 0 <= i < ps.len() ==> starts_with(#[trigger] ps[i], "    - "@),
    ensures
        ({
            let before = fish_scan(pre).entries;
            let after = fish_scan(pre + ps);
            &&& after.in_paths
            &&& after.entries == before.update(
                before.len() - 1,
                EntryView { paths: before.last().paths + path_values(ps), ..before.last() },
            )
        }),
    decreases ps.len(),
{
    let before = fish_scan(pre).entries;
    if ps.len() == 0 {
        assert(pre + ps =~= pre);
        assert(before.last().paths + path_values(ps) =~= before.last().paths);
        assert(before.update(before.len() - 1, before.last()) =~= before);
    } else {
        let init = ps.drop_last();
        assert forall|i: int| 0 <= i < init.len() implies starts_with(#[trigger] init[i], "    - "@) by {
            assert(init[i] == ps[i]);
        }
        lemma_paths_block(pre, init);
        assert((pre + ps).drop_last() =~= pre + init);
        assert((pre + ps).last() == ps.last());
        assert(starts_with(ps[ps.len() - 1], "    - "@));
        lemma_path_line_kind(ps.last());
        let v = unescaped(ps.last().skip("    - "@.len() as int));
        assert(path_values(ps) =~= path_values(init).push(v));
        assert(before.last().paths + path_values(init) + seq![v] =~= before.last().paths
            + path_values(ps));
        assert((before.last().paths + path_values(init)).push(v) =~= before.last().paths
            + path_values(ps));
        assert(fish_scan(pre + ps).entries =~= before.update(
            before.len() - 1,
            EntryView { paths: before.last().paths + path_values(ps), ..before.last() },
        ));
    }
}

/// A `paths:` block annotates only the most recent record: after a `  paths:`
/// line, each following `    - <path>` line adds its unescaped path, in order,
/// to the last entry; every earlier entry, and the number of entries, stay as
/// they were.
pub proof fn law_fish_paths_annotate_last(
    pre: Seq<Seq<char>>,
    header: Seq<char>,
    ps: Seq<Seq<char>>,
)
    requires
        fish_scan(pre).entries.len() > 0,
        header == "  paths:"@,
        forall|i: int| 0 <= i < ps.len() ==> starts_with(#[trigger] ps[i], "    - "@),
    ensures
        ({
            let before = fish_scan(pre).entries;
            let after = fish_scan(pre + seq![header] + ps).entries;
            &&& after.len() == before.len()
            &&& forall|i: int| 0 <= i < before.len() - 1 ==> #[trigger] after[i] == before[i]
            &&& after.last() == EntryView {
                paths: before.last().paths + path_values(ps),
                ..before.last()
            }
        }),
{
    reveal_strlit("  paths:");
    reveal_strlit("- cmd: ");
    reveal_strlit("  when: ");
    let head = pre + seq![header];
    assert(head.drop_last() =~= pre);
    assert(head.last() == header);
    assert(!starts_with(header, "- cmd: "@)) by {
        if starts_with(header, "- cmd: "@) {
            assert(header[0] == "- cmd: "@[0]);
        }
    }
    assert(!starts_with(header, "  when: "@)) by {
        if starts_with(header, "  when: "@) {
            assert(header[2] == "  when: "@[2]);
        }
    }
    assert(trim_end(header) == header) by {
        assert(!is_space(header.last()));
    }
    assert(fish_scan(head).in_paths);
    assert(fish_scan(head).entries == fish_scan(pre).entries);
    lemma_paths_block(head, ps);
}

/// A `- cmd: ` line starts a new record behind all earlier ones, which it leaves
/// unchanged: its command is the unescaped rest of the line, with no time, no
/// duration and no paths yet.
pub proof fn law_fish_record_appends(pre: Seq<Seq<char>>, line: Seq<char>)
    requires
        starts_with(line, "- cmd: "@),
    ensures
        fish_scan(pre.push(line)).entries == fish_scan(pre).entries.push(
            EntryView {
                shell: Shell::Fish,
                command: unescaped(line.skip("- cmd: "@.len() as int)),
                timestamp: None,
                elapsed: None,
                paths: Seq::<Seq<char>>::empty(),
            },
        ),
{
    assert(pre.push(line).drop_last() =~= pre);
}

/// A `  when: ` line sets the time of the most recent record only (the trimmed
/// value read as an `i64`, or none when it is not one); earlier records keep
/// theirs.
pub proof fn law_fish_when_stamps_last(pre: Seq<Seq<char>>, line: Seq<char>)
    requires
        starts_with(line, "  when: "@),
        fish_scan(pre).entries.len() > 0,
    ensures
        ({
            let before = fish_scan(pre).entries;
            let after = fish_scan(pre.push(line)).entries;
            &&& after.len() == before.len()
            &&& forall|i: int| 0 <= i < before.len() - 1 ==> #[trigger] after[i] == before[i]
            &&& after.last() == EntryView {
                timestamp: signed_i64(trim(line.skip("  when: "@.len() as int))),
                ..before.last()
            }
        }),
{
    reveal_strlit("- cmd: ");
    reveal_strlit("  when: ");
    assert(pre.push(line).drop_last() =~= pre);
    assert(!starts_with(line, "- cmd: "@)) by {
        if starts_with(line, "- cmd: "@) {
            assert(line[0] == "- cmd: "@[0]);
            assert(line[0] == "  when: "@[0]);
        }
    }
}

} // verus!
