//! Character-level text model shared by the history readers: line splitting,
//! decimal numbers, whitespace trimming, prefix and substring tests.

use vstd::prelude::*;

verus! {

broadcast use vstd::string::group_string_axioms;

// ---------------------------------------------------------------------------
// Conversions between `str`/`String` and character vectors
// ---------------------------------------------------------------------------

/// The characters of `s`, in order.
pub fn chars_of(s: &str) -> (out: Vec<char>)
    ensures
        out@ == s@,
{
    let mut out: Vec<char> = Vec::new();
    for c in it: s.chars()
        invariant
            it.seq() == s@,
            out@ == it.seq().take(it.index() as int),
    {
        out.push(c);
    }
    out
}

/// Collects characters into a `String` (std's `FromIterator<&char> for String`):
/// the string holds exactly the given characters, in order.
#[verifier::external_body]
pub(crate) fn string_of(cs: &[char]) -> (s: String)
    ensures
        s@ == cs@,
{
    cs.iter().collect()
}

/// The text that lossy UTF-8 decoding makes of `bytes`: each maximal invalid
/// sequence becomes U+FFFD.
pub uninterp spec fn lossy_utf8(bytes: Seq<u8>) -> Seq<char>;

/// `String::from_utf8_lossy`: the result is the lossy decoding of `bytes`; on
/// valid UTF-8 it is exactly the decoded text (std documents that nothing is
/// replaced then). How invalid sequences are replaced is left to the name.
#[verifier::external_body]
pub(crate) fn decode_lossy(bytes: &[u8]) -> (s: String)
    ensures
        s@ == lossy_utf8(bytes@),
        vstd::utf8::valid_utf8(bytes@) ==> s@ == vstd::utf8::decode_utf8(bytes@),
{
    String::from_utf8_lossy(bytes).into_owned()
}

/// The texts held by a vector of character vectors.
pub open spec fn texts(v: Seq<Vec<char>>) -> Seq<Seq<char>> {
    v.map_values(|x: Vec<char>| x@)
}

// ---------------------------------------------------------------------------
// Splitting
// ---------------------------------------------------------------------------

/// `str::split(sep)`: the pieces of `t` between occurrences of `sep`
/// (always at least one piece; `""` splits into `[""]`).
pub open spec fn split_on(t: Seq<char>, sep: char) -> Seq<Seq<char>>
    decreases t.len(),
{
    if t.len() == 0 {
        seq![Seq::<char>::empty()]
    } else {
        let prev = split_on(t.drop_last(), sep);
        if t.last() == sep {
            prev.push(Seq::<char>::empty())
        } else {
            prev.update(prev.len() - 1, prev.last().push(t.last()))
        }
    }
}

pub proof fn lemma_split_on_nonempty(t: Seq<char>, sep: char)
    ensures
        split_on(t, sep).len() >= 1,
    decreases t.len(),
{
    if t.len() > 0 {
        lemma_split_on_nonempty(t.drop_last(), sep);
    }
}

/// A line terminated by `\n` loses one trailing `\r` (a CRLF ending).
pub open spec fn strip_cr(p: Seq<char>) -> Seq<char> {
    if p.len() > 0 && p.last() == '\r' {
        p.drop_last()
    } else {
        p
    }
}

/// `str::lines`: split at `\n`, each terminated line losing a trailing `\r`;
/// the final line ending is optional (no empty last line after it).
pub open spec fn lines_of(t: Seq<char>) -> Seq<Seq<char>> {
    let parts = split_on(t, '\n');
    let body = parts.drop_last().map_values(|p: Seq<char>| strip_cr(p));
    if parts.last().len() == 0 {
        body
    } else {
        body.push(parts.last())
    }
}

/// Splits `t` at every `sep`, as `str::split` does.
pub fn split_chars(t: &[char], sep: char) -> (parts: Vec<Vec<char>>)
    ensures
        texts(parts@) == split_on(t@, sep),
{
    let mut parts: Vec<Vec<char>> = Vec::new();
    let mut cur: Vec<char> = Vec::new();
    let mut i: usize = 0;
    assert(t@.take(0) =~= Seq::<char>::empty());
    while i < t.len()
        invariant
            i <= t.len(),
            texts(parts@).push(cur@) =~= split_on(t@.take(i as int), sep),
        decreases t.len() - i,
    {
        let c = t[i];
        let ghost before = t@.take(i as int);
        assert(t@.take(i as int + 1).drop_last() =~= before);
        proof {
            lemma_split_on_nonempty(before, sep);
        }
        if c == sep {
            let done = cur;
            parts.push(done);
            cur = Vec::new();
            assert(texts(parts@) =~= split_on(before, sep));
        } else {
            cur.push(c);
            assert(texts(parts@).push(cur@) =~= split_on(before, sep).update(
                split_on(before, sep).len() - 1,
                split_on(before, sep).last().push(c),
            ));
        }
        i = i + 1;
    }
    assert(t@.take(t.len() as int) =~= t@);
    parts.push(cur);
    parts
}

/// Splits `t` into lines, as `str::lines` does.
pub fn lines(t: &[char]) -> (out: Vec<Vec<char>>)
    ensures
        texts(out@) == lines_of(t@),
{
    let parts = split_chars(t, '\n');
    proof {
        lemma_split_on_nonempty(t@, '\n');
    }
    let n = parts.len();
    let mut out: Vec<Vec<char>> = Vec::new();
    let mut i: usize = 0;
    while i + 1 < n
        invariant
            n == texts(parts@).len(),
            n >= 1,
            i + 1 <= n,
            texts(out@) =~= texts(parts@).take(i as int).map_values(
                |p: Seq<char>| strip_cr(p),
            ),
        decreases n - i,
    {
        let p = &parts[i];
        let mut line: Vec<char> = Vec::new();
        let mut k: usize = 0;
        let len = if p.len() > 0 && p[p.len() - 1] == '\r' { p.len() - 1 } else { p.len() };
        assert(p@ == texts(parts@)[i as int]);
        while k < len
            invariant
                k <= len,
                len <= p.len(),
                line@ =~= p@.take(k as int),
            decreases len - k,
        {
            line.push(p[k]);
            k = k + 1;
        }
        assert(line@ =~= strip_cr(p@));
        let ghost prev_out = texts(out@);
        out.push(line);
        assert(texts(out@) =~= prev_out.push(strip_cr(p@)));
        i = i + 1;
        assert(texts(parts@).take(i as int).map_values(|p: Seq<char>| strip_cr(p))
            =~= texts(parts@).take(i as int - 1).map_values(|p: Seq<char>| strip_cr(p)).push(strip_cr(p@)));
    }
    let last = &parts[n - 1];
    assert(texts(parts@).take(n as int - 1) =~= texts(parts@).drop_last());
    if last.len() > 0 {
        let mut copy: Vec<char> = Vec::new();
        let mut k: usize = 0;
        while k < last.len()
            invariant
                k <= last.len(),
                copy@ =~= last@.take(k as int),
            decreases last.len() - k,
        {
            copy.push(last[k]);
            k = k + 1;
        }
        assert(copy@ =~= last@);
        out.push(copy);
    }
    out
}

// ---------------------------------------------------------------------------
// Copying a range
// ---------------------------------------------------------------------------

/// A fresh vector holding `s[from..to]`.
pub fn copy_range(s: &[char], from: usize, to: usize) -> (out: Vec<char>)
    requires
        from <= to <= s@.len(),
    ensures
        out@ == s@.subrange(from as int, to as int),
{
    let mut out: Vec<char> = Vec::new();
    let mut k: usize = from;
    while k < to
        invariant
            from <= k <= to,
            to <= s@.len(),
            out@ =~= s@.subrange(from as int, k as int),
        decreases to - k,
    {
        out.push(s[k]);
        k = k + 1;
    }
    out
}

// ---------------------------------------------------------------------------
// Decimal numbers
// ---------------------------------------------------------------------------

pub open spec fn is_digit(c: char) -> bool {
    '0' <= c && c <= '9'
}

pub open spec fn all_digits(s: Seq<char>) -> bool {
    forall|i: int| 0 <= i < s.len() ==> #[trigger] is_digit(s[i])
}

pub open spec fn digit_value(c: char) -> int {
    c as int - '0' as int
}

/// The value of a run of decimal digits, most significant first.
pub open spec fn decimal_value(s: Seq<char>) -> int
    decreases s.len(),
{
    if s.len() == 0 {
        0
    } else {
        decimal_value(s.drop_last()) * 10 + digit_value(s.last())
    }
}

/// `str::parse::<i64>` on text that holds nothing but ASCII digits: the value,
/// unless the text is empty, holds another character, or exceeds `i64::MAX`.
pub open spec fn digits_i64(s: Seq<char>) -> Option<i64> {
    if s.len() > 0 && all_digits(s) && decimal_value(s) <= i64::MAX {
        Some(decimal_value(s) as i64)
    } else {
        None
    }
}

/// `str::parse::<i64>`: an optional `+` or `-`, then one or more ASCII digits,
/// whose value lies in the range of `i64`.
pub open spec fn signed_i64(s: Seq<char>) -> Option<i64> {
    if s.len() > 0 && (s[0] == '+' || s[0] == '-') {
        let d = s.skip(1);
        let v = if s[0] == '-' { -decimal_value(d) } else { decimal_value(d) };
        if d.len() > 0 && all_digits(d) && i64::MIN <= v <= i64::MAX {
            Some(v as i64)
        } else {
            None
        }
    } else {
        digits_i64(s)
    }
}

pub proof fn lemma_decimal_nonneg(s: Seq<char>)
    requires
        all_digits(s),
    ensures
        decimal_value(s) >= 0,
    decreases s.len(),
{
    if s.len() > 0 {
        assert(is_digit(s[s.len() - 1]));
        assert(all_digits(s.drop_last()));
        lemma_decimal_nonneg(s.drop_last());
    }
}

/// A longer run of digits is worth at least as much as any of its prefixes.
pub proof fn lemma_decimal_prefix_le(s: Seq<char>, k: int)
    requires
        all_digits(s),
        0 <= k <= s.len(),
    ensures
        decimal_value(s.take(k)) <= decimal_value(s),
    decreases s.len(),
{
    if k < s.len() {
        let d = s.drop_last();
        assert(all_digits(d));
        assert(is_digit(s[s.len() - 1]));
        lemma_decimal_prefix_le(d, k);
        lemma_decimal_nonneg(d);
        assert(d.take(k) =~= s.take(k));
    } else {
        assert(s.take(k) =~= s);
    }
}

pub fn is_digit_char(c: char) -> (b: bool)
    ensures
        b == is_digit(c),
{
    '0' <= c && c <= '9'
}

pub fn all_digit_chars(s: &[char]) -> (b: bool)
    ensures
        b == all_digits(s@),
{
    let mut i: usize = 0;
    while i < s.len()
        invariant
            i <= s.len(),
            forall|j: int| 0 <= j < i ==> #[trigger] is_digit(s@[j]),
        decreases s.len() - i,
    {
        if !is_digit_char(s[i]) {
            return false;
        }
        i = i + 1;
    }
    true
}

/// The value of the digit run `s` when it is non-empty, all digits, and at most
/// `limit`; `None` otherwise.
pub fn decimal_up_to(s: &[char], limit: u64) -> (r: Option<u64>)
    ensures
        r matches Some(v) ==> s@.len() > 0 && all_digits(s@) && v == decimal_value(s@)
            && v <= limit,
        r is None ==> !(s@.len() > 0 && all_digits(s@) && decimal_value(s@) <= limit),
{
    if s.len() == 0 || !all_digit_chars(s) {
        return None;
    }
    let mut acc: u64 = 0;
    let mut i: usize = 0;
    assert(s@.take(0) =~= Seq::<char>::empty());
    while i < s.len()
        invariant
            i <= s.len(),
            all_digits(s@),
            acc == decimal_value(s@.take(i as int)),
            acc <= limit,
        decreases s.len() - i,
    {
        assert(is_digit(s@[i as int]));
        let d: u64 = (s[i] as u32 - '0' as u32) as u64;
        assert(s@.take(i as int + 1).drop_last() =~= s@.take(i as int));
        if d > limit || acc > (limit - d) / 10 {
            proof {
                lemma_decimal_prefix_le(s@, i as int + 1);
                assert(decimal_value(s@.take(i as int + 1)) == acc * 10 + d);
            }
            return None;
        }
        acc = acc * 10 + d;
        i = i + 1;
    }
    assert(s@.take(s@.len() as int) =~= s@);
    Some(acc)
}

/// `str::parse::<i64>` on a run of digits.
pub fn parse_digits_i64(s: &[char]) -> (r: Option<i64>)
    ensures
        r == digits_i64(s@),
{
    match decimal_up_to(s, 0x7fff_ffff_ffff_ffff) {
        Some(v) => Some(v as i64),
        None => None,
    }
}

/// `str::parse::<i64>`, sign included.
pub fn parse_signed_i64(s: &[char]) -> (r: Option<i64>)
    ensures
        r == signed_i64(s@),
{
    if s.len() > 0 && (s[0] == '+' || s[0] == '-') {
        let d = copy_range(s, 1, s.len());
        assert(d@ =~= s@.skip(1));
        if s[0] == '-' {
            match decimal_up_to(d.as_slice(), 0x8000_0000_0000_0000) {
                Some(v) => {
                    if v == 0x8000_0000_0000_0000 {
                        Some(-0x7fff_ffff_ffff_ffff - 1)
                    } else {
                        Some(-(v as i64))
                    }
                },
                None => None,
            }
        } else {
            match decimal_up_to(d.as_slice(), 0x7fff_ffff_ffff_ffff) {
                Some(v) => Some(v as i64),
                None => None,
            }
        }
    } else {
        parse_digits_i64(s)
    }
}

// ---------------------------------------------------------------------------
// Whitespace
// ---------------------------------------------------------------------------

/// `char::is_whitespace`: the Unicode `White_Space` property.
pub open spec fn is_space(c: char) -> bool {
    ||| '\u{9}' <= c && c <= '\u{d}'
    ||| c == ' '
    ||| c == '\u{85}'
    ||| c == '\u{a0}'
    ||| c == '\u{1680}'
    ||| '\u{2000}' <= c && c <= '\u{200a}'
    ||| c == '\u{2028}'
    ||| c == '\u{2029}'
    ||| c == '\u{202f}'
    ||| c == '\u{205f}'
    ||| c == '\u{3000}'
}

pub fn is_space_char(c: char) -> (b: bool)
    ensures
        b == is_space(c),
{
    ('\u{9}' <= c && c <= '\u{d}') || c == ' ' || c == '\u{85}' || c == '\u{a0}' || c
        == '\u{1680}' || ('\u{2000}' <= c && c <= '\u{200a}') || c == '\u{2028}' || c
        == '\u{2029}' || c == '\u{202f}' || c == '\u{205f}' || c == '\u{3000}'
}

/// `str::trim_start`.
pub open spec fn trim_start(s: Seq<char>) -> Seq<char>
    decreases s.len(),
{
    if s.len() > 0 && is_space(s[0]) {
        trim_start(s.drop_first())
    } else {
        s
    }
}

/// `str::trim_end`.
pub open spec fn trim_end(s: Seq<char>) -> Seq<char>
    decreases s.len(),
{
    if s.len() > 0 && is_space(s.last()) {
        trim_end(s.drop_last())
    } else {
        s
    }
}

/// `str::trim`.
pub open spec fn trim(s: Seq<char>) -> Seq<char> {
    trim_end(trim_start(s))
}

pub fn trim_end_chars(s: &[char]) -> (out: Vec<char>)
    ensures
        out@ == trim_end(s@),
{
    let mut j: usize = s.len();
    assert(s@.subrange(0, j as int) =~= s@);
    while j > 0 && is_space_char(s[j - 1])
        invariant
            j <= s.len(),
            trim_end(s@.subrange(0, j as int)) == trim_end(s@),
        decreases j,
    {
        assert(s@.subrange(0, j as int).drop_last() =~= s@.subrange(0, j as int - 1));
        j = j - 1;
    }
    copy_range(s, 0, j)
}

pub fn trim_chars(s: &[char]) -> (out: Vec<char>)
    ensures
        out@ == trim(s@),
{
    let mut i: usize = 0;
    assert(s@.subrange(0, s@.len() as int) =~= s@);
    while i < s.len() && is_space_char(s[i])
        invariant
            i <= s.len(),
            trim_start(s@.subrange(i as int, s@.len() as int)) == trim_start(s@),
        decreases s.len() - i,
    {
        assert(s@.subrange(i as int, s@.len() as int).drop_first() =~= s@.subrange(
            i as int + 1,
            s@.len() as int,
        ));
        i = i + 1;
    }
    let rest = copy_range(s, i, s.len());
    trim_end_chars(rest.as_slice())
}

// ---------------------------------------------------------------------------
// Prefixes, suffixes, substrings
// ---------------------------------------------------------------------------

pub open spec fn starts_with(s: Seq<char>, p: Seq<char>) -> bool {
    p.len() <= s.len() && s.take(p.len() as int) == p
}

pub open spec fn ends_with(s: Seq<char>, p: Seq<char>) -> bool {
    p.len() <= s.len() && s.skip(s.len() - p.len()) == p
}

/// `needle` occurs in `hay` starting at `i`.
pub open spec fn occurs_at(hay: Seq<char>, needle: Seq<char>, i: int) -> bool {
    0 <= i && i + needle.len() <= hay.len() && hay.subrange(i, i + needle.len()) == needle
}

/// `str::contains` with a string pattern.
pub open spec fn contains(hay: Seq<char>, needle: Seq<char>) -> bool {
    exists|i: int| occurs_at(hay, needle, i)
}

pub fn matches_at(hay: &[char], needle: &[char], i: usize) -> (b: bool)
    requires
        i + needle@.len() <= hay@.len(),
    ensures
        b == occurs_at(hay@, needle@, i as int),
{
    let mut k: usize = 0;
    while k < needle.len()
        invariant
            k <= needle.len(),
            i + needle.len() <= hay.len(),
            forall|j: int| 0 <= j < k ==> hay@[i + j] == needle@[j],
        decreases needle.len() - k,
    {
        if hay[i + k] != needle[k] {
            assert(hay@.subrange(i as int, i + needle@.len())[k as int] != needle@[k as int]);
            return false;
        }
        k = k + 1;
    }
    assert(hay@.subrange(i as int, i + needle@.len()) =~= needle@);
    true
}

pub fn has_prefix(s: &[char], p: &[char]) -> (b: bool)
    ensures
        b == starts_with(s@, p@),
{
    if p.len() > s.len() {
        return false;
    }
    let b = matches_at(s, p, 0);
    assert(s@.subrange(0, p@.len() as int) =~= s@.take(p@.len() as int));
    b
}

pub fn has_suffix(s: &[char], p: &[char]) -> (b: bool)
    ensures
        b == ends_with(s@, p@),
{
    if p.len() > s.len() {
        return false;
    }
    let b = matches_at(s, p, s.len() - p.len());
    assert(s@.subrange(s@.len() - p@.len(), s@.len() as int) =~= s@.skip(
        s@.len() - p@.len(),
    ));
    b
}

pub fn contains_chars(hay: &[char], needle: &[char]) -> (b: bool)
    ensures
        b == contains(hay@, needle@),
{
    if needle.len() > hay.len() {
        return false;
    }
    let last = hay.len() - needle.len();
    let mut i: usize = 0;
    while i < last
        invariant
            i <= last,
            last + needle@.len() == hay@.len(),
            forall|j: int| 0 <= j < i ==> !occurs_at(hay@, needle@, j),
        decreases last - i,
    {
        if matches_at(hay, needle, i) {
            return true;
        }
        i = i + 1;
    }
    if matches_at(hay, needle, last) {
        return true;
    }
    assert forall|j: int| !occurs_at(hay@, needle@, j) by {
        if 0 <= j && j + needle@.len() <= hay@.len() {
            assert(j <= last);
        }
    }
    false
}

/// `contains` with the needle given as a string.
pub fn contains_str(hay: &[char], needle: &str) -> (b: bool)
    ensures
        b == contains(hay@, needle@),
{
    let n = chars_of(needle);
    contains_chars(hay, n.as_slice())
}

// ---------------------------------------------------------------------------
// ASCII case folding
// ---------------------------------------------------------------------------

/// `char::to_ascii_lowercase`.
pub open spec fn lower_char(c: char) -> char {
    if 'A' <= c && c <= 'Z' {
        ((c as int) + 32) as char
    } else {
        c
    }
}

/// `str::to_ascii_lowercase`.
pub open spec fn ascii_lower(s: Seq<char>) -> Seq<char> {
    s.map_values(|c: char| lower_char(c))
}

pub fn ascii_lower_chars(s: &[char]) -> (out: Vec<char>)
    ensures
        out@ == ascii_lower(s@),
{
    let mut out: Vec<char> = Vec::new();
    let mut i: usize = 0;
    while i < s.len()
        invariant
            i <= s.len(),
            out@ =~= ascii_lower(s@.take(i as int)),
        decreases s.len() - i,
    {
        let c = s[i];
        let l = if 'A' <= c && c <= 'Z' { ((c as u8) + 32) as char } else { c };
        assert(l == lower_char(c));
        out.push(l);
        i = i + 1;
        assert(ascii_lower(s@.take(i as int)) =~= ascii_lower(s@.take(i as int - 1)).push(
            lower_char(c),
        ));
    }
    assert(s@.take(s@.len() as int) =~= s@);
    out
}

// ---------------------------------------------------------------------------
// Joining and continuation lines
// ---------------------------------------------------------------------------

/// `lines.join("\n")`.
pub open spec fn join_lines(ls: Seq<Seq<char>>) -> Seq<char>
    decreases ls.len(),
{
    if ls.len() == 0 {
        Seq::<char>::empty()
    } else if ls.len() == 1 {
        ls[0]
    } else {
        join_lines(ls.drop_last()) + seq!['\n'] + ls.last()
    }
}

/// How many copies of `c` end `s`.
pub open spec fn trailing_count(s: Seq<char>, c: char) -> nat
    decreases s.len(),
{
    if s.len() > 0 && s.last() == c {
        trailing_count(s.drop_last(), c) + 1
    } else {
        0
    }
}

/// `s` ends in an odd run of `c`: the last `c` escapes the line ending.
pub open spec fn continues(s: Seq<char>, c: char) -> bool {
    trailing_count(s, c) % 2 == 1
}

pub proof fn lemma_continues_ends_with(s: Seq<char>, c: char)
    requires
        continues(s, c),
    ensures
        s.len() > 0,
        s.last() == c,
{
}

pub fn ends_with_odd_run(s: &[char], c: char) -> (b: bool)
    ensures
        b == continues(s@, c),
{
    let mut j: usize = s.len();
    let mut n: usize = 0;
    assert(s@.subrange(0, j as int) =~= s@);
    while j > 0 && s[j - 1] == c
        invariant
            j <= s.len(),
            n + j == s.len(),
            trailing_count(s@, c) == n + trailing_count(s@.subrange(0, j as int), c),
        decreases j,
    {
        assert(s@.subrange(0, j as int).drop_last() =~= s@.subrange(0, j as int - 1));
        j = j - 1;
        n = n + 1;
    }
    n % 2 == 1
}

/// State of the rejoining scan: the finished logical lines, the one being
/// built, and whether the previous physical line asked to be continued.
pub struct Rejoin {
    pub done: Seq<Seq<char>>,
    pub current: Seq<char>,
    pub continuing: bool,
}

/// One physical line through the rejoining scan: a continued line is appended
/// after an embedded newline; a line ending in an odd run of `esc` loses that
/// last `esc` and continues onto the next line.
pub open spec fn rejoin_step(st: Rejoin, line: Seq<char>, esc: char) -> Rejoin {
    let cur = if st.continuing { st.current + seq!['\n'] + line } else { line };
    if continues(line, esc) {
        Rejoin { done: st.done, current: cur.drop_last(), continuing: true }
    } else {
        Rejoin { done: st.done.push(cur), current: Seq::<char>::empty(), continuing: false }
    }
}

pub open spec fn rejoin_scan(parts: Seq<Seq<char>>, esc: char) -> Rejoin
    decreases parts.len(),
{
    if parts.len() == 0 {
        Rejoin { done: Seq::<Seq<char>>::empty(), current: Seq::<char>::empty(), continuing: false }
    } else {
        rejoin_step(rejoin_scan(parts.drop_last(), esc), parts.last(), esc)
    }
}

/// The logical lines of `t`: its `\n`-separated physical lines, with every line
/// that ends in an odd run of `esc` joined to the next by a newline (the
/// escaping `esc` dropped). A continuation still open at the end of the text
/// is kept as a last logical line.
pub open spec fn logical_lines(t: Seq<char>, esc: char) -> Seq<Seq<char>> {
    let st = rejoin_scan(split_on(t, '\n'), esc);
    if st.continuing {
        st.done.push(st.current)
    } else {
        st.done
    }
}

/// Rejoins continued physical lines into logical lines.
pub fn rejoin_lines(t: &[char], esc: char) -> (out: Vec<Vec<char>>)
    ensures
        texts(out@) == logical_lines(t@, esc),
{
    let parts = split_chars(t, '\n');
    let mut out: Vec<Vec<char>> = Vec::new();
    let mut current: Vec<char> = Vec::new();
    let mut continuing = false;
    let mut i: usize = 0;
    while i < parts.len()
        invariant
            i <= parts@.len(),
            ({
                let st = rejoin_scan(texts(parts@).take(i as int), esc);
                &&& texts(out@) == st.done
                &&& current@ == st.current
                &&& continuing == st.continuing
            }),
        decreases parts.len() - i,
    {
        let line = &parts[i];
        assert(texts(parts@).take(i as int + 1).drop_last() =~= texts(parts@).take(i as int));
        assert(texts(parts@).take(i as int + 1).last() == line@);
        let mut cur: Vec<char> = if continuing {
            let mut c = current;
            c.push('\n');
            let mut k: usize = 0;
            let ghost base = c@;
            while k < line.len()
                invariant
                    k <= line@.len(),
                    c@ =~= base + line@.take(k as int),
                decreases line.len() - k,
            {
                c.push(line[k]);
                k = k + 1;
            }
            assert(line@.take(line@.len() as int) =~= line@);
            c
        } else {
            copy_range(line.as_slice(), 0, line.len())
        };
        assert(line@.subrange(0, line@.len() as int) =~= line@);
        let ghost prev = rejoin_scan(texts(parts@).take(i as int), esc);
        let ghost prev_out = texts(out@);
        assert(cur@ =~= if prev.continuing { prev.current + seq!['\n'] + line@ } else { line@ });
        if ends_with_odd_run(line.as_slice(), esc) {
            proof {
                lemma_continues_ends_with(line@, esc);
            }
            cur.pop();
            current = cur;
            continuing = true;
        } else {
            let ghost pushed = cur@;
            out.push(cur);
            assert(texts(out@) =~= prev_out.push(pushed));
            current = Vec::new();
            continuing = false;
        }
        i = i + 1;
    }
    assert(texts(parts@).take(parts@.len() as int) =~= texts(parts@));
    if continuing {
        let ghost prev_out = texts(out@);
        let ghost pushed = current@;
        out.push(current);
        assert(texts(out@) =~= prev_out.push(pushed));
    }
    out
}

proof fn lemma_rejoin_plain(parts: Seq<Seq<char>>, esc: char)
    requires
        forall|i: int| 0 <= i < parts.len() ==> !continues(#[trigger] parts[i], esc),
    ensures
        rejoin_scan(parts, esc) == (Rejoin {
            done: parts,
            current: Seq::<char>::empty(),
            continuing: false,
        }),
    decreases parts.len(),
{
    if parts.len() > 0 {
        assert(!continues(parts[parts.len() - 1], esc));
        lemma_rejoin_plain(parts.drop_last(), esc);
        assert(parts.drop_last().push(parts.last()) =~= parts);
    } else {
        assert(parts =~= Seq::<Seq<char>>::empty());
    }
}

/// Text in which no physical line ends in an odd run of `esc` has exactly its
/// physical lines as logical lines: rejoining changes nothing.
pub proof fn law_logical_lines_without_continuation(t: Seq<char>, esc: char)
    requires
        forall|i: int|
            0 <= i < split_on(t, '\n').len() ==> !continues(#[trigger] split_on(t, '\n')[i], esc),
    ensures
        logical_lines(t, esc) == split_on(t, '\n'),
{
    lemma_rejoin_plain(split_on(t, '\n'), esc);
}

/// How a writer stores the physical lines `ps` of one logical line: every line
/// but the last is followed by `esc` and a newline.
pub open spec fn escaped_record(ps: Seq<Seq<char>>, esc: char) -> Seq<char>
    decreases ps.len(),
{
    if ps.len() == 0 {
        Seq::<char>::empty()
    } else if ps.len() == 1 {
        ps[0]
    } else {
        escaped_record(ps.drop_last(), esc) + seq![esc, '\n'] + ps.last()
    }
}

/// The physical lines of an escaped record: each but the last ends in `esc`.
pub open spec fn escaped_pieces(ps: Seq<Seq<char>>, esc: char) -> Seq<Seq<char>> {
    Seq::new(ps.len(), |i: int| if i < ps.len() - 1 { ps[i].push(esc) } else { ps[i] })
}

pub open spec fn free_of(s: Seq<char>, c: char) -> bool {
    forall|i: int| 0 <= i < s.len() ==> s[i] != c
}

proof fn lemma_split_append(s: Seq<char>, p: Seq<char>, sep: char)
    requires
        free_of(p, sep),
    ensures
        split_on(s + p, sep) == split_on(s, sep).update(
            split_on(s, sep).len() - 1,
            split_on(s, sep).last() + p,
        ),
    decreases p.len(),
{
    lemma_split_on_nonempty(s, sep);
    if p.len() == 0 {
        assert(s + p =~= s);
        assert(split_on(s, sep).last() + p =~= split_on(s, sep).last());
        assert(split_on(s, sep).update(split_on(s, sep).len() - 1, split_on(s, sep).last())
            =~= split_on(s, sep));
    } else {
        let q = p.drop_last();
        assert(free_of(q, sep));
        lemma_split_append(s, q, sep);
        assert((s + p).drop_last() =~= s + q);
        assert((s + p).last() == p.last());
        assert(p.last() != sep);
        lemma_split_on_nonempty(s + q, sep);
        assert((split_on(s, sep).last() + q).push(p.last()) =~= split_on(s, sep).last() + p);
        let prev = split_on(s + q, sep);
        assert(split_on(s + p, sep) == prev.update(prev.len() - 1, prev.last().push(p.last())));
        assert(prev.len() == split_on(s, sep).len());
        assert(prev.last() == split_on(s, sep).last() + q);
        assert(split_on(s + p, sep) =~= split_on(s, sep).update(
            split_on(s, sep).len() - 1,
            split_on(s, sep).last() + p,
        ));
    }
}

proof fn lemma_split_escaped(ps: Seq<Seq<char>>, esc: char)
    requires
        ps.len() >= 1,
        esc != '\n',
        forall|i: int| 0 <= i < ps.len() ==> free_of(#[trigger] ps[i], '\n'),
    ensures
        split_on(escaped_record(ps, esc), '\n') == escaped_pieces(ps, esc),
    decreases ps.len(),
{
    if ps.len() == 1 {
        lemma_split_append(Seq::<char>::empty(), ps[0], '\n');
        assert(Seq::<char>::empty() + ps[0] =~= ps[0]);
        assert(split_on(escaped_record(ps, esc), '\n') =~= escaped_pieces(ps, esc));
    } else {
        let init = ps.drop_last();
        assert forall|i: int| 0 <= i < init.len() implies free_of(#[trigger] init[i], '\n') by {
            assert(init[i] == ps[i]);
        }
        lemma_split_escaped(init, esc);
        let r = escaped_record(init, esc);
        let last = ps.last();
        assert(free_of(ps[ps.len() - 1], '\n'));
        assert(free_of(seq![esc], '\n'));
        lemma_split_append(r, seq![esc], '\n');
        lemma_split_on_nonempty(r, '\n');
        assert((r + seq![esc]).push('\n').drop_last() =~= r + seq![esc]);
        let with_nl = (r + seq![esc]).push('\n');
        assert(split_on(with_nl, '\n') == split_on(r + seq![esc], '\n').push(Seq::<char>::empty()));
        lemma_split_append(with_nl, last, '\n');
        assert(with_nl + last =~= escaped_record(ps, esc));
        lemma_split_on_nonempty(r + seq![esc], '\n');
        assert(split_on(escaped_record(ps, esc), '\n') =~= escaped_pieces(ps, esc)) by {
            assert(init[init.len() - 1].push(esc) =~= init[init.len() - 1] + seq![esc]);
            assert(Seq::<char>::empty() + last =~= last);
        }
    }
}

proof fn lemma_trailing_push(p: Seq<char>, c: char)
    ensures
        trailing_count(p.push(c), c) == trailing_count(p, c) + 1,
{
    assert(p.push(c).drop_last() =~= p);
}

proof fn lemma_rejoin_escaped(ps: Seq<Seq<char>>, esc: char, k: int)
    requires
        1 <= k < ps.len(),
        forall|i: int| 0 <= i < ps.len() ==> !continues(#[trigger] ps[i], esc),
    ensures
        rejoin_scan(escaped_pieces(ps, esc).take(k), esc) == (Rejoin {
            done: Seq::<Seq<char>>::empty(),
            current: join_lines(ps.take(k)),
            continuing: true,
        }),
    decreases k,
{
    let pieces = escaped_pieces(ps, esc);
    let line = pieces[k - 1];
    assert(line == ps[k - 1].push(esc));
    lemma_trailing_push(ps[k - 1], esc);
    assert(!continues(ps[k - 1], esc));
    assert(continues(line, esc));
    assert(pieces.take(k).drop_last() =~= pieces.take(k - 1));
    assert(pieces.take(k).last() == line);
    let prev = rejoin_scan(pieces.take(k - 1), esc);
    assert(rejoin_scan(pieces.take(k), esc) == rejoin_step(prev, line, esc));
    if k == 1 {
        assert(pieces.take(0) =~= Seq::<Seq<char>>::empty());
        assert(prev.continuing == false);
        assert(prev.done =~= Seq::<Seq<char>>::empty());
        assert(line.drop_last() =~= ps[0]);
        assert(ps.take(1) =~= seq![ps[0]]);
        assert(join_lines(ps.take(1)) == ps[0]);
    } else {
        lemma_rejoin_escaped(ps, esc, k - 1);
        let pt = ps.take(k);
        assert(pt.drop_last() =~= ps.take(k - 1));
        assert(pt.last() == ps[k - 1]);
        assert(join_lines(pt) == join_lines(pt.drop_last()) + seq!['\n'] + pt.last());
        assert((join_lines(ps.take(k - 1)) + seq!['\n'] + line).drop_last()
            =~= join_lines(ps.take(k - 1)) + seq!['\n'] + ps[k - 1]);
    }
}

/// Escaping each embedded line ending with `esc` and rejoining undoes each
/// other: a logical line written as physical lines, each but the last followed
/// by `esc` and a newline, reads back as that one logical line, provided no
/// physical line holds a newline or already ends in an odd run of `esc`.
pub proof fn law_rejoin_undoes_escaping(ps: Seq<Seq<char>>, esc: char)
    requires
        ps.len() >= 1,
        esc != '\n',
        forall|i: int| 0 <= i < ps.len() ==> free_of(#[trigger] ps[i], '\n'),
        forall|i: int| 0 <= i < ps.len() ==> !continues(#[trigger] ps[i], esc),
    ensures
        logical_lines(escaped_record(ps, esc), esc) == seq![join_lines(ps)],
{
    lemma_split_escaped(ps, esc);
    let pieces = escaped_pieces(ps, esc);
    let n = ps.len();
    assert(pieces.take(n as int) =~= pieces);
    assert(ps.take(n as int) =~= ps);
    assert(!continues(ps[n - 1], esc));
    assert(pieces[n - 1] == ps[n - 1]);
    let prev = rejoin_scan(pieces.drop_last(), esc);
    assert(rejoin_scan(pieces, esc) == rejoin_step(prev, pieces.last(), esc));
    if n == 1 {
        assert(pieces.drop_last() =~= Seq::<Seq<char>>::empty());
        assert(!prev.continuing);
        assert(prev.done =~= Seq::<Seq<char>>::empty());
        assert(ps =~= seq![ps[0]]);
    } else {
        lemma_rejoin_escaped(ps, esc, n - 1);
        assert(pieces.drop_last() =~= pieces.take(n - 1));
        assert(ps.drop_last() =~= ps.take(n - 1));
        assert(join_lines(ps) == join_lines(ps.drop_last()) + seq!['\n'] + ps.last());
    }
    assert(!rejoin_scan(pieces, esc).continuing);
    assert(logical_lines(escaped_record(ps, esc), esc) =~= seq![join_lines(ps)]);
}

/// The non-empty lines of `lls`, in order.
pub open spec fn nonempty_lines(lls: Seq<Seq<char>>) -> Seq<Seq<char>> {
    lls.filter(|l: Seq<char>| l.len() > 0)
}

/// Dropping the last line: the non-empty lines gain that line exactly when it is
/// non-empty.
pub proof fn lemma_nonempty_lines_step(lls: Seq<Seq<char>>)
    requires
        lls.len() > 0,
    ensures
        nonempty_lines(lls) == if lls.last().len() > 0 {
            nonempty_lines(lls.drop_last()).push(lls.last())
        } else {
            nonempty_lines(lls.drop_last())
        },
{
    reveal(Seq::filter);
}

/// Trimming the end keeps a prefix of the text.
pub proof fn lemma_trim_end_prefix(s: Seq<char>)
    ensures
        trim_end(s).len() <= s.len(),
        trim_end(s) == s.take(trim_end(s).len() as int),
    decreases s.len(),
{
    if s.len() > 0 && is_space(s.last()) {
        lemma_trim_end_prefix(s.drop_last());
        assert(s.drop_last().take(trim_end(s).len() as int) =~= s.take(trim_end(s).len() as int));
    } else {
        assert(s.take(s.len() as int) =~= s);
    }
}

} // verus!
