//! Character-level helpers shared by the rest of the library, and the
//! trusted boundary to the Unicode normalization and case-mapping code.

use unicode_normalization::UnicodeNormalization;
use vstd::prelude::*;

verus! {

/// The Unicode `White_Space` property (PropList.txt), which is what
/// `char::is_whitespace` tests.
pub open spec fn is_whitespace_spec(c: char) -> bool {
    ||| ('\u{9}' <= c && c <= '\u{d}')
    ||| c == ' '
    ||| c == '\u{85}'
    ||| c == '\u{a0}'
    ||| c == '\u{1680}'
    ||| ('\u{2000}' <= c && c <= '\u{200a}')
    ||| c == '\u{2028}'
    ||| c == '\u{2029}'
    ||| c == '\u{202f}'
    ||| c == '\u{205f}'
    ||| c == '\u{3000}'
}

/// Whether `c` is a Unicode white-space character.
pub fn is_whitespace(c: char) -> (r: bool)
    ensures
        r == is_whitespace_spec(c),
{
    ('\u{9}' <= c && c <= '\u{d}') || c == ' ' || c == '\u{85}' || c == '\u{a0}' || c
        == '\u{1680}' || ('\u{2000}' <= c && c <= '\u{200a}') || c == '\u{2028}' || c
        == '\u{2029}' || c == '\u{202f}' || c == '\u{205f}' || c == '\u{3000}'
}

/// The canonical decomposition (NFD) of a character sequence.
pub uninterp spec fn nfd(s: Seq<char>) -> Seq<char>;

/// Whether every character of `s` is ASCII.
pub open spec fn is_ascii_text(s: Seq<char>) -> bool {
    forall|i: int| 0 <= i < s.len() ==> (#[trigger] s[i] as u32) < 128
}

/// The ASCII lowercase of one character: `A` to `Z` move 32 code points
/// up, every other character stays.
pub open spec fn ascii_lower(c: char) -> char {
    if 'A' <= c && c <= 'Z' {
        ((c as u32) + 32) as char
    } else {
        c
    }
}

/// The canonical decomposition of `s`: ASCII text is its own
/// decomposition; beyond ASCII it is `nfd`.
pub open spec fn decomposed(s: Seq<char>) -> Seq<char> {
    if is_ascii_text(s) {
        s
    } else {
        nfd(s)
    }
}

/// The canonical composition (NFC) of a character sequence.
pub uninterp spec fn nfc(s: Seq<char>) -> Seq<char>;

/// The characters of `s` in canonical decomposition, as produced by
/// `unicode_normalization::UnicodeNormalization::nfd`.  The decomposition
/// itself is named, not described; the one fact stated of it is that ASCII
/// characters have no decomposition, so ASCII text comes back unchanged.
#[verifier::external_body]
pub(crate) fn nfd_chars(s: &str) -> (r: Vec<char>)
    ensures
        r@ == nfd(s@),
        is_ascii_text(s@) ==> r@ == s@,
{
    s.nfd().collect()
}

/// The characters of `s` in canonical composition, as produced by
/// `unicode_normalization::UnicodeNormalization::nfc`.  The composition is
/// named, not described; the one fact stated of it is that ASCII characters
/// neither decompose nor compose, so ASCII text comes back unchanged.
#[verifier::external_body]
pub(crate) fn nfc_chars(s: &str) -> (r: Vec<char>)
    ensures
        r@ == nfc(s@),
        is_ascii_text(s@) ==> r@ == s@,
{
    s.nfc().collect()
}

/// The characters of a string slice, in order.
pub(crate) fn chars_of(s: &str) -> (r: Vec<char>)
    ensures
        r@ == s@,
{
    broadcast use vstd::string::axiom_spec_iter;

    let mut out: Vec<char> = Vec::new();
    for c in it: s.chars()
        invariant
            out@ == it.seq().take(it.index() as int),
    {
        out.push(c);
    }
    out
}

/// The string made of the given characters (`String::from_iter`).
#[verifier::external_body]
pub(crate) fn string_of(cs: &[char]) -> (r: String)
    ensures
        r@ == cs@,
{
    cs.iter().collect()
}

/// The length of a sequence, as an integer.
pub open spec fn seq_len<T>(s: Seq<T>) -> int {
    s.len() as int
}

/// Whether `c` occurs in `s`.
pub fn contains_char(s: &[char], c: char) -> (r: bool)
    ensures
        r == s@.contains(c),
{
    let mut i: usize = 0;
    while i < s.len()
        invariant
            i <= s.len(),
            forall|j: int| 0 <= j < i ==> s@[j] != c,
        decreases s.len() - i,
    {
        if s[i] == c {
            return true;
        }
        i = i + 1;
    }
    false
}

/// Whether `needle` occurs in `hay` as a contiguous run.
pub open spec fn has_infix(hay: Seq<char>, needle: Seq<char>) -> bool {
    exists|i: int| 0 <= i <= hay.len() - needle.len() && #[trigger] hay.subrange(i, i + needle.len()) == needle
}

/// Whether `hay` begins with `prefix`.
pub open spec fn has_prefix(hay: Seq<char>, prefix: Seq<char>) -> bool {
    prefix.len() <= hay.len() && hay.subrange(0, prefix.len() as int) == prefix
}

/// Whether `hay` ends with `suffix`.
pub open spec fn has_suffix(hay: Seq<char>, suffix: Seq<char>) -> bool {
    suffix.len() <= hay.len() && hay.subrange(hay.len() - suffix.len(), hay.len() as int) == suffix
}

/// Whether `needle` occurs in `hay` starting at `at`.
fn matches_at(hay: &[char], needle: &[char], at: usize) -> (r: bool)
    requires
        at + needle@.len() <= hay@.len(),
    ensures
        r == (hay@.subrange(at as int, at + needle@.len()) == needle@),
{
    let mut j: usize = 0;
    while j < needle.len()
        invariant
            at + needle@.len() <= hay@.len(),
            j <= needle@.len(),
            forall|k: int| 0 <= k < j ==> hay@[at + k] == needle@[k],
        decreases needle.len() - j,
    {
        assert(at + j < hay.len());
        if hay[at + j] != needle[j] {
            assert(hay@.subrange(at as int, at + needle@.len())[j as int] != needle@[j as int]);
            return false;
        }
        j = j + 1;
    }
    assert(hay@.subrange(at as int, at + needle@.len()) =~= needle@);
    true
}

/// Whether `needle` occurs in `hay` as a contiguous run.
pub fn contains_seq(hay: &[char], needle: &[char]) -> (r: bool)
    ensures
        r == has_infix(hay@, needle@),
{
    if needle.len() > hay.len() {
        return false;
    }
    if needle.len() == 0 {
        assert(hay@.subrange(0, 0 + needle@.len() as int) =~= needle@);
        return true;
    }
    let last = hay.len() - needle.len();
    let mut i: usize = 0;
    while i <= last
        invariant
            last + needle@.len() == hay@.len(),
            last < hay.len(),
            forall|k: int| 0 <= k < i ==> #[trigger] hay@.subrange(k, k + needle@.len()) != needle@,
        decreases last + 1 - i,
    {
        if matches_at(hay, needle, i) {
            return true;
        }
        i = i + 1;
    }
    false
}

/// Whether `needle` occurs in `hay` as a contiguous run.
pub fn contains_str(hay: &[char], needle: &str) -> (r: bool)
    ensures
        r == has_infix(hay@, needle@),
{
    let n = chars_of(needle);
    contains_seq(hay, &n)
}

/// Whether `hay` begins with `prefix`.
pub fn starts_with_str(hay: &[char], prefix: &str) -> (r: bool)
    ensures
        r == has_prefix(hay@, prefix@),
{
    let p = chars_of(prefix);
    if p.len() > hay.len() {
        return false;
    }
    matches_at(hay, &p, 0)
}

/// Whether `hay` ends with `suffix`.
pub fn ends_with_str(hay: &[char], suffix: &str) -> (r: bool)
    ensures
        r == has_suffix(hay@, suffix@),
{
    let p = chars_of(suffix);
    if p.len() > hay.len() {
        return false;
    }
    matches_at(hay, &p, hay.len() - p.len())
}

/// The white-space separated words of `s` from `i` on, where `cur` holds the
/// part of a word read so far.
pub open spec fn words_from(s: Seq<char>, i: int, cur: Seq<char>) -> Seq<Seq<char>>
    decreases s.len() - i,
{
    if i >= s.len() {
        if cur.len() > 0 {
            seq![cur]
        } else {
            Seq::empty()
        }
    } else if is_whitespace_spec(s[i]) {
        (if cur.len() > 0 {
            seq![cur]
        } else {
            Seq::<Seq<char>>::empty()
        }) + words_from(s, i + 1, Seq::empty())
    } else {
        words_from(s, i + 1, cur.push(s[i]))
    }
}

/// The white-space separated words of `s` (`str::split_whitespace`).
pub open spec fn words(s: Seq<char>) -> Seq<Seq<char>> {
    words_from(s, 0, Seq::empty())
}

/// The white-space separated words of `s`.
pub fn split_words(s: &[char]) -> (r: Vec<Vec<char>>)
    ensures
        r@.map_values(|w: Vec<char>| w@) == words(s@),
{
    let mut out: Vec<Vec<char>> = Vec::new();
    let mut cur: Vec<char> = Vec::new();
    let mut i: usize = 0;
    while i < s.len()
        invariant
            i <= s@.len(),
            out@.map_values(|w: Vec<char>| w@) + words_from(s@, i as int, cur@) == words(s@),
        decreases s.len() - i,
    {
        let c = s[i];
        let ghost done = out@.map_values(|w: Vec<char>| w@);
        let ghost old_cur = cur@;
        if is_whitespace(c) {
            if cur.len() > 0 {
                out.push(cur);
                assert(out@.map_values(|w: Vec<char>| w@) =~= done.push(old_cur));
                cur = Vec::new();
                assert(done + words_from(s@, i as int, old_cur) =~= done.push(old_cur)
                    + words_from(s@, i + 1, cur@));
            } else {
                assert(cur@ =~= Seq::<char>::empty());
                assert(words_from(s@, i as int, old_cur) =~= words_from(s@, i + 1, cur@));
            }
        } else {
            cur.push(c);
        }
        i = i + 1;
    }
    if cur.len() > 0 {
        let ghost before = out@.map_values(|w: Vec<char>| w@);
        let ghost word = cur@;
        out.push(cur);
        assert(out@.map_values(|w: Vec<char>| w@) =~= before.push(word));
    } else {
        assert(out@.map_values(|w: Vec<char>| w@) =~= out@.map_values(|w: Vec<char>| w@) + Seq::<Seq<char>>::empty());
    }
    out
}

/// The full lowercase mapping of a text (`str::to_lowercase`).
pub uninterp spec fn lowercase(s: Seq<char>) -> Seq<char>;

/// The lowercase form of `s`: on ASCII text, `A` to `Z` lowered one by one;
/// beyond ASCII, `lowercase`.
pub open spec fn lowered(s: Seq<char>) -> Seq<char> {
    if is_ascii_text(s) {
        s.map_values(|c: char| ascii_lower(c))
    } else {
        lowercase(s)
    }
}

/// `str::to_lowercase`: the lowercase form of the text `s`.  The result is
/// named, not described: the mapping is Unicode's.  The one fact stated of
/// it is the documented ASCII case: there every character maps on its own,
/// `A` to `Z` to `a` to `z` and the rest to itself.
#[verifier::external_body]
fn lowercase_string(s: &str) -> (r: String)
    ensures
        r@ == lowercase(s@),
        is_ascii_text(s@) ==> r@ == s@.map_values(|c: char| ascii_lower(c)),
{
    s.to_lowercase()
}

/// The characters of the lowercase form of the text `s`.
pub(crate) fn to_lowercase(s: &str) -> (r: Vec<char>)
    ensures
        r@ == lowercase(s@),
        r@ == lowered(s@),
{
    let lower = lowercase_string(s);
    chars_of(lower.as_str())
}

/// Whether `a` comes after `b` in the order of `String`: character by
/// character from `i` on, by code point, with a proper prefix first.
pub open spec fn text_after(a: Seq<char>, b: Seq<char>, i: int) -> bool
    decreases a.len() - i,
{
    if i >= a.len() {
        false
    } else if i >= b.len() {
        true
    } else if a[i] != b[i] {
        (a[i] as u32) > (b[i] as u32)
    } else {
        text_after(a, b, i + 1)
    }
}

/// Whether `a` comes after `b` in the order of `String`.
pub fn is_text_after(a: &[char], b: &[char]) -> (r: bool)
    ensures
        r == text_after(a@, b@, 0),
{
    let mut i: usize = 0;
    while i < a.len() && i < b.len() && a[i] == b[i]
        invariant
            text_after(a@, b@, i as int) == text_after(a@, b@, 0),
        decreases a.len() - i,
    {
        i = i + 1;
    }
    if i >= a.len() {
        false
    } else if i >= b.len() {
        true
    } else {
        (a[i] as u32) > (b[i] as u32)
    }
}

/// The first `n` characters of `v`.
pub fn prefix_of(v: &[char], n: usize) -> (r: Vec<char>)
    requires
        n <= v@.len(),
    ensures
        r@ == v@.subrange(0, n as int),
{
    let mut out: Vec<char> = Vec::new();
    let mut i: usize = 0;
    while i < n
        invariant
            i <= n,
            n <= v@.len(),
            out@ == v@.subrange(0, i as int),
        decreases n - i,
    {
        out.push(v[i]);
        i = i + 1;
        assert(out@ =~= v@.subrange(0, i as int));
    }
    out
}

/// Appends the characters of `s` to `out`.
pub fn push_str(out: &mut Vec<char>, s: &str)
    ensures
        final(out)@ == old(out)@ + s@,
{
    let cs = chars_of(s);
    push_chars(out, &cs);
}

/// Appends `cs` to `out`.
pub fn push_chars(out: &mut Vec<char>, cs: &[char])
    ensures
        final(out)@ == old(out)@ + cs@,
{
    let mut i: usize = 0;
    while i < cs.len()
        invariant
            i <= cs@.len(),
            out@ == old(out)@ + cs@.subrange(0, i as int),
        decreases cs.len() - i,
    {
        out.push(cs[i]);
        i = i + 1;
        assert(out@ =~= old(out)@ + cs@.subrange(0, i as int));
    }
    assert(cs@.subrange(0, cs@.len() as int) =~= cs@);
}

/// The decimal digit `d`.
pub open spec fn digit_char(d: int) -> char {
    if d == 0 {
        '0'
    } else if d == 1 {
        '1'
    } else if d == 2 {
        '2'
    } else if d == 3 {
        '3'
    } else if d == 4 {
        '4'
    } else if d == 5 {
        '5'
    } else if d == 6 {
        '6'
    } else if d == 7 {
        '7'
    } else if d == 8 {
        '8'
    } else {
        '9'
    }
}

/// The decimal digits of `n`, without leading zeros.
pub open spec fn nat_digits(n: nat) -> Seq<char>
    decreases n,
{
    if n < 10 {
        seq![digit_char(n as int)]
    } else {
        nat_digits(n / 10).push(digit_char((n % 10) as int))
    }
}

/// How an integer is written in decimal, with a minus sign when negative.
pub open spec fn decimal(x: int) -> Seq<char> {
    if x < 0 {
        seq!['-'] + nat_digits((-x) as nat)
    } else {
        nat_digits(x as nat)
    }
}

fn digit(d: u64) -> (r: char)
    requires
        d < 10,
    ensures
        r == digit_char(d as int),
{
    if d == 0 {
        '0'
    } else if d == 1 {
        '1'
    } else if d == 2 {
        '2'
    } else if d == 3 {
        '3'
    } else if d == 4 {
        '4'
    } else if d == 5 {
        '5'
    } else if d == 6 {
        '6'
    } else if d == 7 {
        '7'
    } else if d == 8 {
        '8'
    } else {
        '9'
    }
}

fn push_digits(out: &mut Vec<char>, n: u64)
    ensures
        final(out)@ == old(out)@ + nat_digits(n as nat),
    decreases n,
{
    if n >= 10 {
        push_digits(out, n / 10);
    }
    out.push(digit(n % 10));
    assert(out@ =~= old(out)@ + nat_digits(n as nat));
}

/// Appends the decimal form of `x` to `out`.
pub fn push_decimal(out: &mut Vec<char>, x: i32)
    ensures
        final(out)@ == old(out)@ + decimal(x as int),
{
    if x < 0 {
        out.push('-');
        let magnitude: i64 = -(x as i64);
        push_digits(out, magnitude as u64);
        assert(out@ =~= old(out)@ + decimal(x as int));
    } else {
        push_digits(out, x as u64);
    }
}

/// Whether two texts are equal.
pub fn str_eq(a: &str, b: &str) -> (r: bool)
    ensures
        r == (a@ == b@),
{
    let x = chars_of(a);
    let y = chars_of(b);
    if x.len() != y.len() {
        return false;
    }
    let r = matches_at(&x, &y, 0);
    assert(x@.subrange(0, y@.len() as int) =~= x@);
    r
}

/// Whether the text `a` equals the characters `b`.
pub fn chars_eq(a: &[char], b: &[char]) -> (r: bool)
    ensures
        r == (a@ == b@),
{
    if a.len() != b.len() {
        return false;
    }
    let r = matches_at(a, b, 0);
    assert(a@.subrange(0, b@.len() as int) =~= a@);
    r
}

/// The pieces of `s` between the separators in `seps`, from `i` on, where
/// `cur` holds the part of a piece read so far; empty pieces are kept
/// (`str::split`).
pub open spec fn pieces_from(s: Seq<char>, i: int, cur: Seq<char>, seps: Seq<char>) -> Seq<Seq<char>>
    decreases s.len() - i,
{
    if i >= s.len() {
        seq![cur]
    } else if seps.contains(s[i]) {
        seq![cur] + pieces_from(s, i + 1, Seq::empty(), seps)
    } else {
        pieces_from(s, i + 1, cur.push(s[i]), seps)
    }
}

/// The pieces of `s` between the separators in `seps`.
pub open spec fn split_by(s: Seq<char>, seps: Seq<char>) -> Seq<Seq<char>> {
    pieces_from(s, 0, Seq::empty(), seps)
}

/// The pieces of `s` between the separators in `seps`, empty ones included.
pub fn split_on(s: &[char], seps: &[char]) -> (r: Vec<Vec<char>>)
    ensures
        r@.map_values(|w: Vec<char>| w@) == split_by(s@, seps@),
{
    let mut out: Vec<Vec<char>> = Vec::new();
    let mut cur: Vec<char> = Vec::new();
    let mut i: usize = 0;
    while i < s.len()
        invariant
            i <= s@.len(),
            out@.map_values(|w: Vec<char>| w@) + pieces_from(s@, i as int, cur@, seps@) == split_by(
                s@,
                seps@,
            ),
        decreases s.len() - i,
    {
        let c = s[i];
        let ghost done = out@.map_values(|w: Vec<char>| w@);
        let ghost old_cur = cur@;
        if contains_char(seps, c) {
            out.push(cur);
            assert(out@.map_values(|w: Vec<char>| w@) =~= done.push(old_cur));
            cur = Vec::new();
            assert(done + pieces_from(s@, i as int, old_cur, seps@) =~= done.push(old_cur)
                + pieces_from(s@, i + 1, cur@, seps@));
        } else {
            cur.push(c);
        }
        i = i + 1;
    }
    let ghost done = out@.map_values(|w: Vec<char>| w@);
    let ghost last = cur@;
    out.push(cur);
    assert(out@.map_values(|w: Vec<char>| w@) =~= done.push(last));
    out
}

/// `s` without leading white space.
pub open spec fn trim_start(s: Seq<char>) -> Seq<char>
    decreases s.len(),
{
    if s.len() > 0 && is_whitespace_spec(s[0]) {
        trim_start(s.drop_first())
    } else {
        s
    }
}

/// `s` without trailing white space.
pub open spec fn trim_end(s: Seq<char>) -> Seq<char>
    decreases s.len(),
{
    if s.len() > 0 && is_whitespace_spec(s.last()) {
        trim_end(s.drop_last())
    } else {
        s
    }
}

/// `s` without leading or trailing white space (`str::trim`).
pub open spec fn trim(s: Seq<char>) -> Seq<char> {
    trim_end(trim_start(s))
}

/// `s` without leading white space.
pub fn trimmed_start(s: &[char]) -> (r: Vec<char>)
    ensures
        r@ == trim_start(s@),
{
    let mut start: usize = 0;
    assert(s@.subrange(0, s@.len() as int) =~= s@);
    while start < s.len() && is_whitespace(s[start])
        invariant
            start <= s@.len(),
            trim_start(s@) == trim_start(s@.subrange(start as int, s@.len() as int)),
        decreases s.len() - start,
    {
        assert(s@.subrange(start + 1, s@.len() as int) =~= s@.subrange(
            start as int,
            s@.len() as int,
        ).drop_first());
        start = start + 1;
    }
    let mut out: Vec<char> = Vec::new();
    let mut i: usize = start;
    while i < s.len()
        invariant
            start <= i <= s@.len(),
            out@ == s@.subrange(start as int, i as int),
        decreases s.len() - i,
    {
        out.push(s[i]);
        i = i + 1;
        assert(out@ =~= s@.subrange(start as int, i as int));
    }
    out
}

/// `s` without leading or trailing white space.
pub fn trimmed(s: &[char]) -> (r: Vec<char>)
    ensures
        r@ == trim(s@),
{
    let front = trimmed_start(s);
    let mut end = front.len();
    assert(front@.subrange(0, front@.len() as int) =~= front@);
    while end > 0 && is_whitespace(front[end - 1])
        invariant
            end <= front@.len(),
            trim_end(front@) == trim_end(front@.subrange(0, end as int)),
        decreases end,
    {
        assert(front@.subrange(0, end - 1) =~= front@.subrange(0, end as int).drop_last());
        end = end - 1;
    }
    prefix_of(&front, end)
}

/// The Unicode `Cc` general category, which `char::is_control` tests.
pub open spec fn is_control_spec(c: char) -> bool {
    (c as u32) <= 0x1f || (0x7f <= (c as u32) && (c as u32) <= 0x9f)
}

/// Whether `c` is a control character.
pub fn is_control(c: char) -> (r: bool)
    ensures
        r == is_control_spec(c),
{
    (c as u32) <= 0x1f || (0x7f <= (c as u32) && (c as u32) <= 0x9f)
}

/// Whether a character is alphabetic or numeric in Unicode
/// (`char::is_alphanumeric`).
pub uninterp spec fn alphanumeric(c: char) -> bool;

/// Whether a character is uppercase in Unicode (`char::is_uppercase`).
pub uninterp spec fn uppercase(c: char) -> bool;

/// `char::is_alphanumeric`.  On ASCII the standard library documents the
/// answer: the letters and digits; beyond ASCII the Unicode properties decide
/// and are left unnamed here.
#[verifier::external_body]
pub(crate) fn char_is_alphanumeric(c: char) -> (r: bool)
    ensures
        r == alphanumeric(c),
        (c as u32) < 128 ==> r == (('a' <= c && c <= 'z') || ('A' <= c && c <= 'Z') || ('0' <= c
            && c <= '9')),
{
    c.is_alphanumeric()
}

/// `char::is_uppercase`.  On ASCII the answer is the capital letters; beyond
/// ASCII the Unicode property decides and is left unnamed here.
#[verifier::external_body]
pub(crate) fn char_is_uppercase(c: char) -> (r: bool)
    ensures
        r == uppercase(c),
        (c as u32) < 128 ==> r == ('A' <= c && c <= 'Z'),
{
    c.is_uppercase()
}

/// Appends the decimal form of `x` to `out`.
pub fn push_usize(out: &mut Vec<char>, x: usize)
    ensures
        final(out)@ == old(out)@ + nat_digits(x as nat),
{
    push_digits(out, x as u64);
}

/// The characters of `v` from `n` on.
pub fn suffix_from(v: &[char], n: usize) -> (r: Vec<char>)
    requires
        n <= v@.len(),
    ensures
        r@ == v@.subrange(n as int, v@.len() as int),
{
    let mut out: Vec<char> = Vec::new();
    let mut i: usize = n;
    while i < v.len()
        invariant
            n <= i <= v@.len(),
            out@ == v@.subrange(n as int, i as int),
        decreases v.len() - i,
    {
        out.push(v[i]);
        i = i + 1;
        assert(out@ =~= v@.subrange(n as int, i as int));
    }
    out
}

/// The texts held by a sequence of character vectors.
pub open spec fn rows(v: Seq<Vec<char>>) -> Seq<Seq<char>> {
    v.map_values(|w: Vec<char>| w@)
}

/// The texts held by a sequence of strings.
pub open spec fn texts(v: Seq<String>) -> Seq<Seq<char>> {
    v.map_values(|w: String| w@)
}

/// Strings made of each character vector.
pub fn strings_of(v: &Vec<Vec<char>>) -> (r: Vec<String>)
    ensures
        texts(r@) == rows(v@),
{
    let mut out: Vec<String> = Vec::new();
    let mut i: usize = 0;
    while i < v.len()
        invariant
            i <= v@.len(),
            texts(out@) == rows(v@).take(i as int),
        decreases v.len() - i,
    {
        let ghost before = texts(out@);
        out.push(string_of(v[i].as_slice()));
        assert(texts(out@) =~= before.push(v@[i as int]@));
        assert(rows(v@).take(i + 1) =~= rows(v@).take(i as int).push(v@[i as int]@));
        i = i + 1;
    }
    assert(rows(v@).take(v@.len() as int) =~= rows(v@));
    out
}

/// Appends `extra` to `out`.
pub fn append_rows(out: &mut Vec<Vec<char>>, extra: Vec<Vec<char>>)
    ensures
        rows(final(out)@) == rows(old(out)@) + rows(extra@),
{
    let mut extra = extra;
    let ghost a = rows(out@);
    let ghost b = rows(extra@);
    out.append(&mut extra);
    assert(rows(out@) =~= a + b);
}

} // verus!
