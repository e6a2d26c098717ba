//! The tone key of a headword: its letters with tones moved to the end of
//! each stem, the tones in order, and where each tone stood.

use crate::patterns::{
    bytes_regex_replace, bytes_regex_replace_all, decoded, regex_replace_first,
    regex_replace_all, string_from_utf8,
};
use crate::text::{chars_of, contains_char, lowercase, nfd, nfd_chars, push_chars, split_words, string_of, to_lowercase, words};
use vstd::prelude::*;
use vstd::utf8::encode_utf8;

verus! {

/// The tone marks, in tone order: low, rising, falling-rising, high.
pub const TONES: &'static str = "\u{0300}\u{0301}\u{0308}\u{0302}";

/// An underdot followed by a tone mark.
pub const DOT_TONE: &'static str = "\u{0323}([\u{0301}\u{0302}\u{0308}])";

/// A consonant followed by `h`, in either case.
pub const PALATAL: &'static str = "([ncsNCS])[hH]";

/// A vowel.
pub const VOWELS: &'static str = "[aeiouAEIOU]";

/// An underdot and the consonants and vowel after it.
pub const FIND_STEM: &'static str = "\u{0323}([bcdfghjklmnpqrstvz'ʰBCDFGHJKLMNPQRSTVZ]*[aeiouAEIOU])";

/// The number of a tone mark (1 to 4), or 0 for any other character.
pub open spec fn tone_number(c: char) -> int {
    if c == '\u{0300}' {
        1
    } else if c == '\u{0301}' {
        2
    } else if c == '\u{0308}' {
        3
    } else if c == '\u{0302}' {
        4
    } else {
        0
    }
}

/// Whether `c` is a tone mark.
pub open spec fn is_tone_mark(c: char) -> bool {
    tone_number(c) > 0
}

/// The tone mark with number `n`.
pub open spec fn tone_mark(n: int) -> char {
    if n == 1 {
        '\u{0300}'
    } else if n == 2 {
        '\u{0301}'
    } else if n == 3 {
        '\u{0308}'
    } else {
        '\u{0302}'
    }
}

/// The number of the tone mark `c`.
pub fn t2n(c: char) -> (r: usize)
    requires
        is_tone_mark(c),
    ensures
        r as int == tone_number(c),
{
    if c == '\u{0300}' {
        1
    } else if c == '\u{0301}' {
        2
    } else if c == '\u{0308}' {
        3
    } else {
        4
    }
}

/// The tone mark with number `n`.
pub fn n2t(n: usize) -> (r: char)
    requires
        1 <= n <= 4,
    ensures
        r == tone_mark(n as int),
{
    if n == 1 {
        '\u{0300}'
    } else if n == 2 {
        '\u{0301}'
    } else if n == 3 {
        '\u{0308}'
    } else {
        '\u{0302}'
    }
}

/// Tone numbers and tone marks translate into each other: the mark of
/// number `n` has number `n`.
pub proof fn law_tone_number_of_mark(n: int)
    requires
        1 <= n <= 4,
    ensures
        is_tone_mark(tone_mark(n)),
        tone_number(tone_mark(n)) == n,
{
}

/// Tone marks and tone numbers translate into each other: the number of a
/// tone mark names that mark.
pub proof fn law_mark_of_tone_number(c: char)
    requires
        is_tone_mark(c),
    ensures
        1 <= tone_number(c) <= 4,
        tone_mark(tone_number(c)) == c,
{
}

/// Characters stripped from the start of a headword.
pub open spec fn is_leading_junk(c: char) -> bool {
    c == '*' || c == '-' || c == '@' || c == '.' || c == ',' || c == ' '
}

/// `s` without its leading junk characters.
pub open spec fn trim_leading_junk(s: Seq<char>) -> Seq<char>
    decreases s.len(),
{
    if s.len() > 0 && is_leading_junk(s[0]) {
        trim_leading_junk(s.drop_first())
    } else {
        s
    }
}

/// Dotless i and the w-like letter written as their plain counterparts.
pub open spec fn plain_letter(c: char) -> char {
    if c == 'ı' {
        'i'
    } else if c == 'ꝡ' {
        'v'
    } else {
        c
    }
}

/// A headword decomposed, lowercased, trimmed, with plain letters and
/// without brackets.
pub open spec fn tone_source(head: Seq<char>) -> Seq<char> {
    trim_leading_junk(lowercase(nfd(head))).map_values(|c: char| plain_letter(c)).filter(
        |c: char| c != '(' && c != ')',
    )
}

/// The source text with an underdot moved after the tone mark it precedes
/// (the first such pair) and every `h` after a consonant written as `ʰ`.
pub open spec fn tone_text(head: Seq<char>) -> Option<Seq<char>> {
    match regex_replace_first(
        DOT_TONE@,
        encode_utf8(tone_source(head)),
        encode_utf8("$1\u{0323}"@),
    ) {
        None => None,
        Some(b) => match regex_replace_all(PALATAL@, b, encode_utf8("$1ʰ"@)) {
            None => None,
            Some(b2) => decoded(b2),
        },
    }
}

/// Whether a word carries an underdot or a tone mark.
pub open spec fn has_tone_or_dot(w: Seq<char>) -> bool {
    exists|i: int| 0 <= i < w.len() && #[trigger] is_tone_or_dot(w[i])
}

/// Whether `c` is a tone mark or the underdot.
pub open spec fn is_tone_or_dot(c: char) -> bool {
    c == '\u{0323}' || is_tone_mark(c)
}

/// The word with a low-tone mark after its first vowel.
pub open spec fn low_tone_piece(w: Seq<char>) -> Option<Seq<char>> {
    match regex_replace_first(VOWELS@, encode_utf8(w), encode_utf8("$0\u{0300}"@)) {
        Some(b) => decoded(b),
        None => None,
    }
}

/// The word with its first underdot replaced by the mark of `tone` after the
/// stem that follows it.
pub open spec fn stem_piece(w: Seq<char>, tone: int) -> Option<Seq<char>> {
    match regex_replace_first(FIND_STEM@, encode_utf8(w), encode_utf8(seq!['$', '1', tone_mark(tone)])) {
        Some(b) => decoded(b),
        None => None,
    }
}

/// Appends `x` to the pieces, when both are defined.
pub open spec fn push_piece(ps: Option<Seq<Seq<char>>>, x: Option<Seq<char>>) -> Option<Seq<Seq<char>>> {
    match (ps, x) {
        (Some(p), Some(y)) => Some(p.push(y)),
        _ => None,
    }
}

/// The characters of an optional piece.
pub open spec fn piece_view(o: Option<Vec<char>>) -> Option<Seq<char>> {
    match o {
        Some(v) => Some(v@),
        None => None,
    }
}

/// Reading the first `k` characters of a word, given the word with a
/// low-tone mark after its first vowel (`low`) and the word with its stem
/// marked for each tone from 1 to 4 (`stems`): the current tone and the
/// pieces produced so far.
pub open spec fn word_scan_with(
    w: Seq<char>,
    k: int,
    low: Option<Seq<char>>,
    stems: Seq<Option<Seq<char>>>,
) -> (int, Option<Seq<Seq<char>>>)
    decreases k,
{
    if k <= 0 {
        (
            1,
            if has_tone_or_dot(w) {
                Some(Seq::empty())
            } else {
                push_piece(Some(Seq::empty()), low)
            },
        )
    } else {
        let (tone, ps) = word_scan_with(w, k - 1, low, stems);
        let c = w[k - 1];
        let ps2 = if c == '\u{0323}' {
            push_piece(ps, stems[tone - 1])
        } else {
            ps
        };
        if is_tone_mark(c) {
            (tone_number(c), push_piece(ps2, Some(w)))
        } else {
            (tone, ps2)
        }
    }
}

/// The stems of a word marked for each tone from 1 to 4.
pub open spec fn stem_pieces(w: Seq<char>) -> Seq<Option<Seq<char>>> {
    seq![stem_piece(w, 1), stem_piece(w, 2), stem_piece(w, 3), stem_piece(w, 4)]
}

/// Reading the first `k` characters of a word: the current tone and the
/// pieces produced so far.
pub open spec fn word_scan(w: Seq<char>, k: int) -> (int, Option<Seq<Seq<char>>>) {
    word_scan_with(w, k, low_tone_piece(w), stem_pieces(w))
}

/// The pieces the first `j` words produce.
pub open spec fn pieces_of(ws: Seq<Seq<char>>, j: int) -> Option<Seq<Seq<char>>>
    decreases j,
{
    if j <= 0 {
        Some(Seq::empty())
    } else {
        match (pieces_of(ws, j - 1), word_scan(ws[j - 1], ws[j - 1].len() as int).1) {
            (Some(a), Some(b)) => Some(a + b),
            _ => None,
        }
    }
}

/// The first `k` pieces joined with spaces.
pub open spec fn join_spaced(ps: Seq<Seq<char>>, k: int) -> Seq<char>
    decreases k,
{
    if k <= 0 {
        Seq::empty()
    } else if k == 1 {
        ps[0]
    } else {
        join_spaced(ps, k - 1) + seq![' '] + ps[k - 1]
    }
}

/// The tones of the first `k` characters of `m`, each with its position
/// counted without the tone marks before it and the letter it follows;
/// `None` when a tone mark has nothing before it.
pub open spec fn tone_scan(m: Seq<char>, k: int) -> Option<(Seq<usize>, Seq<usize>)>
    decreases k,
{
    if k <= 0 {
        Some((Seq::empty(), Seq::empty()))
    } else {
        match tone_scan(m, k - 1) {
            None => None,
            Some((ts, idx)) => if is_tone_mark(m[k - 1]) {
                if k - 2 - ts.len() < 0 {
                    None
                } else {
                    Some(
                        (
                            ts.push(tone_number(m[k - 1]) as usize),
                            idx.push((k - 2 - ts.len()) as usize),
                        ),
                    )
                }
            } else {
                Some((ts, idx))
            },
        }
    }
}

/// `s` without its trailing hyphens.
pub open spec fn trim_trailing_dashes(s: Seq<char>) -> Seq<char>
    decreases s.len(),
{
    if s.len() > 0 && s.last() == '-' {
        trim_trailing_dashes(s.drop_last())
    } else {
        s
    }
}

/// The headword rewritten with each tone moved after its stem: the pieces
/// of its words joined with spaces.
pub open spec fn moved_text(head: Seq<char>) -> Option<Seq<char>> {
    match tone_text(head) {
        None => None,
        Some(h) => match pieces_of(words(h), words(h).len() as int) {
            None => None,
            Some(ps) => Some(join_spaced(ps, ps.len() as int)),
        },
    }
}

/// The tone key read off a rewritten headword.
pub open spec fn key_of_moved(moved: Seq<char>) -> Option<(Seq<char>, Seq<usize>, Seq<usize>)> {
    match tone_scan(moved, moved.len() as int) {
        None => None,
        Some((ts, idx)) => {
            let prefix = moved.len() > 0 && moved.last() == '-';
            if prefix && ts.len() == 0 {
                None
            } else {
                Some(
                    (
                        trim_trailing_dashes(moved.filter(|c: char| !is_tone_mark(c))),
                        if prefix {
                            ts.update(ts.len() - 1, 9usize)
                        } else {
                            ts
                        },
                        idx,
                    ),
                )
            }
        },
    }
}

/// The tone key of a headword: the letters with tone marks taken out and
/// trailing hyphens dropped, the tones in order (the last one 9 for a
/// prefix), and the position of each tone; `None` where the key is not
/// defined (a tone mark with nothing before it, a prefix without tones, or
/// text that is not UTF-8 after the replacements).
pub open spec fn tone_key(head: Seq<char>) -> Option<(Seq<char>, Seq<usize>, Seq<usize>)> {
    match moved_text(head) {
        None => None,
        Some(m) => key_of_moved(m),
    }
}

} // verus!

verus! {

fn source_chars(head: &str) -> (r: Vec<char>)
    ensures
        r@ == tone_source(head@),
{
    let decomposed = string_of(&nfd_chars(head));
    let lower = to_lowercase(decomposed.as_str());
    let mut start: usize = 0;
    assert(lower@.subrange(0, lower@.len() as int) =~= lower@);
    while start < lower.len() && (lower[start] == '*' || lower[start] == '-' || lower[start] == '@'
        || lower[start] == '.' || lower[start] == ',' || lower[start] == ' ')
        invariant
            start <= lower@.len(),
            trim_leading_junk(lower@) == trim_leading_junk(lower@.subrange(start as int, lower@.len() as int)),
        decreases lower.len() - start,
    {
        assert(lower@.subrange(start + 1, lower@.len() as int) =~= lower@.subrange(
            start as int,
            lower@.len() as int,
        ).drop_first());
        start = start + 1;
    }
    let ghost trimmed = lower@.subrange(start as int, lower@.len() as int);
    assert(trim_leading_junk(trimmed) == trimmed);
    let ghost plain = trimmed.map_values(|c: char| plain_letter(c));
    let ghost pred = |c: char| c != '(' && c != ')';
    let mut out: Vec<char> = Vec::new();
    let mut i: usize = start;
    while i < lower.len()
        invariant
            start <= i <= lower@.len(),
            trimmed == lower@.subrange(start as int, lower@.len() as int),
            plain == trimmed.map_values(|c: char| plain_letter(c)),
            pred == (|c: char| c != '(' && c != ')'),
            out@ == plain.take(i - start).filter(pred),
        decreases lower.len() - i,
    {
        let c = lower[i];
        let p = if c == 'ı' {
            'i'
        } else if c == 'ꝡ' {
            'v'
        } else {
            c
        };
        assert(p == plain[i - start]);
        proof {
            reveal_with_fuel(Seq::filter, 1);
            assert(plain.take(i - start + 1).drop_last() =~= plain.take(i - start));
        }
        if p != '(' && p != ')' {
            out.push(p);
        }
        i = i + 1;
    }
    assert(plain.take(lower@.len() - start) =~= plain);
    out
}

fn text_of(head: &str) -> (r: Option<Vec<char>>)
    ensures
        r is Some == tone_text(head@) is Some,
        r is Some ==> r->0@ == tone_text(head@)->0,
{
    let source = string_of(&source_chars(head));
    let swapped = match bytes_regex_replace(DOT_TONE, source.as_str().as_bytes(), "$1\u{0323}".as_bytes()) {
        Some(b) => b,
        None => {
            return None;
        },
    };
    let marked = match bytes_regex_replace_all(PALATAL, swapped.as_slice(), "$1ʰ".as_bytes()) {
        Some(b) => b,
        None => {
            return None;
        },
    };
    match string_from_utf8(marked) {
        Some(s) => Some(chars_of(s.as_str())),
        None => None,
    }
}

/// The characters of the bytes a replacement produced, when it produced
/// UTF-8 text.
pub fn decoded_chars(b: Option<Vec<u8>>) -> (r: Option<Vec<char>>)
    ensures
        r is Some == (b is Some && decoded(b->0@) is Some),
        r is Some ==> r->0@ == decoded(b->0@)->0,
{
    match b {
        Some(bytes) => match string_from_utf8(bytes) {
            Some(s) => Some(chars_of(s.as_str())),
            None => None,
        },
        None => None,
    }
}

fn is_tone_char(c: char) -> (r: bool)
    ensures
        r == is_tone_mark(c),
{
    c == '\u{0300}' || c == '\u{0301}' || c == '\u{0308}' || c == '\u{0302}'
}

proof fn lemma_word_scan_none(
    w: Seq<char>,
    k: int,
    n: int,
    low: Option<Seq<char>>,
    stems: Seq<Option<Seq<char>>>,
)
    requires
        0 <= k <= n,
        word_scan_with(w, k, low, stems).1 is None,
    ensures
        word_scan_with(w, n, low, stems).1 is None,
    decreases n - k,
{
    if k < n {
        lemma_word_scan_none(w, k + 1, n, low, stems);
    }
}

/// The scan reads the low-tone piece only for a word without marks, and a
/// stem piece only at an underdot.
proof fn lemma_word_scan_same(
    w: Seq<char>,
    k: int,
    low1: Option<Seq<char>>,
    stems1: Seq<Option<Seq<char>>>,
    low2: Option<Seq<char>>,
    stems2: Seq<Option<Seq<char>>>,
)
    requires
        0 <= k <= w.len(),
        has_tone_or_dot(w) || low1 == low2,
        stems1 == stems2 || forall|j: int| 0 <= j < w.len() ==> w[j] != '\u{0323}',
    ensures
        word_scan_with(w, k, low1, stems1) == word_scan_with(w, k, low2, stems2),
    decreases k,
{
    if k > 0 {
        lemma_word_scan_same(w, k - 1, low1, stems1, low2, stems2);
    }
}

proof fn lemma_pieces_none(ws: Seq<Seq<char>>, j: int, n: int)
    requires
        0 <= j <= n,
        pieces_of(ws, j) is None,
    ensures
        pieces_of(ws, n) is None,
    decreases n - j,
{
    if j < n {
        lemma_pieces_none(ws, j + 1, n);
    }
}

proof fn lemma_tone_scan_none(m: Seq<char>, k: int, n: int)
    requires
        0 <= k <= n,
        tone_scan(m, k) is None,
    ensures
        tone_scan(m, n) is None,
    decreases n - k,
{
    if k < n {
        lemma_tone_scan_none(m, k + 1, n);
    }
}

fn marks_present(w: &[char]) -> (r: bool)
    ensures
        r == has_tone_or_dot(w@),
{
    let mut i: usize = 0;
    while i < w.len()
        invariant
            i <= w@.len(),
            forall|j: int| 0 <= j < i ==> !#[trigger] is_tone_or_dot(w@[j]),
        decreases w.len() - i,
    {
        let c = w[i];
        if c == '\u{0323}' || is_tone_char(c) {
            assert(is_tone_or_dot(w@[i as int]));
            return true;
        }
        i = i + 1;
    }
    false
}

/// The pieces a word produces, given the word with a low-tone mark after
/// its first vowel (`low`, read only for a word without marks) and the word
/// with its stem marked for each tone from 1 to 4 (`stems`, read only at
/// an underdot); `None` where a piece that is read is missing.
pub fn pieces_from_replacements(w: &[char], low: Option<Vec<char>>, stems: &Vec<Option<Vec<char>>>) -> (r: Option<Vec<Vec<char>>>)
    requires
        stems@.len() == 4,
    ensures
        r is Some == word_scan_with(w@, w@.len() as int, piece_view(low), stems@.map_values(|o: Option<Vec<char>>| piece_view(o))).1 is Some,
        r is Some ==> r->0@.map_values(|p: Vec<char>| p@) == word_scan_with(
            w@,
            w@.len() as int,
            piece_view(low),
            stems@.map_values(|o: Option<Vec<char>>| piece_view(o)),
        ).1->0,
{
    let ghost lowv = piece_view(low);
    let ghost sv = stems@.map_values(|o: Option<Vec<char>>| piece_view(o));
    let mut pieces: Vec<Vec<char>> = Vec::new();
    if !marks_present(w) {
        match &low {
            Some(p) => {
                pieces.push(p.clone());
            },
            None => {
                proof {
                    lemma_word_scan_none(w@, 0, w@.len() as int, lowv, sv);
                }
                return None;
            },
        }
        assert(pieces@.map_values(|p: Vec<char>| p@) =~= seq![lowv->0]);
    } else {
        assert(pieces@.map_values(|p: Vec<char>| p@) =~= Seq::<Seq<char>>::empty());
    }
    let mut tone: usize = 1;
    let mut k: usize = 0;
    while k < w.len()
        invariant
            k <= w@.len(),
            stems@.len() == 4,
            sv == stems@.map_values(|o: Option<Vec<char>>| piece_view(o)),
            lowv == piece_view(low),
            1 <= tone <= 4,
            word_scan_with(w@, k as int, lowv, sv).0 == tone as int,
            word_scan_with(w@, k as int, lowv, sv).1 is Some,
            pieces@.map_values(|p: Vec<char>| p@) == word_scan_with(w@, k as int, lowv, sv).1->0,
        decreases w.len() - k,
    {
        let c = w[k];
        let ghost before = pieces@.map_values(|p: Vec<char>| p@);
        if c == '\u{0323}' {
            assert(sv[tone - 1] == piece_view(stems@[tone - 1]));
            match &stems[tone - 1] {
                Some(p) => {
                    pieces.push(p.clone());
                },
                None => {
                    proof {
                        assert(sv[tone - 1] is None);
                        assert(w@[(k + 1) - 1] == c);
                        assert(word_scan_with(w@, k + 1, lowv, sv).1 is None);
                        lemma_word_scan_none(w@, k + 1, w@.len() as int, lowv, sv);
                    }
                    return None;
                },
            }
            assert(pieces@.map_values(|p: Vec<char>| p@) =~= before.push(sv[tone - 1]->0));
        }
        let ghost middle = pieces@.map_values(|p: Vec<char>| p@);
        if is_tone_char(c) {
            tone = t2n(c);
            let mut whole: Vec<char> = Vec::new();
            push_chars(&mut whole, w);
            pieces.push(whole);
            assert(pieces@.map_values(|p: Vec<char>| p@) =~= middle.push(w@));
        }
        k = k + 1;
    }
    Some(pieces)
}

/// The word with its stem marked for `tone`, by the stem pattern.
fn stem_marked(word: &str, tone: usize) -> (r: Option<Vec<char>>)
    requires
        1 <= tone <= 4,
    ensures
        piece_view(r) == stem_piece(word@, tone as int),
{
    let repl = string_of(&['$', '1', n2t(tone)]);
    assert(repl@ =~= seq!['$', '1', tone_mark(tone as int)]);
    decoded_chars(bytes_regex_replace(FIND_STEM, word.as_bytes(), repl.as_str().as_bytes()))
}

fn word_pieces(w: &[char]) -> (r: Option<Vec<Vec<char>>>)
    ensures
        r is Some == word_scan(w@, w@.len() as int).1 is Some,
        r is Some ==> r->0@.map_values(|p: Vec<char>| p@) == word_scan(w@, w@.len() as int).1->0,
{
    let word = string_of(w);
    let low = if !marks_present(w) {
        decoded_chars(bytes_regex_replace(VOWELS, word.as_str().as_bytes(), "$0\u{0300}".as_bytes()))
    } else {
        None
    };
    let mut stems: Vec<Option<Vec<char>>> = Vec::new();
    let dotted = contains_char(w, '\u{0323}');
    let mut t: usize = 1;
    while t <= 4
        invariant
            1 <= t <= 5,
            stems@.len() == t - 1,
            word@ == w@,
            dotted == w@.contains('\u{0323}'),
            forall|j: int| 0 <= j < stems@.len() ==> piece_view(#[trigger] stems@[j]) == (if dotted {
                stem_piece(w@, j + 1)
            } else {
                None
            }),
        decreases 5 - t,
    {
        if dotted {
            stems.push(stem_marked(word.as_str(), t));
        } else {
            stems.push(None);
        }
        t = t + 1;
    }
    let ghost sv = stems@.map_values(|o: Option<Vec<char>>| piece_view(o));
    proof {
        if dotted {
            assert(sv =~= stem_pieces(w@));
        } else {
            assert forall|j: int| 0 <= j < w@.len() implies w@[j] != '\u{0323}' by {
                if w@[j] == '\u{0323}' {
                    assert(w@.contains(w@[j]));
                }
            }
        }
        lemma_word_scan_same(w@, w@.len() as int, piece_view(low), sv, low_tone_piece(w@), stem_pieces(w@));
    }
    pieces_from_replacements(w, low, &stems)
}

fn moved_chars(head: &str) -> (r: Option<Vec<char>>)
    ensures
        r is Some == moved_text(head@) is Some,
        r is Some ==> r->0@ == moved_text(head@)->0,
{
    let text = match text_of(head) {
        Some(t) => t,
        None => {
            return None;
        },
    };
    let ws = split_words(&text);
    let ghost wsv = ws@.map_values(|w: Vec<char>| w@);
    assert(tone_text(head@) == Some(text@));
    let mut pieces: Vec<Vec<char>> = Vec::new();
    let mut j: usize = 0;
    while j < ws.len()
        invariant
            j <= ws@.len(),
            wsv == ws@.map_values(|w: Vec<char>| w@),
            wsv == words(text@),
            tone_text(head@) == Some(text@),
            pieces_of(wsv, j as int) is Some,
            pieces@.map_values(|p: Vec<char>| p@) == pieces_of(wsv, j as int)->0,
        decreases ws.len() - j,
    {
        let ghost before = pieces@.map_values(|p: Vec<char>| p@);
        assert(wsv[j as int] == ws@[j as int]@);
        match word_pieces(ws[j].as_slice()) {
            Some(mut more) => {
                let ghost extra = more@.map_values(|p: Vec<char>| p@);
                pieces.append(&mut more);
                assert(pieces@.map_values(|p: Vec<char>| p@) =~= before + extra);
            },
            None => {
                proof {
                    lemma_pieces_none(wsv, j + 1, wsv.len() as int);
                    assert(pieces_of(words(text@), words(text@).len() as int) is None);
                }
                return None;
            },
        }
        j = j + 1;
    }
    let ghost pv = pieces@.map_values(|p: Vec<char>| p@);
    let mut moved: Vec<char> = Vec::new();
    let mut k: usize = 0;
    while k < pieces.len()
        invariant
            k <= pieces@.len(),
            pv == pieces@.map_values(|p: Vec<char>| p@),
            moved@ == join_spaced(pv, k as int),
        decreases pieces.len() - k,
    {
        if k > 0 {
            moved.push(' ');
        }
        push_chars(&mut moved, pieces[k].as_slice());
        assert(pv[k as int] == pieces@[k as int]@);
        k = k + 1;
        assert(moved@ =~= join_spaced(pv, k as int));
    }
    assert(pieces_of(words(text@), words(text@).len() as int) == Some(pv));
    Some(moved)
}

/// The tone key read off a headword rewritten with each tone after its
/// stem; `None` where it is not defined.
pub fn key_from_moved(moved: &[char]) -> (r: Option<(String, Vec<usize>, Vec<usize>)>)
    ensures
        r is Some == key_of_moved(moved@) is Some,
        r matches Some((k, ts, idx)) ==> (k@, ts@, idx@) == key_of_moved(moved@)->0,
{
    let mut ts: Vec<usize> = Vec::new();
    let mut idx: Vec<usize> = Vec::new();
    let mut i: usize = 0;
    while i < moved.len()
        invariant
            i <= moved@.len(),
            tone_scan(moved@, i as int) is Some,
            (ts@, idx@) == tone_scan(moved@, i as int)->0,
            ts@.len() <= i,
        decreases moved.len() - i,
    {
        let c = moved[i];
        if is_tone_char(c) {
            if i < 1 + ts.len() {
                proof {
                    lemma_tone_scan_none(moved@, i + 1, moved@.len() as int);
                }
                return None;
            }
            idx.push(i - 1 - ts.len());
            ts.push(t2n(c));
        }
        i = i + 1;
    }
    let n = moved.len();
    let prefix = n > 0 && moved[n - 1] == '-';
    if prefix {
        if ts.len() == 0 {
            return None;
        }
        let last = ts.len() - 1;
        ts.set(last, 9);
    }
    let ghost pred = |c: char| !is_tone_mark(c);
    let mut stripped: Vec<char> = Vec::new();
    let mut i: usize = 0;
    while i < moved.len()
        invariant
            i <= moved@.len(),
            pred == (|c: char| !is_tone_mark(c)),
            stripped@ == moved@.take(i as int).filter(pred),
        decreases moved.len() - i,
    {
        let c = moved[i];
        proof {
            reveal_with_fuel(Seq::filter, 1);
            assert(moved@.take(i + 1).drop_last() =~= moved@.take(i as int));
        }
        if !is_tone_char(c) {
            stripped.push(c);
        }
        i = i + 1;
    }
    assert(moved@.take(moved@.len() as int) =~= moved@);
    let mut end = stripped.len();
    assert(stripped@.subrange(0, stripped@.len() as int) =~= stripped@);
    while end > 0 && stripped[end - 1] == '-'
        invariant
            end <= stripped@.len(),
            trim_trailing_dashes(stripped@) == trim_trailing_dashes(stripped@.subrange(0, end as int)),
        decreases end,
    {
        assert(stripped@.subrange(0, end - 1) =~= stripped@.subrange(0, end as int).drop_last());
        end = end - 1;
    }
    assert(trim_trailing_dashes(stripped@.subrange(0, end as int)) == stripped@.subrange(0, end as int));
    let mut key: Vec<char> = Vec::new();
    push_chars(&mut key, &stripped[0..end]);
    Some((string_of(&key), ts, idx))
}

/// The tone key of a headword; `None` where it is not defined.
pub fn tones(head: &str) -> (r: Option<(String, Vec<usize>, Vec<usize>)>)
    ensures
        r is Some == tone_key(head@) is Some,
        r matches Some((k, ts, idx)) ==> (k@, ts@, idx@) == tone_key(head@)->0,
{
    match moved_chars(head) {
        Some(moved) => key_from_moved(moved.as_slice()),
        None => None,
    }
}

} // verus!
