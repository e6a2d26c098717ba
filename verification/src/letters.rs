//! Toaq letters, tones and graphemes, and the segmentation of a word into
//! graphemes.

use crate::text::{ascii_lower, decomposed, is_ascii_text, chars_of, contains_char, is_whitespace, is_whitespace_spec, nfd, nfd_chars};
use vstd::prelude::*;

verus! {

/// A character that is not part of the Toaq alphabet.
#[derive(Debug, PartialEq, Eq, Structural)]
pub enum Error {
    NotToaqChar(char),
}

/// The letters of the Toaq alphabet, in dictionary order.
#[derive(Debug, Clone, Copy, PartialEq, Eq, PartialOrd, Ord, Structural)]
pub enum Letter {
    Aomoi,
    A,
    B,
    C,
    Ch,
    D,
    E,
    F,
    G,
    H,
    I,
    J,
    K,
    L,
    M,
    N,
    Nh,
    O,
    P,
    Q,
    R,
    S,
    Sh,
    T,
    U,
    V,
    Z,
}

/// The first character of the lowercase mapping of `c` (`char::to_lowercase`).
pub uninterp spec fn lowercase_first(c: char) -> char;

/// `char::to_lowercase(c).next()`.  The standard library documents that the
/// lowercase mapping yields at least one character, that ASCII capitals map to
/// the letter 32 code points above, and that other ASCII characters map to
/// themselves; beyond ASCII the mapping is the Unicode one, left unnamed here.
#[verifier::external_body]
fn char_lowercase_first(c: char) -> (r: Option<char>)
    ensures
        r == Some(lowercase_first(c)),
        ('A' <= c && c <= 'Z') ==> r == Some(((c as u32) + 32) as char),
        ((c as u32) < 128 && !('A' <= c && c <= 'Z')) ==> r == Some(c),
{
    c.to_lowercase().next()
}

/// The letter that a lowercase character spells on its own.
pub open spec fn letter_of(c: char) -> Option<Letter> {
    match c {
        '\'' => Some(Letter::Aomoi),
        'a' => Some(Letter::A),
        'b' => Some(Letter::B),
        'c' => Some(Letter::C),
        'd' => Some(Letter::D),
        'e' => Some(Letter::E),
        'f' => Some(Letter::F),
        'g' => Some(Letter::G),
        'h' => Some(Letter::H),
        'i' | 'ı' => Some(Letter::I),
        'j' => Some(Letter::J),
        'k' => Some(Letter::K),
        'l' => Some(Letter::L),
        'm' => Some(Letter::M),
        'n' => Some(Letter::N),
        'o' => Some(Letter::O),
        'p' => Some(Letter::P),
        'q' => Some(Letter::Q),
        'r' => Some(Letter::R),
        's' => Some(Letter::S),
        't' => Some(Letter::T),
        'u' => Some(Letter::U),
        'v' | 'w' | 'ꝡ' => Some(Letter::V),
        'z' => Some(Letter::Z),
        _ => None,
    }
}

/// The first character of the lowercase mapping of `c`: the ASCII lowercase
/// for an ASCII character, `lowercase_first` beyond.
pub open spec fn lower_first(c: char) -> char {
    if (c as u32) < 128 {
        ascii_lower(c)
    } else {
        lowercase_first(c)
    }
}

/// The letter a character spells, read case-insensitively.
pub open spec fn letter_result(c: char) -> Result<Letter, Error> {
    match letter_of(lower_first(c)) {
        Some(l) => Ok(l),
        None => Err(Error::NotToaqChar(c)),
    }
}

/// The letter spelled by `c` followed by `h`, for the three digraph letters.
pub open spec fn digraph_of(c: char) -> Option<Letter> {
    match c {
        'c' => Some(Letter::Ch),
        'n' => Some(Letter::Nh),
        's' => Some(Letter::Sh),
        _ => None,
    }
}

/// The position of a letter in the alphabet.
pub open spec fn letter_rank(l: Letter) -> int {
    match l {
        Letter::Aomoi => 0,
        Letter::A => 1,
        Letter::B => 2,
        Letter::C => 3,
        Letter::Ch => 4,
        Letter::D => 5,
        Letter::E => 6,
        Letter::F => 7,
        Letter::G => 8,
        Letter::H => 9,
        Letter::I => 10,
        Letter::J => 11,
        Letter::K => 12,
        Letter::L => 13,
        Letter::M => 14,
        Letter::N => 15,
        Letter::Nh => 16,
        Letter::O => 17,
        Letter::P => 18,
        Letter::Q => 19,
        Letter::R => 20,
        Letter::S => 21,
        Letter::Sh => 22,
        Letter::T => 23,
        Letter::U => 24,
        Letter::V => 25,
        Letter::Z => 26,
    }
}

/// The characters that spell the single-character letters of the Toaq
/// alphabet, in alphabet order.
pub open spec fn alphabet_chars() -> Seq<char> {
    seq!['\'', 'a', 'b', 'c', 'd', 'e', 'f', 'g', 'h', 'i', 'j', 'k', 'l', 'm', 'n', 'o', 'p', 'q', 'r', 's', 't', 'u', 'v', 'z']
}

proof fn lemma_alphabet_step(i: int)
    requires
        0 <= i < alphabet_chars().len() - 1,
    ensures
        letter_of(alphabet_chars()[i]) is Some,
        letter_of(alphabet_chars()[i + 1]) is Some,
        letter_rank(letter_of(alphabet_chars()[i])->0) < letter_rank(letter_of(alphabet_chars()[i + 1])->0),
{
    let s = alphabet_chars();
    assert(s.len() == 24);
    if i == 0 {
        assert(s[0] == '\'' && s[1] == 'a');
    } else if i == 1 {
        assert(s[1] == 'a' && s[2] == 'b');
    } else if i == 2 {
        assert(s[2] == 'b' && s[3] == 'c');
    } else if i == 3 {
        assert(s[3] == 'c' && s[4] == 'd');
    } else if i == 4 {
        assert(s[4] == 'd' && s[5] == 'e');
    } else if i == 5 {
        assert(s[5] == 'e' && s[6] == 'f');
    } else if i == 6 {
        assert(s[6] == 'f' && s[7] == 'g');
    } else if i == 7 {
        assert(s[7] == 'g' && s[8] == 'h');
    } else if i == 8 {
        assert(s[8] == 'h' && s[9] == 'i');
    } else if i == 9 {
        assert(s[9] == 'i' && s[10] == 'j');
    } else if i == 10 {
        assert(s[10] == 'j' && s[11] == 'k');
    } else if i == 11 {
        assert(s[11] == 'k' && s[12] == 'l');
    } else if i == 12 {
        assert(s[12] == 'l' && s[13] == 'm');
    } else if i == 13 {
        assert(s[13] == 'm' && s[14] == 'n');
    } else if i == 14 {
        assert(s[14] == 'n' && s[15] == 'o');
    } else if i == 15 {
        assert(s[15] == 'o' && s[16] == 'p');
    } else if i == 16 {
        assert(s[16] == 'p' && s[17] == 'q');
    } else if i == 17 {
        assert(s[17] == 'q' && s[18] == 'r');
    } else if i == 18 {
        assert(s[18] == 'r' && s[19] == 's');
    } else if i == 19 {
        assert(s[19] == 's' && s[20] == 't');
    } else if i == 20 {
        assert(s[20] == 't' && s[21] == 'u');
    } else if i == 21 {
        assert(s[21] == 'u' && s[22] == 'v');
    } else if i == 22 {
        assert(s[22] == 'v' && s[23] == 'z');
    }
}

/// Each character of the alphabet spells a letter, and a character later in
/// the alphabet spells a letter later in the dictionary order: no two of
/// them spell the same letter, and `k` spells a letter after the one `g`
/// spells, as every letter comes after the ones before it.
pub proof fn law_letters_follow_alphabet(i: int, j: int)
    requires
        0 <= i < j < alphabet_chars().len(),
    ensures
        letter_of(alphabet_chars()[i]) is Some,
        letter_of(alphabet_chars()[j]) is Some,
        letter_rank(letter_of(alphabet_chars()[i])->0) < letter_rank(letter_of(alphabet_chars()[j])->0),
    decreases j - i,
{
    if j == i + 1 {
        lemma_alphabet_step(i);
    } else {
        law_letters_follow_alphabet(i, j - 1);
        lemma_alphabet_step(j - 1);
    }
}

/// An alphabet character spells its letter whatever the case of its
/// reading: it takes part in spelling, and read case-insensitively it is the
/// letter `letter_of` gives.
pub proof fn lemma_alphabet_char_reads(i: int)
    requires
        0 <= i < alphabet_chars().len(),
    ensures
        filter_spec(alphabet_chars()[i]),
        is_ascii_text(seq![alphabet_chars()[i]]),
        alphabet_chars()[i] != ' ' && alphabet_chars()[i] != '-' && alphabet_chars()[i] != '\u{0300}',
        letter_of(alphabet_chars()[i]) is Some,
        letter_result(alphabet_chars()[i]) == Ok::<Letter, Error>(letter_of(alphabet_chars()[i])->0),
{
    let s = alphabet_chars();
    assert(s.len() == 24);
    if i == 0 {
        assert(s[0] == '\'');
    } else if i == 1 {
        assert(s[1] == 'a');
    } else if i == 2 {
        assert(s[2] == 'b');
    } else if i == 3 {
        assert(s[3] == 'c');
    } else if i == 4 {
        assert(s[4] == 'd');
    } else if i == 5 {
        assert(s[5] == 'e');
    } else if i == 6 {
        assert(s[6] == 'f');
    } else if i == 7 {
        assert(s[7] == 'g');
    } else if i == 8 {
        assert(s[8] == 'h');
    } else if i == 9 {
        assert(s[9] == 'i');
    } else if i == 10 {
        assert(s[10] == 'j');
    } else if i == 11 {
        assert(s[11] == 'k');
    } else if i == 12 {
        assert(s[12] == 'l');
    } else if i == 13 {
        assert(s[13] == 'm');
    } else if i == 14 {
        assert(s[14] == 'n');
    } else if i == 15 {
        assert(s[15] == 'o');
    } else if i == 16 {
        assert(s[16] == 'p');
    } else if i == 17 {
        assert(s[17] == 'q');
    } else if i == 18 {
        assert(s[18] == 'r');
    } else if i == 19 {
        assert(s[19] == 's');
    } else if i == 20 {
        assert(s[20] == 't');
    } else if i == 21 {
        assert(s[21] == 'u');
    } else if i == 22 {
        assert(s[22] == 'v');
    } else if i == 23 {
        assert(s[23] == 'z');
    }
}

/// A text of one character that spells a letter is one grapheme of that
/// letter, with the lowest tone and no underdot, and nothing in it fails.
proof fn lemma_one_char_graphs(c: char, lowest: Tone)
    requires
        filter_spec(c),
        letter_result(c) is Ok,
    ensures
        graphs_from(seq![c], 0, lowest) == seq![Grapheme { tone: lowest, letter: letter_result(c)->Ok_0, underdot: false }],
        !fail_scan(seq![c], 0, lowest).0,
{
    let s = seq![c];
    assert(skip_unfiltered(s, 0) == 0);
    assert(skip_unfiltered(s, 1) == 1);
    assert(next_spec(s, 1, lowest).0 == GraphResult::Finished);
    assert(graphs_from(s, 1, lowest) == Seq::<Grapheme>::empty());
    assert(!fail_scan(s, 1, lowest).0);
    assert(graphs_from(s, 0, lowest) =~= seq![Grapheme { tone: lowest, letter: letter_result(c)->Ok_0, underdot: false }] + Seq::<Grapheme>::empty());
}

/// A text of one alphabet character is one grapheme: the letter that the
/// character spells, with the lowest tone and no underdot.
pub proof fn law_single_letter_text(i: int, lowest: Tone)
    requires
        0 <= i < alphabet_chars().len(),
    ensures
        graphs_from(seq![alphabet_chars()[i]], 0, lowest) == seq![
            Grapheme { tone: lowest, letter: letter_of(alphabet_chars()[i])->0, underdot: false },
        ],
        !fail_scan(seq![alphabet_chars()[i]], 0, lowest).0,
{
    lemma_alphabet_char_reads(i);
    lemma_one_char_graphs(alphabet_chars()[i], lowest);
}

/// The written variants spell the same letter as the plain character:
/// dotless `ı` as `i`, and `w` and `ꝡ` as `v`; and `c`, `n` and `s`
/// followed by `h` spell the letter right after the one they spell alone.
pub proof fn law_letter_variants()
    ensures
        letter_of('ı') == letter_of('i'),
        letter_of('w') == letter_of('v'),
        letter_of('ꝡ') == letter_of('v'),
        letter_rank(digraph_of('c')->0) == letter_rank(letter_of('c')->0) + 1,
        letter_rank(digraph_of('n')->0) == letter_rank(letter_of('n')->0) + 1,
        letter_rank(digraph_of('s')->0) == letter_rank(letter_of('s')->0) + 1,
{
}

/// Every letter is spelled: by one character of the alphabet, or by `c`,
/// `n` or `s` followed by `h`.
pub proof fn law_every_letter_spelled(l: Letter)
    ensures
        (exists|i: int| 0 <= i < alphabet_chars().len() && letter_of(#[trigger] alphabet_chars()[i]) == Some(l))
            || digraph_of('c') == Some(l) || digraph_of('n') == Some(l) || digraph_of('s') == Some(l),
{
    let s = alphabet_chars();
    assert(s.len() == 24);
    assert(s[0] == '\'');
    assert(s[1] == 'a');
    assert(s[2] == 'b');
    assert(s[3] == 'c');
    assert(s[4] == 'd');
    assert(s[5] == 'e');
    assert(s[6] == 'f');
    assert(s[7] == 'g');
    assert(s[8] == 'h');
    assert(s[9] == 'i');
    assert(s[10] == 'j');
    assert(s[11] == 'k');
    assert(s[12] == 'l');
    assert(s[13] == 'm');
    assert(s[14] == 'n');
    assert(s[15] == 'o');
    assert(s[16] == 'p');
    assert(s[17] == 'q');
    assert(s[18] == 'r');
    assert(s[19] == 's');
    assert(s[20] == 't');
    assert(s[21] == 'u');
    assert(s[22] == 'v');
    assert(s[23] == 'z');
}

impl Letter {
    /// The letter written as `chr` followed by `h`, if there is one.
    pub fn build_h_digraph(chr: char) -> (r: Option<Letter>)
        ensures
            r == digraph_of(chr),
    {
        match chr {
            'c' => Some(Letter::Ch),
            'n' => Some(Letter::Nh),
            's' => Some(Letter::Sh),
            _ => None,
        }
    }

    /// The letter that the lowercase character `c` spells.
    pub fn from_lowercase(c: char) -> (r: Option<Letter>)
        ensures
            r == letter_of(c),
    {
        match c {
            '\'' => Some(Letter::Aomoi),
            'a' => Some(Letter::A),
            'b' => Some(Letter::B),
            'c' => Some(Letter::C),
            'd' => Some(Letter::D),
            'e' => Some(Letter::E),
            'f' => Some(Letter::F),
            'g' => Some(Letter::G),
            'h' => Some(Letter::H),
            'i' | 'ı' => Some(Letter::I),
            'j' => Some(Letter::J),
            'k' => Some(Letter::K),
            'l' => Some(Letter::L),
            'm' => Some(Letter::M),
            'n' => Some(Letter::N),
            'o' => Some(Letter::O),
            'p' => Some(Letter::P),
            'q' => Some(Letter::Q),
            'r' => Some(Letter::R),
            's' => Some(Letter::S),
            't' => Some(Letter::T),
            'u' => Some(Letter::U),
            'v' | 'w' | 'ꝡ' => Some(Letter::V),
            'z' => Some(Letter::Z),
            _ => None,
        }
    }

    /// The letter spelled by `value`, whatever its case.
    pub fn try_from(value: char) -> (r: Result<Letter, Error>)
        ensures
            r == letter_result(value),
            (value as u32) < 128 ==> r == match letter_of(ascii_lower(value)) {
                Some(l) => Ok(l),
                None => Err(Error::NotToaqChar(value)),
            },
            (value as u32) >= 128 ==> r == match letter_of(lowercase_first(value)) {
                Some(l) => Ok(l),
                None => Err(Error::NotToaqChar(value)),
            },
    {
        let lower = match char_lowercase_first(value) {
            Some(c) => c,
            None => value,
        };
        match Letter::from_lowercase(lower) {
            Some(l) => Ok(l),
            None => Err(Error::NotToaqChar(value)),
        }
    }

    /// The position of this letter in the alphabet.
    pub fn rank(self) -> (r: u8)
        ensures
            r as int == letter_rank(self),
    {
        match self {
            Letter::Aomoi => 0,
            Letter::A => 1,
            Letter::B => 2,
            Letter::C => 3,
            Letter::Ch => 4,
            Letter::D => 5,
            Letter::E => 6,
            Letter::F => 7,
            Letter::G => 8,
            Letter::H => 9,
            Letter::I => 10,
            Letter::J => 11,
            Letter::K => 12,
            Letter::L => 13,
            Letter::M => 14,
            Letter::N => 15,
            Letter::Nh => 16,
            Letter::O => 17,
            Letter::P => 18,
            Letter::Q => 19,
            Letter::R => 20,
            Letter::S => 21,
            Letter::Sh => 22,
            Letter::T => 23,
            Letter::U => 24,
            Letter::V => 25,
            Letter::Z => 26,
        }
    }
}

/// The tones of a Toaq syllable, from lowest to highest in dictionary order.
#[derive(Debug, Clone, Copy, PartialEq, Eq, PartialOrd, Ord, Structural)]
pub enum Tone {
    Toneless,
    Verb,
    Noun,
    Clause,
    Adjunct,
}

/// The position of a tone in dictionary order.
pub open spec fn tone_rank(t: Tone) -> int {
    match t {
        Tone::Toneless => 0,
        Tone::Verb => 1,
        Tone::Noun => 2,
        Tone::Clause => 3,
        Tone::Adjunct => 4,
    }
}

impl Tone {
    /// The position of this tone in dictionary order.
    pub fn rank(self) -> (r: u8)
        ensures
            r as int == tone_rank(self),
    {
        match self {
            Tone::Toneless => 0,
            Tone::Verb => 1,
            Tone::Noun => 2,
            Tone::Clause => 3,
            Tone::Adjunct => 4,
        }
    }
}

/// A Toaq grapheme: a letter with its tone and whether it carries an
/// underdot.
#[derive(Debug, PartialEq, Eq, PartialOrd, Ord, Structural)]
pub struct Grapheme {
    pub tone: Tone,
    pub letter: Letter,
    pub underdot: bool,
}

/// One step of grapheme segmentation: a grapheme, a character outside the
/// alphabet, or the end of the text.
#[derive(Debug, PartialEq, Eq, Structural)]
pub enum GraphResult {
    Graph(Grapheme),
    Invalid(Error),
    Finished,
}

/// Whether `x` takes part in spelling: white space and punctuation do not.
pub open spec fn filter_spec(x: char) -> bool {
    &&& !is_whitespace_spec(x)
    &&& !(x == '*' || x == '-' || x == '.' || x == ',' || x == '!' || x == '?' || x == '«' || x
        == '»' || x == '"')
}

/// Whether `x` takes part in spelling: white space and punctuation do not.
pub fn filter(x: char) -> (r: bool)
    ensures
        r == filter_spec(x),
{
    !is_whitespace(x) && !(x == '*' || x == '-' || x == '.' || x == ',' || x == '!' || x == '?'
        || x == '«' || x == '»' || x == '"')
}

/// The effect of a combining mark on the tone and underdot of the letter it
/// follows, or `None` when `chr` is not a tone mark or underdot.
pub open spec fn mark_effect(chr: char, tone: Tone, underdot: bool) -> Option<(Tone, bool)> {
    if chr == '\u{0300}' {
        Some((Tone::Verb, true))
    } else if chr == '\u{0301}' {
        Some((Tone::Noun, underdot))
    } else if chr == '\u{0308}' {
        Some((Tone::Clause, underdot))
    } else if chr == '\u{0302}' {
        Some((Tone::Adjunct, underdot))
    } else if chr == '\u{0323}' {
        Some((tone, true))
    } else {
        None
    }
}

/// Applies the tone mark or underdot `chr` to `tone` and `underdot`; returns
/// whether `chr` was one.
fn tone_or_underdot(chr: char, tone: &mut Tone, underdot: &mut bool) -> (r: bool)
    ensures
        r == mark_effect(chr, *old(tone), *old(underdot)) is Some,
        r ==> (*final(tone), *final(underdot)) == mark_effect(chr, *old(tone), *old(underdot))->0,
        !r ==> *final(tone) == *old(tone) && *final(underdot) == *old(underdot),
{
    if chr == '\u{0300}' {
        *tone = Tone::Verb;
        *underdot = true;
    } else if chr == '\u{0301}' {
        *tone = Tone::Noun;
    } else if chr == '\u{0308}' {
        *tone = Tone::Clause;
    } else if chr == '\u{0302}' {
        *tone = Tone::Adjunct;
    } else if chr == '\u{0323}' {
        *underdot = true;
    } else {
        return false;
    }
    true
}

/// The first position at or after `pos` that holds a spelling character, or
/// the length of `chars` when there is none.
pub open spec fn skip_unfiltered(chars: Seq<char>, pos: int) -> int
    decreases chars.len() - pos,
{
    if pos >= chars.len() {
        chars.len() as int
    } else if pos >= 0 && filter_spec(chars[pos]) {
        pos
    } else {
        skip_unfiltered(chars, pos + 1)
    }
}

/// Reads at most one tone mark or underdot at `at`: the new tone and underdot
/// and the position after what was read.
pub open spec fn read_mark(chars: Seq<char>, at: int, tone: Tone, underdot: bool) -> (
    Tone,
    bool,
    int,
) {
    if 0 <= at < chars.len() && mark_effect(chars[at], tone, underdot) is Some {
        let (t, u) = mark_effect(chars[at], tone, underdot)->0;
        (t, u, at + 1)
    } else {
        (tone, underdot, at)
    }
}

/// One segmentation step of `chars` from `pos`, where an unmarked vowel has
/// tone `lowest`: what it yields and the position it leaves off at.
pub open spec fn next_spec(chars: Seq<char>, pos: int, lowest: Tone) -> (GraphResult, int) {
    let p = skip_unfiltered(chars, pos);
    if p >= chars.len() {
        (GraphResult::Finished, chars.len() as int)
    } else {
        let c = chars[p];
        let digraph = digraph_of(c) is Some && p + 1 < chars.len() && chars[p + 1] == 'h';
        let after = if digraph {
            p + 2
        } else {
            p + 1
        };
        let letter = if digraph {
            Ok(digraph_of(c)->0)
        } else {
            letter_result(c)
        };
        match letter {
            Err(e) => (GraphResult::Invalid(e), p + 1),
            Ok(l) => {
                let (t1, u1, a1) = read_mark(chars, after, lowest, false);
                let (t2, u2, a2) = read_mark(chars, a1, t1, u1);
                (GraphResult::Graph(Grapheme { tone: t2, letter: l, underdot: u2 }), a2)
            },
        }
    }
}

/// The tone of an unmarked vowel in `s`: texts that write the low tone
/// explicitly leave unmarked vowels toneless.
pub open spec fn lowest_tone_of(s: Seq<char>) -> Tone {
    if s.contains('\u{0300}') {
        Tone::Toneless
    } else {
        Tone::Verb
    }
}

pub proof fn lemma_skip_bounds(chars: Seq<char>, pos: int)
    requires
        0 <= pos,
    ensures
        skip_unfiltered(chars, pos) <= chars.len(),
        pos <= chars.len() ==> pos <= skip_unfiltered(chars, pos),
        skip_unfiltered(chars, pos) < chars.len() ==> filter_spec(
            chars[skip_unfiltered(chars, pos)],
        ),
    decreases chars.len() - pos,
{
    if pos < chars.len() && !filter_spec(chars[pos]) {
        lemma_skip_bounds(chars, pos + 1);
    }
}

/// A segmentation step that yields a grapheme moves forward.
pub proof fn lemma_next_advances(chars: Seq<char>, pos: int, lowest: Tone)
    requires
        0 <= pos,
    ensures
        next_spec(chars, pos, lowest).1 <= chars.len(),
        next_spec(chars, pos, lowest).0 !is Finished ==> pos < next_spec(chars, pos, lowest).1,
        next_spec(chars, pos, lowest).0 is Finished ==> next_spec(chars, pos, lowest).1
            == chars.len(),
{
    lemma_skip_bounds(chars, pos);
}

/// Whether segmentation from `pos` meets a character outside the alphabet
/// before the end, and the position where it stops.
pub open spec fn fail_scan(chars: Seq<char>, pos: int, lowest: Tone) -> (bool, int)
    decreases chars.len() - pos,
    when 0 <= pos
{
    let (r, p2) = next_spec(chars, pos, lowest);
    proof {
        lemma_next_advances(chars, pos, lowest);
    }
    match r {
        GraphResult::Graph(_) => fail_scan(chars, p2, lowest),
        GraphResult::Invalid(_) => (true, p2),
        GraphResult::Finished => (false, p2),
    }
}

/// The graphemes that segmentation yields from `pos`, up to the end of the
/// text or the first character outside the alphabet.
pub open spec fn graphs_from(chars: Seq<char>, pos: int, lowest: Tone) -> Seq<Grapheme>
    decreases chars.len() - pos,
    when 0 <= pos
{
    let (r, p2) = next_spec(chars, pos, lowest);
    proof {
        lemma_next_advances(chars, pos, lowest);
    }
    match r {
        GraphResult::Graph(g) => seq![g] + graphs_from(chars, p2, lowest),
        _ => Seq::empty(),
    }
}

/// Once segmentation has reached the end of a text it stays there: the next
/// step finishes again, without moving.
pub proof fn law_finished_stays_finished(chars: Seq<char>, pos: int, lowest: Tone)
    requires
        next_spec(chars, pos, lowest).0 == GraphResult::Finished,
    ensures
        next_spec(chars, next_spec(chars, pos, lowest).1, lowest) == (
            GraphResult::Finished,
            chars.len() as int,
        ),
{
    assert(next_spec(chars, pos, lowest).1 == chars.len());
}

/// Segmentation of a text into graphemes, one step at a time.
pub struct GraphsIter {
    chars: Vec<char>,
    pos: usize,
    lowest_tone: Tone,
}

impl GraphsIter {
    /// The decomposed text being segmented.
    pub closed spec fn text(&self) -> Seq<char> {
        self.chars@
    }

    /// How far segmentation has read.
    pub closed spec fn position(&self) -> int {
        self.pos as int
    }

    /// The tone of an unmarked vowel in this text.
    pub closed spec fn lowest(&self) -> Tone {
        self.lowest_tone
    }

    /// Starts segmenting `string`.
    pub fn new(string: &str) -> (r: GraphsIter)
        ensures
            r.text() == nfd(string@),
            r.text() == decomposed(string@),
            r.position() == 0,
            r.lowest() == lowest_tone_of(string@),
    {
        let original = chars_of(string);
        let lowest_tone = if contains_char(&original, '\u{0300}') {
            Tone::Toneless
        } else {
            Tone::Verb
        };
        GraphsIter::from_decomposed(nfd_chars(string), lowest_tone)
    }

    /// Starts segmenting text that is already decomposed, with `lowest` as
    /// the tone of an unmarked vowel.
    pub fn from_decomposed(chars: Vec<char>, lowest: Tone) -> (r: GraphsIter)
        ensures
            r.text() == chars@,
            r.position() == 0,
            r.lowest() == lowest,
    {
        GraphsIter { chars, pos: 0, lowest_tone: lowest }
    }

    /// The next grapheme, a character outside the alphabet, or the end.
    pub fn next(&mut self) -> (r: GraphResult)
        ensures
            final(self).text() == old(self).text(),
            final(self).lowest() == old(self).lowest(),
            (r, final(self).position()) == next_spec(
                old(self).text(),
                old(self).position(),
                old(self).lowest(),
            ),
    {
        let n = self.chars.len();
        let mut p = self.pos;
        proof {
            lemma_skip_bounds(self.chars@, p as int);
        }
        while p < n && !filter(self.chars[p])
            invariant
                n == self.chars@.len(),
                skip_unfiltered(self.chars@, p as int) == skip_unfiltered(
                    self.chars@,
                    self.pos as int,
                ),
            decreases n - p,
        {
            p = p + 1;
        }
        if p >= n {
            self.pos = n;
            return GraphResult::Finished;
        }
        let c = self.chars[p];
        let mut after = p + 1;
        let letter = if (c == 'n' || c == 'c' || c == 's') && after < n && self.chars[after]
            == 'h' {
            after = after + 1;
            match Letter::build_h_digraph(c) {
                Some(l) => l,
                None => Letter::Z,
            }
        } else {
            match Letter::try_from(c) {
                Ok(l) => l,
                Err(e) => {
                    self.pos = p + 1;
                    return GraphResult::Invalid(e);
                },
            }
        };
        let mut tone = self.lowest_tone;
        let mut underdot = false;
        if after < n && tone_or_underdot(self.chars[after], &mut tone, &mut underdot) {
            after = after + 1;
        }
        if after < n && tone_or_underdot(self.chars[after], &mut tone, &mut underdot) {
            after = after + 1;
        }
        self.pos = after;
        GraphResult::Graph(Grapheme { tone, letter, underdot })
    }

    /// Reads the rest of the text; whether a character outside the alphabet
    /// comes before the end.
    pub fn will_fail(&mut self) -> (r: bool)
        ensures
            final(self).text() == old(self).text(),
            final(self).lowest() == old(self).lowest(),
            (r, final(self).position()) == fail_scan(
                old(self).text(),
                old(self).position(),
                old(self).lowest(),
            ),
    {
        loop
            invariant
                self.text() == old(self).text(),
                self.lowest() == old(self).lowest(),
                fail_scan(self.text(), self.position(), self.lowest()) == fail_scan(
                    old(self).text(),
                    old(self).position(),
                    old(self).lowest(),
                ),
            decreases self.text().len() - self.position(),
        {
            let ghost before = self.position();
            proof {
                lemma_next_advances(self.text(), before, self.lowest());
            }
            match self.next() {
                GraphResult::Graph(_) => {},
                GraphResult::Invalid(_) => return true,
                GraphResult::Finished => return false,
            }
        }
    }
}

} // verus!
