//! Dictionary entries as the Toadua dictionary serves them.

use crate::letters::{filter, filter_spec};
use crate::patterns::{
    bytes_regex_find_all, bytes_regex_is_match, regex_find_all, regex_is_match, utf8_lossy,
    utf8_lossy_string,
};
use crate::text::{
    ascii_lower, decomposed, is_ascii_text, is_whitespace_spec, lowered, chars_of, contains_char, contains_str, has_infix, has_prefix, lowercase, nfc, nfc_chars, nfd,
    nfd_chars, split_words, starts_with_str, string_of, to_lowercase, words,
};
use vstd::prelude::*;
use vstd::utf8::encode_utf8;

verus! {

/// A comment attached to a dictionary entry.
#[derive(PartialEq, Eq)]
pub struct Note {
    pub date: String,
    pub user: String,
    pub content: String,
}

impl Clone for Note {
    fn clone(&self) -> (r: Note)
        ensures
            r == *self,
    {
        Note { date: self.date.clone(), user: self.user.clone(), content: self.content.clone() }
    }
}

/// A dictionary entry.
#[derive(PartialEq, Eq)]
pub struct Toa {
    pub id: String,
    pub date: String,
    pub head: String,
    pub body: String,
    pub user: String,
    pub notes: Vec<Note>,
    pub score: i32,
    pub scope: String,
    pub warn: bool,
    pub frame: Option<String>,
    pub animacy: Option<String>,
    pub distribution: Option<String>,
    pub subject: Option<String>,
    pub tags: Option<String>,
}

/// A note as a value.
pub struct NoteView {
    pub date: Seq<char>,
    pub user: Seq<char>,
    pub content: Seq<char>,
}

impl View for Note {
    type V = NoteView;

    open spec fn view(&self) -> NoteView {
        NoteView { date: self.date@, user: self.user@, content: self.content@ }
    }
}

/// An optional text as a value.
pub open spec fn opt_view(o: Option<String>) -> Option<Seq<char>> {
    match o {
        Some(s) => Some(s@),
        None => None,
    }
}

/// A dictionary entry as a value.
pub struct ToaView {
    pub id: Seq<char>,
    pub date: Seq<char>,
    pub head: Seq<char>,
    pub body: Seq<char>,
    pub user: Seq<char>,
    pub notes: Seq<NoteView>,
    pub score: i32,
    pub scope: Seq<char>,
    pub warn: bool,
    pub frame: Option<Seq<char>>,
    pub animacy: Option<Seq<char>>,
    pub distribution: Option<Seq<char>>,
    pub subject: Option<Seq<char>>,
    pub tags: Option<Seq<char>>,
}

impl View for Toa {
    type V = ToaView;

    open spec fn view(&self) -> ToaView {
        ToaView {
            id: self.id@,
            date: self.date@,
            head: self.head@,
            body: self.body@,
            user: self.user@,
            notes: self.notes@.map_values(|n: Note| n@),
            score: self.score,
            scope: self.scope@,
            warn: self.warn,
            frame: opt_view(self.frame),
            animacy: opt_view(self.animacy),
            distribution: opt_view(self.distribution),
            subject: opt_view(self.subject),
            tags: opt_view(self.tags),
        }
    }
}

impl Clone for Toa {
    fn clone(&self) -> (r: Toa)
        ensures
            r@ == self@,
    {
        let notes = self.notes.clone();
        assert forall|i: int| 0 <= i < notes@.len() implies notes@[i] == self.notes@[i] by {
            assert(cloned::<Note>(self.notes[i], notes[i]));
        }
        assert(notes@ =~= self.notes@);
        let r = Toa {
            id: self.id.clone(),
            date: self.date.clone(),
            head: self.head.clone(),
            body: self.body.clone(),
            user: self.user.clone(),
            notes,
            score: self.score,
            scope: self.scope.clone(),
            warn: self.warn,
            frame: clone_opt(&self.frame),
            animacy: clone_opt(&self.animacy),
            distribution: clone_opt(&self.distribution),
            subject: clone_opt(&self.subject),
            tags: clone_opt(&self.tags),
        };
        assert(r@.notes =~= self@.notes);
        r
    }
}

fn clone_opt(s: &Option<String>) -> (r: Option<String>)
    ensures
        r == *s,
{
    match s {
        Some(v) => Some(v.clone()),
        None => None,
    }
}

/// The result of the Toadua search API.
pub struct Toadua {
    pub results: Vec<Toa>,
}

/// One syllable (raku) of a Toaq word, on normalized text.
pub const ONE_RAKU: &'static str = r"(^|[\ mpbfntdczꝡsrljkg'h]|[ncs]h)([aeiıou])?([aeo][iı]|ao|[aeiıou][qm]?)";

/// A whole text made of raku, with punctuation between them (written for
/// the `ignore_whitespace` regex setting).
pub const MANY_RAKU: &'static str = r"^((
            (^|[\ mpbfntdczꝡsrljkg'h]|[ncs]h)
            ([aeiıou])? 
            ([aeo][iı]|ao|[aeiıou][qm]?)
        )[ .,?!()]?)+$";

/// The characters a headword may be written with.
pub const HEAD_CHARS: &'static str = "aáäâạbcdeéëêẹfghıíïîịjklmnoóöôọpqrstuúüûụꝡz'AÁÄÂẠBCDEÉËÊẸFGHIÍÏÎỊJKLMNOÓÖÔỌPQRSTUÚÜÛỤꝠZ .,?!-\u{0301}\u{0302}\u{0308}\u{0323}()«»‹›";

/// A vowel before which a space is written as a glottal stop.
pub open spec fn joins_vowel(c: char) -> bool {
    c == 'a' || c == 'e' || c == 'i' || c == 'ı' || c == 'o' || c == 'u'
}

/// The character at `i` once every space before a vowel is written as `'`
/// (and a dotless i after such a space as a plain i).
pub open spec fn joined_at(s: Seq<char>, i: int) -> char {
    if s[i] == ' ' && i + 1 < s.len() && joins_vowel(s[i + 1]) {
        '\''
    } else if s[i] == 'ı' && i > 0 && s[i - 1] == ' ' {
        'i'
    } else {
        s[i]
    }
}

/// `s` with every space before a vowel written as `'`.
pub open spec fn join_vowels(s: Seq<char>) -> Seq<char> {
    Seq::new(s.len(), |i: int| joined_at(s, i))
}

/// Whether validation keeps `c`: spelling characters other than tone marks
/// and the underdot.
pub open spec fn kept_for_validation(c: char) -> bool {
    filter_spec(c) && !(c == '\u{0301}' || c == '\u{0302}' || c == '\u{0308}' || c == '\u{0323}')
}

/// A text reduced to what its spelling is validated on: decomposed,
/// lowercased, with glottal stops made explicit and tone marks, underdots,
/// white space and punctuation dropped.
pub open spec fn normalized(text: Seq<char>) -> Seq<char> {
    validation_form(lowered(decomposed(text)))
}

/// A decomposed, lowercased text reduced to what its spelling is validated
/// on: glottal stops made explicit, and tone marks, underdots, white space
/// and punctuation dropped.
pub open spec fn validation_form(lower: Seq<char>) -> Seq<char> {
    join_vowels(lower).filter(|c: char| kept_for_validation(c))
}

/// The raku of a word, when its normalized text is made of raku.
pub open spec fn raku_split(word: Seq<char>) -> Option<Seq<Seq<char>>> {
    let bytes = encode_utf8(normalized(word));
    if regex_is_match(MANY_RAKU@, true, bytes) != Some(true) {
        None
    } else {
        match regex_find_all(ONE_RAKU@, bytes) {
            None => None,
            Some(found) => if found.len() == 0 {
                None
            } else {
                Some(found.map_values(|m: Seq<u8>| utf8_lossy(m)))
            },
        }
    }
}

/// Reduces a text to what its spelling is validated on.
pub fn normalize_for_validation(text: &str) -> (r: String)
    ensures
        r@ == normalized(text@),
{
    let decomposed_text = string_of(&nfd_chars(text));
    assert(decomposed_text@ == decomposed(text@));
    let lower = to_lowercase(decomposed_text.as_str());
    string_of(&normalize_lowered(&lower))
}

/// Reduces a text that is already decomposed and lowercased to what its
/// spelling is validated on.
pub fn normalize_lowered(lower: &Vec<char>) -> (r: Vec<char>)
    ensures
        r@ == validation_form(lower@),
{
    let ghost joined = join_vowels(lower@);
    let ghost keep = |c: char| kept_for_validation(c);
    let n = lower.len();
    let mut out: Vec<char> = Vec::new();
    let mut i: usize = 0;
    while i < n
        invariant
            n == lower@.len(),
            i <= n,
            joined == join_vowels(lower@),
            keep == (|c: char| kept_for_validation(c)),
            out@ == joined.take(i as int).filter(keep),
        decreases n - i,
    {
        let c = lower[i];
        let d = if c == ' ' && i + 1 < n && (lower[i + 1] == 'a' || lower[i + 1] == 'e' || lower[i
            + 1] == 'i' || lower[i + 1] == 'ı' || lower[i + 1] == 'o' || lower[i + 1] == 'u') {
            '\''
        } else if c == 'ı' && i > 0 && lower[i - 1] == ' ' {
            'i'
        } else {
            c
        };
        assert(d == joined[i as int]);
        proof {
            reveal_with_fuel(Seq::filter, 1);
            assert(joined.take(i + 1).drop_last() =~= joined.take(i as int));
        }
        if filter(d) && !(d == '\u{0301}' || d == '\u{0302}' || d == '\u{0308}' || d
            == '\u{0323}') {
            out.push(d);
        }
        i = i + 1;
    }
    assert(joined.take(n as int) =~= joined);
    out
}

/// Splits a word into its raku, when it is made of them.
pub fn split_into_raku(word: &str) -> (r: Option<Vec<String>>)
    ensures
        r is Some == raku_split(word@) is Some,
        r is Some ==> r->0@.map_values(|s: String| s@) == raku_split(word@)->0,
{
    let normalized = normalize_for_validation(word);
    let bytes = normalized.as_str().as_bytes();
    match bytes_regex_is_match(MANY_RAKU, true, bytes) {
        Some(true) => {},
        _ => {
            return None;
        },
    }
    let found = match bytes_regex_find_all(ONE_RAKU, bytes) {
        Some(f) => f,
        None => {
            return None;
        },
    };
    let ghost found_view = found@.map_values(|m: Vec<u8>| m@);
    let mut rakus: Vec<String> = Vec::new();
    let mut i: usize = 0;
    while i < found.len()
        invariant
            i <= found@.len(),
            found_view == found@.map_values(|m: Vec<u8>| m@),
            rakus@.map_values(|s: String| s@) == found_view.take(i as int).map_values(
                |m: Seq<u8>| utf8_lossy(m),
            ),
        decreases found.len() - i,
    {
        let ghost before = rakus@.map_values(|s: String| s@);
        let raku = utf8_lossy_string(found[i].as_slice());
        assert(found_view[i as int] == found@[i as int]@);
        assert(raku@ == utf8_lossy(found_view[i as int]));
        rakus.push(raku);
        assert(rakus@.map_values(|s: String| s@) =~= before.push(utf8_lossy(found_view[i as int])));
        assert(found_view.take(i + 1) =~= found_view.take(i as int).push(found_view[i as int]));
        assert(rakus@.map_values(|s: String| s@) =~= found_view.take(i + 1).map_values(
            |m: Seq<u8>| utf8_lossy(m),
        ));
        i = i + 1;
    }
    assert(found_view.take(found@.len() as int) =~= found_view);
    if rakus.len() == 0 {
        None
    } else {
        Some(rakus)
    }
}

/// The punctuation that spelling passes over.
pub open spec fn is_punctuation(c: char) -> bool {
    c == '*' || c == '-' || c == '.' || c == ',' || c == '!' || c == '?' || c == '«' || c == '»'
        || c == '"'
}

proof fn lemma_filter_absorbed(s: Seq<char>, p: spec_fn(char) -> bool, q: spec_fn(char) -> bool)
    requires
        forall|c: char| #[trigger] q(c) ==> p(c),
    ensures
        s.filter(p).filter(q) == s.filter(q),
    decreases s.len(),
{
    if s.len() > 0 {
        let t = s.drop_last();
        let x = s.last();
        lemma_filter_absorbed(t, p, q);
        assert(s =~= t.push(x));
        t.lemma_filter_push(x, p);
        t.lemma_filter_push(x, q);
        t.filter(p).lemma_filter_push(x, q);
    } else {
        reveal_with_fuel(Seq::filter, 1);
    }
}

proof fn lemma_filter_lowered(s: Seq<char>, p: spec_fn(char) -> bool)
    requires
        forall|c: char| #[trigger] p(ascii_lower(c)) == p(c),
    ensures
        s.filter(p).map_values(|c: char| ascii_lower(c)) == s.map_values(|c: char| ascii_lower(c)).filter(p),
    decreases s.len(),
{
    let f = |c: char| ascii_lower(c);
    if s.len() > 0 {
        let t = s.drop_last();
        let x = s.last();
        lemma_filter_lowered(t, p);
        assert(s =~= t.push(x));
        t.lemma_filter_push(x, p);
        assert(s.map_values(f) =~= t.map_values(f).push(ascii_lower(x)));
        t.map_values(f).lemma_filter_push(ascii_lower(x), p);
        assert(t.filter(p).push(x).map_values(f) =~= t.filter(p).map_values(f).push(ascii_lower(x)));
    } else {
        reveal_with_fuel(Seq::filter, 1);
        assert(s.filter(p).map_values(f) =~= s.map_values(f).filter(p));
    }
}

proof fn lemma_filter_keeps(s: Seq<char>, p: spec_fn(char) -> bool, q: spec_fn(char) -> bool)
    requires
        forall|i: int| 0 <= i < s.len() ==> #[trigger] q(s[i]),
    ensures
        forall|i: int| 0 <= i < s.filter(p).len() ==> #[trigger] q(s.filter(p)[i]),
    decreases s.len(),
{
    if s.len() > 0 {
        let t = s.drop_last();
        let x = s.last();
        assert forall|i: int| 0 <= i < t.len() implies #[trigger] q(t[i]) by {
            assert(t[i] == s[i]);
        }
        lemma_filter_keeps(t, p, q);
        assert(s =~= t.push(x));
        t.lemma_filter_push(x, p);
        assert(q(s[s.len() - 1]));
    } else {
        reveal_with_fuel(Seq::filter, 1);
    }
}

proof fn lemma_join_without_spaces(s: Seq<char>)
    requires
        forall|i: int| 0 <= i < s.len() ==> s[i] != ' ',
    ensures
        join_vowels(s) == s,
{
    assert(join_vowels(s) =~= s);
}

proof fn lemma_normalized_plain(w: Seq<char>)
    requires
        is_ascii_text(w),
        forall|i: int| 0 <= i < w.len() ==> !is_whitespace_spec(#[trigger] w[i]),
    ensures
        normalized(w) == w.map_values(|c: char| ascii_lower(c)).filter(|c: char| kept_for_validation(c)),
{
    let lw = w.map_values(|c: char| ascii_lower(c));
    assert(decomposed(w) == w);
    assert(lowered(w) == lw);
    assert forall|i: int| 0 <= i < lw.len() implies lw[i] != ' ' by {
        assert(!is_whitespace_spec(w[i]));
    }
    lemma_join_without_spaces(lw);
}

/// What spelling drops before the grapheme rules: punctuation, the tone
/// marks and the underdot.
pub open spec fn is_dropped_mark(c: char) -> bool {
    is_punctuation(c) || c == '\u{0301}' || c == '\u{0302}' || c == '\u{0308}' || c == '\u{0323}'
}

/// The decomposition of `w` without punctuation, tone marks or underdot.
pub open spec fn bare_form(w: Seq<char>) -> Seq<char> {
    decomposed(w).filter(|c: char| !is_dropped_mark(c))
}

/// Punctuation, tone marks and underdots do not change how a word splits
/// into raku: a word splits exactly as its decomposition does with those
/// taken out, and a split, when there is one, holds at least one raku.
/// This holds wherever decomposition and lowercasing behave on the word as
/// they do on Toaq text: its lowercase decomposition holds no white space,
/// the bare decomposition is already decomposed, and lowercasing it is
/// lowercasing the whole decomposition with the same characters dropped.
pub proof fn law_marks_keep_raku(w: Seq<char>)
    requires
        forall|i: int| 0 <= i < w.len() ==> !is_whitespace_spec(#[trigger] w[i]),
        forall|i: int|
            0 <= i < lowered(decomposed(w)).len() ==> !is_whitespace_spec(
                #[trigger] lowered(decomposed(w))[i],
            ),
        decomposed(bare_form(w)) == bare_form(w),
        lowered(bare_form(w)) == lowered(decomposed(w)).filter(|c: char| !is_dropped_mark(c)),
    ensures
        raku_split(w) == raku_split(bare_form(w)),
        raku_split(w) matches Some(v) ==> v.len() > 0,
{
    let q = |c: char| !is_dropped_mark(c);
    let kept = |c: char| kept_for_validation(c);
    let l = lowered(decomposed(w));
    let l2 = l.filter(q);
    assert forall|i: int| 0 <= i < l.len() implies l[i] != ' ' by {
        assert(!is_whitespace_spec(l[i]));
    }
    lemma_join_without_spaces(l);
    lemma_filter_keeps(l, q, |c: char| c != ' ');
    assert forall|i: int| 0 <= i < l2.len() implies l2[i] != ' ' by {
        assert((|c: char| c != ' ')(l2[i]));
    }
    lemma_join_without_spaces(l2);
    assert forall|c: char| #[trigger] kept(c) implies q(c) by {
        assert(filter_spec(c));
    }
    lemma_filter_absorbed(l, q, kept);
    assert(normalized(w) == normalized(bare_form(w)));
}

/// Punctuation does not change how a word splits into raku: a word in ASCII
/// without white space splits exactly as it does with its punctuation
/// (`*-.,!?"`) taken out, and a split, when there is one, holds at least
/// one raku.
pub proof fn law_punctuation_keeps_raku(w: Seq<char>)
    requires
        is_ascii_text(w),
        forall|i: int| 0 <= i < w.len() ==> !is_whitespace_spec(#[trigger] w[i]),
    ensures
        raku_split(w) == raku_split(w.filter(|c: char| !is_punctuation(c))),
        raku_split(w) matches Some(v) ==> v.len() > 0,
{
    let np = |c: char| !is_punctuation(c);
    let kept = |c: char| kept_for_validation(c);
    let f = |c: char| ascii_lower(c);
    let w2 = w.filter(np);
    lemma_filter_keeps(w, np, |c: char| (c as u32) < 128);
    lemma_filter_keeps(w, np, |c: char| !is_whitespace_spec(c));
    assert(is_ascii_text(w2)) by {
        assert forall|i: int| 0 <= i < w2.len() implies (#[trigger] w2[i] as u32) < 128 by {
            assert((|c: char| (c as u32) < 128)(w2[i]));
        }
    }
    assert forall|i: int| 0 <= i < w2.len() implies !is_whitespace_spec(#[trigger] w2[i]) by {
        assert((|c: char| !is_whitespace_spec(c))(w2[i]));
    }
    lemma_normalized_plain(w);
    lemma_normalized_plain(w2);
    assert forall|c: char| #[trigger] np(ascii_lower(c)) == np(c) by {
        if 'A' <= c && c <= 'Z' {
            assert('a' <= ascii_lower(c) && ascii_lower(c) <= 'z');
        }
    }
    lemma_filter_lowered(w, np);
    assert forall|c: char| #[trigger] kept(c) implies np(c) by {
        assert(filter_spec(c));
    }
    lemma_filter_absorbed(w.map_values(f), np, kept);
    assert(normalized(w) == normalized(w2));
}

/// Whether a headword holds one of the vowel and consonant clusters that
/// Toaq spelling does not allow.
pub open spec fn has_bad_cluster(h: Seq<char>) -> bool {
    ||| has_infix(h, "ae"@)
    ||| has_infix(h, "au"@)
    ||| has_infix(h, "ou"@)
    ||| has_infix(h, "nhı"@)
    ||| has_infix(h, "ꝡı"@)
    ||| has_infix(h, "ꝡu"@)
    ||| has_infix(h, "aıq"@)
    ||| has_infix(h, "aoq"@)
    ||| has_infix(h, "eıq"@)
    ||| has_infix(h, "oıq"@)
}

/// Whether the normalized form of `text` is made of raku.
pub open spec fn made_of_raku(text: Seq<char>) -> bool {
    regex_is_match(MANY_RAKU@, true, encode_utf8(normalized(text))) == Some(true)
}

/// Whether the composed form of a headword holds a character it may not be
/// written with.
pub open spec fn has_foreign_char(h: Seq<char>) -> bool {
    exists|i: int| 0 <= i < nfc(h).len() && !HEAD_CHARS@.contains(#[trigger] nfc(h)[i])
}

/// Whether a word carries the clause tone and has more than one raku.
pub open spec fn is_toned_compound(w: Seq<char>) -> bool {
    nfd(w).contains('\u{0308}') && raku_split(w) is Some && raku_split(w)->0.len() > 1
}

/// Whether some word of a headword carries the clause tone and has more than
/// one raku.
pub open spec fn has_toned_compound(h: Seq<char>) -> bool {
    exists|j: int| 0 <= j < words(h).len() && is_toned_compound(#[trigger] words(h)[j])
}

/// Whether an entry says that it is written in textspeak.
pub open spec fn marked_textspeak(t: ToaView) -> bool {
    ||| has_infix(t.body, "textspeak"@)
    ||| exists|k: int| 0 <= k < t.notes.len() && has_infix(#[trigger] t.notes[k].content, "textspeak"@)
}

/// Whether an entry deserves a warning about its spelling.
pub open spec fn needs_warning(t: ToaView) -> bool {
    &&& {
        ||| has_bad_cluster(t.head)
        ||| !made_of_raku(t.head)
        ||| has_foreign_char(t.head)
        ||| has_prefix(t.user, "old"@)
        ||| has_toned_compound(t.head)
    }
    &&& !marked_textspeak(t)
}

/// An entry whose head holds a cluster that Toaq spelling does not allow
/// (`ae`, `au`, `ou`, `nhı`, `ꝡı`, `ꝡu`, `aıq`, `aoq`, `eıq` or `oıq`) is
/// warned about, unless its body or one of its notes says it is textspeak.
pub proof fn law_forbidden_cluster_warns(t: ToaView)
    requires
        has_infix(t.head, "ae"@) || has_infix(t.head, "au"@) || has_infix(t.head, "ou"@)
            || has_infix(t.head, "nhı"@) || has_infix(t.head, "ꝡı"@) || has_infix(t.head, "ꝡu"@)
            || has_infix(t.head, "aıq"@) || has_infix(t.head, "aoq"@) || has_infix(t.head, "eıq"@)
            || has_infix(t.head, "oıq"@),
        !has_infix(t.body, "textspeak"@),
        forall|k: int| 0 <= k < t.notes.len() ==> !has_infix(#[trigger] t.notes[k].content, "textspeak"@),
    ensures
        needs_warning(t),
{
}

/// An entry by an old user (a user name starting with `old`) is warned
/// about, unless its body or one of its notes says it is textspeak; and an
/// entry that says it is textspeak is never warned about.
pub proof fn law_textspeak_and_old_users(t: ToaView)
    ensures
        has_prefix(t.user, "old"@) && !has_infix(t.body, "textspeak"@) && (forall|k: int|
            0 <= k < t.notes.len() ==> !has_infix(#[trigger] t.notes[k].content, "textspeak"@))
            ==> needs_warning(t),
        has_infix(t.body, "textspeak"@) ==> !needs_warning(t),
        (exists|k: int| 0 <= k < t.notes.len() && has_infix(#[trigger] t.notes[k].content, "textspeak"@))
            ==> !needs_warning(t),
{
}

/// Whether the normalized form of `text` is made of raku.
pub fn is_made_of_raku(text: &str) -> (r: bool)
    ensures
        r == made_of_raku(text@),
{
    let normalized = normalize_for_validation(text);
    match bytes_regex_is_match(MANY_RAKU, true, normalized.as_str().as_bytes()) {
        Some(b) => b,
        None => false,
    }
}

fn foreign_char_in(head: &str) -> (r: bool)
    ensures
        r == has_foreign_char(head@),
{
    let composed = nfc_chars(head);
    let allowed = chars_of(HEAD_CHARS);
    let mut i: usize = 0;
    while i < composed.len()
        invariant
            i <= composed@.len(),
            composed@ == nfc(head@),
            allowed@ == HEAD_CHARS@,
            forall|j: int| 0 <= j < i ==> HEAD_CHARS@.contains(#[trigger] composed@[j]),
        decreases composed.len() - i,
    {
        if !contains_char(&allowed, composed[i]) {
            return true;
        }
        i = i + 1;
    }
    false
}

fn toned_compound_in(head: &str) -> (r: bool)
    ensures
        r == has_toned_compound(head@),
{
    let chars = chars_of(head);
    let words = split_words(&chars);
    let ghost ws = words@.map_values(|w: Vec<char>| w@);
    let mut j: usize = 0;
    while j < words.len()
        invariant
            j <= words@.len(),
            ws == words@.map_values(|w: Vec<char>| w@),
            ws == crate::text::words(head@),
            forall|k: int| 0 <= k < j ==> !is_toned_compound(#[trigger] ws[k]),
        decreases words.len() - j,
    {
        let word = string_of(words[j].as_slice());
        assert(word@ == ws[j as int]);
        let decomposed = nfd_chars(word.as_str());
        if contains_char(&decomposed, '\u{0308}') {
            match split_into_raku(word.as_str()) {
                Some(rakus) => {
                    if rakus.len() > 1 {
                        return true;
                    }
                },
                None => {},
            }
        }
        j = j + 1;
    }
    false
}

pub(crate) fn textspeak_in(t: &Toa) -> (r: bool)
    ensures
        r == marked_textspeak(t@),
{
    let body = chars_of(&t.body);
    if contains_str(&body, "textspeak") {
        return true;
    }
    let mut k: usize = 0;
    while k < t.notes.len()
        invariant
            k <= t.notes@.len(),
            !has_infix(t.body@, "textspeak"@),
            forall|j: int| 0 <= j < k ==> !has_infix(#[trigger] t.notes@[j].content@, "textspeak"@),
        decreases t.notes.len() - k,
    {
        let content = chars_of(&t.notes[k].content);
        if contains_str(&content, "textspeak") {
            assert(has_infix(t@.notes[k as int].content, "textspeak"@));
            return true;
        }
        k = k + 1;
    }
    false
}

/// The timestamp that the RFC 2822 datetime `date` denotes, as jiff writes
/// timestamps.
pub uninterp spec fn rfc2822_timestamp(date: Seq<char>) -> Option<Seq<char>>;

/// Parses `date` with `jiff::fmt::rfc2822::parse` and writes the timestamp
/// of the result with its `Display`; `None` when it does not parse.  The
/// result is named, not described.
#[verifier::external_body]
fn rfc2822_to_timestamp(date: &str) -> (r: Option<String>)
    ensures
        r is Some == rfc2822_timestamp(date@) is Some,
        r is Some ==> r->0@ == rfc2822_timestamp(date@)->0,
{
    match jiff::fmt::rfc2822::parse(date) {
        Ok(zoned) => Some(zoned.timestamp().to_string()),
        Err(_) => None,
    }
}

/// The date of a note once RFC 2822 dates are written as timestamps.
pub open spec fn fixed_date(date: Seq<char>) -> Seq<char> {
    match rfc2822_timestamp(date) {
        Some(t) => t,
        None => date,
    }
}

/// Whether a metadata field holds the placeholder `undefined`.
pub open spec fn is_undefined(m: Option<Seq<char>>) -> bool {
    m is Some && m->0 == "undefined"@
}

fn undefined_in(m: &Option<String>) -> (r: bool)
    ensures
        r == is_undefined(opt_view(*m)),
{
    match m {
        Some(s) => {
            let cs = chars_of(s.as_str());
            let u = chars_of("undefined");
            if cs.len() != u.len() {
                return false;
            }
            let b = starts_with_str(&cs, "undefined");
            assert(cs@.subrange(0, cs@.len() as int) =~= cs@);
            assert(b ==> cs@ =~= "undefined"@);
            b
        },
        None => false,
    }
}

impl Toa {
    /// Sets the warning flag on entries whose spelling looks wrong, unless
    /// they say they are written in textspeak.
    pub fn set_warning(&mut self)
        ensures
            final(self)@ == (ToaView { warn: needs_warning(old(self)@), ..old(self)@ }),
    {
        let head = chars_of(&self.head);
        let cluster = contains_str(&head, "ae") || contains_str(&head, "au") || contains_str(
            &head,
            "ou",
        ) || contains_str(&head, "nhı") || contains_str(&head, "ꝡı") || contains_str(&head, "ꝡu")
            || contains_str(&head, "aıq") || contains_str(&head, "aoq") || contains_str(
            &head,
            "eıq",
        ) || contains_str(&head, "oıq");
        let shape = !is_made_of_raku(self.head.as_str());
        let foreign = foreign_char_in(self.head.as_str());
        let user = chars_of(&self.user);
        let old_user = starts_with_str(&user, "old");
        let toned = toned_compound_in(self.head.as_str());
        let textspeak = textspeak_in(self);
        self.warn = (cluster || shape || foreign || old_user || toned) && !textspeak;
    }

    /// Writes the dates of notes that are RFC 2822 datetimes as timestamps.
    pub fn fix_note_dates(&mut self)
        ensures
            final(self)@ == (ToaView {
                notes: old(self)@.notes.map_values(
                    |n: NoteView| NoteView { date: fixed_date(n.date), ..n },
                ),
                ..old(self)@
            }),
    {
        let mut notes: Vec<Note> = Vec::new();
        let mut i: usize = 0;
        while i < self.notes.len()
            invariant
                i <= self.notes@.len(),
                notes@.len() == i,
                forall|j: int|
                    0 <= j < i ==> (#[trigger] notes@[j]).date@ == fixed_date(self.notes@[j].date@)
                        && notes@[j].user == self.notes@[j].user && notes@[j].content
                        == self.notes@[j].content,
            decreases self.notes.len() - i,
        {
            let n = &self.notes[i];
            let date = match rfc2822_to_timestamp(n.date.as_str()) {
                Some(t) => t,
                None => n.date.clone(),
            };
            notes.push(Note { date, user: n.user.clone(), content: n.content.clone() });
            i = i + 1;
        }
        let ghost before = self@;
        self.notes = notes;
        assert(self@.notes =~= before.notes.map_values(
            |n: NoteView| NoteView { date: fixed_date(n.date), ..n },
        ));
    }

    /// Whether the entry has any of the metadata fields.
    pub fn has_metadata(&self) -> (r: bool)
        ensures
            r == (self.frame is Some || self.animacy is Some || self.distribution is Some
                || self.subject is Some),
    {
        self.frame.is_some() || self.animacy.is_some() || self.distribution.is_some()
            || self.subject.is_some()
    }

    /// Drops the metadata of entries whose body has no slot (`▯`) to describe;
    /// returns whether a remaining field holds the placeholder `undefined`,
    /// which the caller reports.
    pub fn fixup_metadata(&mut self) -> (r: bool)
        ensures
            has_infix(old(self).body@, "▯"@) ==> final(self)@ == old(self)@,
            !has_infix(old(self).body@, "▯"@) ==> final(self)@ == (ToaView {
                frame: None,
                animacy: None,
                distribution: None,
                subject: None,
                ..old(self)@
            }),
            r == (is_undefined(final(self)@.frame) || is_undefined(final(self)@.animacy)
                || is_undefined(final(self)@.distribution) || is_undefined(final(self)@.subject)),
    {
        let body = chars_of(&self.body);
        if !contains_str(&body, "▯") {
            self.frame = None;
            self.animacy = None;
            self.distribution = None;
            self.subject = None;
        }
        undefined_in(&self.frame) || undefined_in(&self.animacy) || undefined_in(
            &self.distribution,
        ) || undefined_in(&self.subject)
    }
}

} // verus!
