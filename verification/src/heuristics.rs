//! Rule-of-thumb guesses of a frame and a distribution from the wording of
//! a definition, against which the learned guesses are compared.

use crate::data::join_spaced;
use crate::guess_metadata::{digits_value, leading_digits, valid_frame_spec, valid_last_slot};
use crate::patterns::{str_regex_is_match, text_regex_is_match};
use crate::text::{
    chars_of, contains_str, ends_with_str, has_infix, has_prefix, has_suffix, lowercase,
    push_chars, push_str, starts_with_str, string_of, suffix_from, prefix_of, to_lowercase,
    trim_start, trimmed_start, is_whitespace_spec, words, words_from,
};
use crate::toadua::{Toa, ToaView};
use vstd::prelude::*;

verus! {

/// A clause that ends in "the case" within its first five words.
pub const RE_THE_CASE: &'static str = r"^(\S+\s+){0,4}the case\b";

/// A clause that starts with "is true" or "is false".
pub const RE_IS_TRUE_FALSE: &'static str = r"^(is true|is false)\b";

/// A text that ends in "that", "whether" or "if".
pub const RE_THAT_WHETHER_IF: &'static str = r"\b(that|whether|if)\s*$";

/// A text that ends in a word of properties or of doing.
pub const RE_PROPERTY: &'static str = r"\b(property|satisf\w+|to do|doing)\s*$";

/// A text that speaks of making something do something.
pub const RE_MAKING_IT_THEM: &'static str = "making (it|them)";

/// A text that ends in a word of relations.
pub const RE_RELATION: &'static str = r"\brelation\w*\s*$";

/// A clause that speaks of something happening within its first three words.
pub const RE_HAPPENS: &'static str = r"^(\S+\s+){0,2}happen(s|ing)?\b";

/// A text that ends in "affairs".
pub const RE_AFFAIRS: &'static str = r"\baffairs\s*$";

/// Whether the regular expression `pattern` matches in `text`.
pub open spec fn found(pattern: Seq<char>, text: Seq<char>) -> bool {
    text_regex_is_match(pattern, text) == Some(true)
}

fn matches(pattern: &str, text: &str) -> (r: bool)
    ensures
        r == found(pattern@, text@),
{
    match str_regex_is_match(pattern, text) {
        Some(b) => b,
        None => false,
    }
}

/// The number of bytes that UTF-8 takes for `c`.
pub open spec fn utf8_width(c: char) -> int {
    if (c as u32) < 0x80 {
        1
    } else if (c as u32) < 0x800 {
        2
    } else if (c as u32) < 0x10000 {
        3
    } else {
        4
    }
}

/// Whether the first `b` bytes of the UTF-8 form of `s` end on a character
/// boundary.
pub open spec fn ends_on_char(s: Seq<char>, b: int) -> bool
    decreases s.len(),
{
    if b == 0 {
        true
    } else if b < 0 || s.len() == 0 {
        false
    } else {
        ends_on_char(s.drop_first(), b - utf8_width(s[0]))
    }
}

/// The characters of `s` after its first `b` bytes of UTF-8.
pub open spec fn after_bytes(s: Seq<char>, b: int) -> Seq<char>
    decreases s.len(),
{
    if b <= 0 || s.len() == 0 {
        s
    } else {
        after_bytes(s.drop_first(), b - utf8_width(s[0]))
    }
}

/// The position of the last slot `▯` among the first `k` characters.
pub open spec fn last_slot_upto(s: Seq<char>, k: int) -> Option<int>
    decreases k,
{
    if k <= 0 {
        None
    } else if s[k - 1] == '▯' {
        Some(k - 1)
    } else {
        last_slot_upto(s, k - 1)
    }
}

/// The position of the last slot `▯` of `s`.
pub open spec fn last_slot(s: Seq<char>) -> Option<int> {
    last_slot_upto(s, s.len() as int)
}

/// The text before the last slot; empty when there is none.
pub open spec fn before_last_slot(body: Seq<char>) -> Seq<char> {
    match last_slot(body) {
        Some(p) => body.subrange(0, p),
        None => Seq::empty(),
    }
}

/// The text after the last slot, without leading white space; when there
/// is no slot, the text after the first three bytes.
pub open spec fn after_last_slot(body: Seq<char>) -> Seq<char> {
    match last_slot(body) {
        Some(p) => trim_start(body.subrange(p + 1, body.len() as int)),
        None => trim_start(after_bytes(body, 3)),
    }
}

/// Whether the frame heuristic can read `body`: it has a slot, or its first
/// three bytes end on a character boundary.
pub open spec fn frame_readable(body: Seq<char>) -> bool {
    last_slot(body) is Some || ends_on_char(body, 3)
}

/// Whether a definition words its last slot as a manipulation.
pub open spec fn manipulative(lower: Seq<char>) -> bool {
    found(RE_MAKING_IT_THEM@, lower) || has_infix(lower, "gets"@) || has_infix(lower, "into"@)
        || has_infix(lower, "to do"@)
}

/// The label of the last slot of a frame with `n` slots, given what the
/// wording around that slot was found to say: a statement, a property
/// (worded as a manipulation or not), or a relation.
pub open spec fn label_rule(statement: bool, property: bool, manipulation: bool, relation: bool, n: int) -> Seq<char> {
    if statement {
        "0"@
    } else if property {
        if n > 2 {
            if manipulation {
                "1j"@
            } else {
                "1i"@
            }
        } else if n == 2 {
            "1i"@
        } else {
            "1x"@
        }
    } else if relation {
        if n > 2 {
            "2ij"@
        } else if n == 2 {
            "2ix"@
        } else {
            "2xx"@
        }
    } else {
        "c"@
    }
}

/// Whether the wording around the last slot makes it a statement.
pub open spec fn states(before: Seq<char>, after: Seq<char>) -> bool {
    found(RE_THE_CASE@, after) || found(RE_IS_TRUE_FALSE@, after) || found(RE_HAPPENS@, after)
        || found(RE_THAT_WHETHER_IF@, before) || found(RE_AFFAIRS@, before)
}

/// The guessed label of the last slot of a frame with `n` slots.
pub open spec fn last_label(body: Seq<char>, n: int) -> Seq<char> {
    let before = before_last_slot(body);
    let after = after_last_slot(body);
    label_rule(
        states(before, after),
        found(RE_PROPERTY@, before),
        manipulative(lowercase(body)),
        found(RE_RELATION@, before),
        n,
    )
}

/// The label of the last slot of a frame with `n` slots, from the findings
/// of the patterns on the wording around it; `manipulation` is read only
/// for a property with more than two slots.
pub fn label_from_findings(statement: bool, property: bool, manipulation: bool, relation: bool, n: usize) -> (r: &'static str)
    ensures
        r@ == label_rule(statement, property, manipulation, relation, n as int),
{
    proof {
        reveal_strlit("0");
        reveal_strlit("1j");
        reveal_strlit("1i");
        reveal_strlit("1x");
        reveal_strlit("2ij");
        reveal_strlit("2ix");
        reveal_strlit("2xx");
        reveal_strlit("c");
    }
    if statement {
        "0"
    } else if property {
        if n > 2 {
            if manipulation {
                "1j"
            } else {
                "1i"
            }
        } else if n == 2 {
            "1i"
        } else {
            "1x"
        }
    } else if relation {
        if n > 2 {
            "2ij"
        } else if n == 2 {
            "2ix"
        } else {
            "2xx"
        }
    } else {
        "c"
    }
}

/// The guessed frame: `c` for every slot but the last, then the guessed
/// label of the last one, separated by spaces; empty for no slots.
pub open spec fn frame_guess(body: Seq<char>, n: int) -> Seq<char> {
    let last = last_label(body, n);
    join_spaced(Seq::new(n as nat, |i: int| if i < n - 1 { "c"@ } else { last }), n)
}

fn find_last_slot(cs: &Vec<char>) -> (r: Option<usize>)
    ensures
        r is Some == last_slot(cs@) is Some,
        r is Some ==> r->0 as int == last_slot(cs@)->0 && r->0 < cs.len(),
{
    let mut k: usize = cs.len();
    while k > 0
        invariant
            k <= cs@.len(),
            last_slot(cs@) == last_slot_upto(cs@, k as int),
        decreases k,
    {
        if cs[k - 1] == '▯' {
            return Some(k - 1);
        }
        k = k - 1;
    }
    None
}

fn char_width(c: char) -> (r: usize)
    ensures
        r as int == utf8_width(c),
{
    if (c as u32) < 0x80 {
        1
    } else if (c as u32) < 0x800 {
        2
    } else if (c as u32) < 0x10000 {
        3
    } else {
        4
    }
}

fn skip_bytes(cs: &Vec<char>, bytes: usize) -> (r: Vec<char>)
    requires
        ends_on_char(cs@, bytes as int),
    ensures
        r@ == after_bytes(cs@, bytes as int),
{
    let mut i: usize = 0;
    let mut left: usize = bytes;
    assert(cs@.subrange(0, cs@.len() as int) =~= cs@);
    while left > 0
        invariant
            i <= cs.len(),
            ends_on_char(cs@.subrange(i as int, cs@.len() as int), left as int),
            after_bytes(cs@.subrange(i as int, cs@.len() as int), left as int) == after_bytes(
                cs@,
                bytes as int,
            ),
        decreases left,
    {
        let ghost rest = cs@.subrange(i as int, cs@.len() as int);
        assert(rest.drop_first() =~= cs@.subrange(i + 1, cs@.len() as int));
        assert(rest.len() > 0 && left >= utf8_width(rest[0])) by {
            reveal_with_fuel(ends_on_char, 2);
        }
        let w = char_width(cs[i]);
        left = left - w;
        i = i + 1;
    }
    suffix_from(cs.as_slice(), i)
}

fn label_of(body: &str, cs: &Vec<char>, n: usize) -> (r: &'static str)
    requires
        cs@ == body@,
        frame_readable(body@),
    ensures
        r@ == last_label(body@, n as int),
{
    let (before, after_raw) = match find_last_slot(cs) {
        Some(p) => (prefix_of(cs.as_slice(), p), suffix_from(cs.as_slice(), p + 1)),
        None => (Vec::new(), skip_bytes(cs, 3)),
    };
    let after_chars = trimmed_start(after_raw.as_slice());
    let before_text = string_of(before.as_slice());
    let after_text = string_of(after_chars.as_slice());
    assert(before_text@ == before_last_slot(body@));
    assert(after_text@ == after_last_slot(body@));
    let b = before_text.as_str();
    let a = after_text.as_str();
    let statement = matches(RE_THE_CASE, a) || matches(RE_IS_TRUE_FALSE, a) || matches(RE_HAPPENS, a)
        || matches(RE_THAT_WHETHER_IF, b) || matches(RE_AFFAIRS, b);
    let property = !statement && matches(RE_PROPERTY, b);
    let manipulation = if property && n > 2 {
        let lower_chars = to_lowercase(body);
        let lower = string_of(lower_chars.as_slice());
        matches(RE_MAKING_IT_THEM, lower.as_str()) || contains_str(lower_chars.as_slice(), "gets")
            || contains_str(lower_chars.as_slice(), "into") || contains_str(
            lower_chars.as_slice(),
            "to do",
        )
    } else {
        false
    };
    let relation = !statement && !property && matches(RE_RELATION, b);
    label_from_findings(statement, property, manipulation, relation, n)
}

/// Joins `n` labels with spaces: `first` for all but the last, `last` for
/// the last.
fn join_labels(n: usize, first: &str, last: &str) -> (r: String)
    ensures
        r@ == join_spaced(
            Seq::new(n as nat, |i: int| if i < n - 1 { first@ } else { last@ }),
            n as int,
        ),
{
    let ghost labels = Seq::new(n as nat, |i: int| if i < n - 1 { first@ } else { last@ });
    let mut out: Vec<char> = Vec::new();
    let mut k: usize = 0;
    while k < n
        invariant
            k <= n,
            labels == Seq::new(n as nat, |i: int| if i < n - 1 { first@ } else { last@ }),
            out@ == join_spaced(labels, k as int),
        decreases n - k,
    {
        if k > 0 {
            out.push(' ');
        }
        if k + 1 < n {
            push_str(&mut out, first);
        } else {
            push_str(&mut out, last);
        }
        k = k + 1;
    }
    string_of(out.as_slice())
}

/// A rule-of-thumb frame for a definition with `n` slots: every slot but the
/// last is `c`; the last is guessed from the words around the last slot
/// (`0` for a statement, `1i`/`1j`/`1x` for a property, `2ij`/`2ix`/`2xx`
/// for a relation, `c` otherwise).
pub fn guess_frame_heuristic(body: &str, n: usize) -> (r: String)
    requires
        n == 0 || frame_readable(body@),
    ensures
        r@ == frame_guess(body@, n as int),
{
    if n == 0 {
        let ghost empty = Seq::new(0, |i: int| "c"@);
        assert(join_spaced(empty, 0) =~= Seq::<char>::empty());
        return String::new();
    }
    let cs = chars_of(body);
    let last = label_of(body, &cs, n);
    let r = join_labels(n, "c", last);
    assert(Seq::new(n as nat, |i: int| if i < n - 1 { "c"@ } else { last@ }) =~= Seq::new(
        n as nat,
        |i: int| if i < n - 1 { "c"@ } else { last_label(body@, n as int) },
    ));
    r
}

/// The number of slots of a definition that the heuristic takes for
/// collective (`n`): two for "▯ and ▯ …", one for wording of mutuality or a
/// head ending in "gua", none otherwise.
pub open spec fn collective_count(t: ToaView) -> int {
    let b = lowercase(t.body);
    if has_prefix(b, "▯ and ▯"@) {
        2
    } else if has_infix(b, "each other"@) || has_infix(b, "mutual"@) || has_infix(
        b,
        "collectively"@,
    ) || has_infix(b, "reciprocal"@) || has_infix(b, "both sides"@) || has_suffix(t.head, "gua"@) {
        1
    } else {
        0
    }
}

/// The guessed distribution: `n` for the collective slots, `d` for the
/// rest, separated by spaces.
pub open spec fn distribution_guess(t: ToaView, n: int) -> Seq<char> {
    let c = collective_count(t);
    join_spaced(Seq::new(n as nat, |i: int| if i < c { "n"@ } else { "d"@ }), n)
}

/// `m` more slots labelled `d`, each after a space.
pub open spec fn distributive_tail(m: nat) -> Seq<char>
    decreases m,
{
    if m == 0 {
        Seq::empty()
    } else {
        distributive_tail((m - 1) as nat) + " d"@
    }
}

proof fn lemma_labels_joined(ps: Seq<Seq<char>>, c: int, k: int)
    requires
        1 <= c <= 2,
        c <= k <= ps.len(),
        forall|i: int| 0 <= i < ps.len() ==> #[trigger] ps[i] == (if i < c { "n"@ } else { "d"@ }),
    ensures
        join_spaced(ps, k) == (if c == 1 { "n"@ } else { "n n"@ }) + distributive_tail((k - c) as nat),
    decreases k,
{
    reveal_strlit("n");
    reveal_strlit("d");
    reveal_strlit("n n");
    reveal_strlit(" d");
    if k == c {
        if c == 2 {
            assert(ps[0] == "n"@ && ps[1] == "n"@);
            assert(join_spaced(ps, 1) == ps[0]);
            assert(join_spaced(ps, 2) == join_spaced(ps, 1) + seq![' '] + ps[1]);
            assert(join_spaced(ps, 2) =~= "n n"@);
        } else {
            assert(ps[0] == "n"@);
        }
        assert(distributive_tail(0) =~= Seq::<char>::empty());
        assert(join_spaced(ps, k) =~= (if c == 1 { "n"@ } else { "n n"@ }) + distributive_tail(0));
    } else {
        lemma_labels_joined(ps, c, k - 1);
        assert(ps[k - 1] == "d"@);
        let head = if c == 1 { "n"@ } else { "n n"@ };
        assert(join_spaced(ps, k) =~= head + distributive_tail((k - 1 - c) as nat) + " d"@);
        assert(distributive_tail((k - c) as nat) == distributive_tail((k - 1 - c) as nat) + " d"@);
    }
}

/// A definition that speaks of something mutual, reciprocal, collective,
/// of each other or of both sides (or a head ending in `gua`), and does not
/// start with "▯ and ▯", gets a distribution whose first slot is collective
/// and every other slot distributive: `n d d …`.
pub proof fn law_mutual_first_slot_collective(t: ToaView, n: int)
    requires
        n >= 1,
        has_infix(lowercase(t.body), "mutual"@) || has_infix(lowercase(t.body), "each other"@)
            || has_infix(lowercase(t.body), "collectively"@) || has_infix(lowercase(t.body), "reciprocal"@)
            || has_infix(lowercase(t.body), "both sides"@) || has_suffix(t.head, "gua"@),
        !has_prefix(lowercase(t.body), "▯ and ▯"@),
    ensures
        distribution_guess(t, n) == "n"@ + distributive_tail((n - 1) as nat),
{
    let c = collective_count(t);
    assert(c == 1);
    let ps = Seq::new(n as nat, |i: int| if i < c { "n"@ } else { "d"@ });
    lemma_labels_joined(ps, 1, n);
}

/// A definition that starts with "▯ and ▯" gets a distribution whose first
/// two slots are collective and every other slot distributive: `n n d …`.
pub proof fn law_pair_first_slots_collective(t: ToaView, n: int)
    requires
        n >= 2,
        has_prefix(lowercase(t.body), "▯ and ▯"@),
    ensures
        distribution_guess(t, n) == "n n"@ + distributive_tail((n - 2) as nat),
{
    let ps = Seq::new(n as nat, |i: int| if i < collective_count(t) { "n"@ } else { "d"@ });
    lemma_labels_joined(ps, 2, n);
}

proof fn lemma_all_distributive(ps: Seq<Seq<char>>, k: int)
    requires
        1 <= k <= ps.len(),
        forall|i: int| 0 <= i < ps.len() ==> #[trigger] ps[i] == "d"@,
    ensures
        join_spaced(ps, k) == "d"@ + distributive_tail((k - 1) as nat),
    decreases k,
{
    reveal_strlit(" d");
    if k == 1 {
        assert(join_spaced(ps, 1) =~= "d"@ + distributive_tail(0));
    } else {
        lemma_all_distributive(ps, k - 1);
        assert(ps[k - 1] == "d"@);
        reveal_strlit("d");
        assert(join_spaced(ps, k) =~= "d"@ + distributive_tail((k - 2) as nat) + " d"@);
    }
}

/// A definition that neither starts with "▯ and ▯" nor speaks of anything
/// mutual, reciprocal, collective, of each other or of both sides, under a
/// head that does not end in `gua`, gets every slot distributive: `d d …`.
pub proof fn law_otherwise_all_distributive(t: ToaView, n: int)
    requires
        n >= 1,
        !has_infix(lowercase(t.body), "mutual"@),
        !has_infix(lowercase(t.body), "each other"@),
        !has_infix(lowercase(t.body), "collectively"@),
        !has_infix(lowercase(t.body), "reciprocal"@),
        !has_infix(lowercase(t.body), "both sides"@),
        !has_suffix(t.head, "gua"@),
        !has_prefix(lowercase(t.body), "▯ and ▯"@),
    ensures
        distribution_guess(t, n) == "d"@ + distributive_tail((n - 1) as nat),
{
    let ps = Seq::new(n as nat, |i: int| if i < collective_count(t) { "n"@ } else { "d"@ });
    lemma_all_distributive(ps, n);
}

/// A rule-of-thumb distribution for an entry with `n` slots.
pub fn guess_distribution_heuristic(entry: &Toa, n: usize) -> (r: String)
    ensures
        r@ == distribution_guess(entry@, n as int),
{
    let b = to_lowercase(entry.body.as_str());
    let head = chars_of(entry.head.as_str());
    let collective: usize = if starts_with_str(b.as_slice(), "▯ and ▯") {
        2
    } else if contains_str(b.as_slice(), "each other") || contains_str(b.as_slice(), "mutual")
        || contains_str(b.as_slice(), "collectively") || contains_str(b.as_slice(), "reciprocal")
        || contains_str(b.as_slice(), "both sides") || ends_with_str(head.as_slice(), "gua") {
        1
    } else {
        0
    };
    let ghost labels = Seq::new(n as nat, |i: int| if i < collective { "n"@ } else { "d"@ });
    let mut out: Vec<char> = Vec::new();
    let mut k: usize = 0;
    while k < n
        invariant
            k <= n,
            labels == Seq::new(n as nat, |i: int| if i < collective { "n"@ } else { "d"@ }),
            out@ == join_spaced(labels, k as int),
        decreases n - k,
    {
        if k > 0 {
            out.push(' ');
        }
        if k < collective {
            push_str(&mut out, "n");
        } else {
            push_str(&mut out, "d");
        }
        k = k + 1;
    }
    assert(collective as int == collective_count(entry@));
    string_of(out.as_slice())
}

/// Whether a text is a non-empty word without white space.
pub open spec fn solid(w: Seq<char>) -> bool {
    w.len() > 0 && forall|j: int| 0 <= j < w.len() ==> !is_whitespace_spec(#[trigger] w[j])
}

proof fn lemma_words_of_solid(s: Seq<char>, i: int, cur: Seq<char>)
    requires
        0 <= i <= s.len(),
        forall|j: int| i <= j < s.len() ==> !is_whitespace_spec(#[trigger] s[j]),
    ensures
        words_from(s, i, cur) == if cur.len() + s.len() - i > 0 {
            seq![cur + s.subrange(i, s.len() as int)]
        } else {
            Seq::<Seq<char>>::empty()
        },
    decreases s.len() - i,
{
    if i < s.len() {
        lemma_words_of_solid(s, i + 1, cur.push(s[i]));
        assert(cur.push(s[i]) + s.subrange(i + 1, s.len() as int) =~= cur + s.subrange(
            i,
            s.len() as int,
        ));
    } else {
        assert(cur + s.subrange(i, s.len() as int) =~= cur);
    }
}

proof fn lemma_words_append(x: Seq<char>, w: Seq<char>, i: int, cur: Seq<char>)
    requires
        0 <= i <= x.len(),
        solid(w),
    ensures
        words_from(x + seq![' '] + w, i, cur) == words_from(x, i, cur) + seq![w],
    decreases x.len() - i,
{
    let s = x + seq![' '] + w;
    if i < x.len() {
        assert(s[i] == x[i]);
        lemma_words_append(x, w, i + 1, Seq::empty());
        lemma_words_append(x, w, i + 1, cur.push(x[i]));
        if is_whitespace_spec(x[i]) {
            assert((if cur.len() > 0 {
                seq![cur]
            } else {
                Seq::<Seq<char>>::empty()
            }) + (words_from(x, i + 1, Seq::empty()) + seq![w]) =~= ((if cur.len() > 0 {
                seq![cur]
            } else {
                Seq::<Seq<char>>::empty()
            }) + words_from(x, i + 1, Seq::empty())) + seq![w]);
        }
    } else {
        assert(s[i] == ' ');
        lemma_words_of_solid(s, i + 1, Seq::empty());
        assert(Seq::<char>::empty() + s.subrange(i + 1, s.len() as int) =~= w);
    }
}

proof fn lemma_words_of_join(ps: Seq<Seq<char>>, k: int)
    requires
        1 <= k <= ps.len(),
        forall|j: int| 0 <= j < k ==> solid(#[trigger] ps[j]),
    ensures
        words(join_spaced(ps, k)) == ps.take(k),
    decreases k,
{
    if k == 1 {
        assert(solid(ps[0]));
        lemma_words_of_solid(ps[0], 0, Seq::empty());
        assert(Seq::<char>::empty() + ps[0].subrange(0, ps[0].len() as int) =~= ps[0]);
        assert(ps.take(1) =~= seq![ps[0]]);
    } else {
        lemma_words_of_join(ps, k - 1);
        assert(solid(ps[k - 1]));
        lemma_words_append(join_spaced(ps, k - 1), ps[k - 1], 0, Seq::empty());
        assert(ps.take(k) =~= ps.take(k - 1) + seq![ps[k - 1]]);
    }
}

proof fn lemma_labels_solid()
    ensures
        solid("c"@),
        solid("0"@),
        solid("1i"@),
        solid("1j"@),
        solid("1x"@),
        solid("2ij"@),
        solid("2ix"@),
        solid("2xx"@),
{
    reveal_strlit("c");
    reveal_strlit("0");
    reveal_strlit("1i");
    reveal_strlit("1j");
    reveal_strlit("1x");
    reveal_strlit("2ij");
    reveal_strlit("2ix");
    reveal_strlit("2xx");
}

proof fn lemma_label_valid(label: Seq<char>, n: int)
    requires
        1 <= n <= 4,
        label == "c"@ || label == "0"@ || (label == "1i"@ && n >= 2) || (label == "1j"@ && n
            >= 3) || label == "1x"@ || (label == "2ij"@ && n >= 3) || (label == "2ix"@ && n >= 2)
            || label == "2xx"@,
    ensures
        valid_last_slot(label, n),
{
    reveal_strlit("c");
    reveal_strlit("0");
    reveal_strlit("1i");
    reveal_strlit("1j");
    reveal_strlit("1x");
    reveal_strlit("2ij");
    reveal_strlit("2ix");
    reveal_strlit("2xx");
    if label != "c"@ {
        reveal_with_fuel(leading_digits, 3);
        reveal_with_fuel(digits_value, 2);
        let dc = leading_digits(label);
        assert(dc == 1);
        assert(label.take(1) =~= seq![label[0]]);
        assert(label.take(1).drop_last() =~= Seq::<char>::empty());
        let suffix = label.skip(1);
        assert(forall|i: int| 0 <= i < suffix.len() ==> #[trigger] suffix[i] == label[i + 1]);
    }
}

/// The rule-of-thumb frame for a definition with one to four slots is
/// always a well-formed frame for that many slots.
pub proof fn law_frame_guess_is_valid(body: Seq<char>, n: int)
    requires
        1 <= n <= 4,
    ensures
        valid_frame_spec(frame_guess(body, n), n),
{
    let last = last_label(body, n);
    let labels = Seq::new(n as nat, |i: int| if i < n - 1 { "c"@ } else { last });
    lemma_labels_solid();
    assert forall|j: int| 0 <= j < n implies solid(#[trigger] labels[j]) by {}
    lemma_words_of_join(labels, n);
    assert(labels.take(n) =~= labels);
    lemma_label_valid(last, n);
}

} // verus!
