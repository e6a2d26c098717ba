//! The vocabulary of metadata guessing: the feature flags, the metadata
//! fields and their valid values, frame labels, the arity of a definition
//! and a stable hash of text.

use crate::text::{
    chars_eq, chars_of, contains_char, has_prefix, has_suffix, is_whitespace, is_whitespace_spec,
    prefix_of, push_chars, split_by, split_on, split_words, starts_with_str, str_eq, string_of,
    suffix_from, trim, trimmed, words,
};
use crate::toadua::{opt_view, Toa, ToaView};
use vstd::prelude::*;
use vstd::utf8::encode_utf8;

verus! {

/// Which groups of features to extract.
#[derive(Clone, Copy, Debug)]
pub struct FeatureFlags {
    pub boundary_indexed: bool,
    pub boundary_anydist: bool,
    pub boundary_bigram: bool,
    pub char_ngrams: bool,
    pub raku_last2: bool,
}

/// Every feature group switched on.
pub open spec fn all_features() -> FeatureFlags {
    FeatureFlags {
        boundary_indexed: true,
        boundary_anydist: true,
        boundary_bigram: true,
        char_ngrams: true,
        raku_last2: true,
    }
}

impl Default for FeatureFlags {
    // matches what's currently shipped: everything on
    fn default() -> (r: Self)
        ensures
            r == all_features(),
    {
        FeatureFlags {
            boundary_indexed: true,
            boundary_anydist: true,
            boundary_bigram: true,
            char_ngrams: true,
            raku_last2: true,
        }
    }
}

/// The non-empty, trimmed, comma-separated tokens of a flag specification.
pub open spec fn flag_tokens(spec: Seq<char>) -> Seq<Seq<char>> {
    split_by(spec, ","@).map_values(|t: Seq<char>| trim(t)).filter(|t: Seq<char>| t.len() > 0)
}

/// A token's flag name and whether it switches the flag on (`no-` switches
/// it off).
pub open spec fn token_switch(tok: Seq<char>) -> (Seq<char>, bool) {
    if has_prefix(tok, "no-"@) {
        (tok.subrange("no-"@.len() as int, tok.len() as int), false)
    } else {
        (tok, true)
    }
}

/// `f` with the switch of one token applied, and whether the token names a
/// known flag.
pub open spec fn apply_token(f: FeatureFlags, tok: Seq<char>) -> (FeatureFlags, bool) {
    let (name, enable) = token_switch(tok);
    if name == "boundary"@ {
        (
            FeatureFlags {
                boundary_indexed: enable,
                boundary_anydist: enable,
                boundary_bigram: enable,
                ..f
            },
            true,
        )
    } else if name == "anydist"@ {
        (FeatureFlags { boundary_anydist: enable, ..f }, true)
    } else if name == "indexed"@ {
        (FeatureFlags { boundary_indexed: enable, ..f }, true)
    } else if name == "bigram"@ {
        (FeatureFlags { boundary_bigram: enable, ..f }, true)
    } else if name == "char-ngrams"@ {
        (FeatureFlags { char_ngrams: enable, ..f }, true)
    } else if name == "raku-last2"@ {
        (FeatureFlags { raku_last2: enable, ..f }, true)
    } else {
        (f, false)
    }
}

/// The flags after the first `k` tokens, starting from all features on,
/// and the names of the unknown flags met.
pub open spec fn parse_upto(ts: Seq<Seq<char>>, k: int) -> (FeatureFlags, Seq<Seq<char>>)
    decreases k,
{
    if k <= 0 {
        (all_features(), Seq::empty())
    } else {
        let (f, unknown) = parse_upto(ts, k - 1);
        let (g, known) = apply_token(f, ts[k - 1]);
        (
            g,
            if known {
                unknown
            } else {
                unknown.push(token_switch(ts[k - 1]).0)
            },
        )
    }
}

proof fn lemma_parse_prefix(a: Seq<Seq<char>>, b: Seq<Seq<char>>, n: int)
    requires
        0 <= n <= a.len(),
        n <= b.len(),
        a.take(n) == b.take(n),
    ensures
        parse_upto(a, n) == parse_upto(b, n),
    decreases n,
{
    if n > 0 {
        assert(a.take(n - 1) =~= a.take(n).take(n - 1));
        assert(b.take(n - 1) =~= b.take(n).take(n - 1));
        lemma_parse_prefix(a, b, n - 1);
        assert(a[n - 1] == a.take(n)[n - 1]);
        assert(b[n - 1] == b.take(n)[n - 1]);
    }
}

impl FeatureFlags {
    /// Reads a comma-separated list of feature groups to switch on, or off
    /// with a `no-` prefix, over the default of everything on; also returns
    /// the names that are not feature groups, for the caller to warn about.
    pub fn parse(spec: &str) -> (r: (FeatureFlags, Vec<String>))
        ensures
            r.0 == parse_upto(flag_tokens(spec@), flag_tokens(spec@).len() as int).0,
            r.1@.map_values(|s: String| s@) == parse_upto(
                flag_tokens(spec@),
                flag_tokens(spec@).len() as int,
            ).1,
    {
        let chars = chars_of(spec);
        let seps = chars_of(",");
        let pieces = split_on(&chars, &seps);
        let ghost pv = pieces@.map_values(|w: Vec<char>| w@);
        let ghost tv = pv.map_values(|t: Seq<char>| trim(t));
        let ghost nonempty = |t: Seq<char>| t.len() > 0;
        let mut flags = FeatureFlags::default();
        let mut unknown: Vec<String> = Vec::new();
        let mut i: usize = 0;
        while i < pieces.len()
            invariant
                i <= pieces@.len(),
                pv == pieces@.map_values(|w: Vec<char>| w@),
                pv == split_by(spec@, ","@),
                tv == pv.map_values(|t: Seq<char>| trim(t)),
                nonempty == (|t: Seq<char>| t.len() > 0),
                flags == parse_upto(
                    tv.take(i as int).filter(nonempty),
                    tv.take(i as int).filter(nonempty).len() as int,
                ).0,
                unknown@.map_values(|s: String| s@) == parse_upto(
                    tv.take(i as int).filter(nonempty),
                    tv.take(i as int).filter(nonempty).len() as int,
                ).1,
            decreases pieces.len() - i,
        {
            let tok = trimmed(pieces[i].as_slice());
            assert(tok@ == tv[i as int]);
            let ghost cur = tv.take(i as int).filter(nonempty);
            proof {
                reveal_with_fuel(Seq::filter, 1);
                assert(tv.take(i + 1).drop_last() =~= tv.take(i as int));
            }
            if tok.len() > 0 {
                let ghost next = cur.push(tok@);
                proof {
                    assert(tv.take(i + 1).filter(nonempty) == next);
                    assert(next.take(cur.len() as int) =~= cur.take(cur.len() as int));
                    lemma_parse_prefix(next, cur, cur.len() as int);
                    assert(next[cur.len() as int] == tok@);
                }
                let (name, enable) = if starts_with_str(&tok, "no-") {
                    let no = chars_of("no-");
                    (suffix_from(&tok, no.len()), false)
                } else {
                    (tok, true)
                };
                let name_text = string_of(&name);
                let n = name_text.as_str();
                let known = if str_eq(n, "boundary") {
                    flags.boundary_indexed = enable;
                    flags.boundary_anydist = enable;
                    flags.boundary_bigram = enable;
                    true
                } else if str_eq(n, "anydist") {
                    flags.boundary_anydist = enable;
                    true
                } else if str_eq(n, "indexed") {
                    flags.boundary_indexed = enable;
                    true
                } else if str_eq(n, "bigram") {
                    flags.boundary_bigram = enable;
                    true
                } else if str_eq(n, "char-ngrams") {
                    flags.char_ngrams = enable;
                    true
                } else if str_eq(n, "raku-last2") {
                    flags.raku_last2 = enable;
                    true
                } else {
                    false
                };
                if !known {
                    let ghost before = unknown@.map_values(|s: String| s@);
                    unknown.push(name_text);
                    assert(unknown@.map_values(|s: String| s@) =~= before.push(name@));
                }
            }
            i = i + 1;
        }
        assert(tv.take(pieces@.len() as int) =~= tv);
        assert(flag_tokens(spec@) == tv.filter(nonempty));
        (flags, unknown)
    }
}

/// The metadata fields that are guessed.
#[derive(Clone, Copy, Debug, Eq, PartialEq, Hash, Structural)]
pub enum Field {
    Frame,
    Distribution,
    Pronoun,
    Subject,
}

/// The name of a field.
pub open spec fn field_name(f: Field) -> Seq<char> {
    match f {
        Field::Frame => "frame"@,
        Field::Distribution => "distribution"@,
        Field::Pronoun => "pronoun"@,
        Field::Subject => "subject"@,
    }
}

/// The value an entry has for a field (the pronoun is the entry's
/// animacy).
pub open spec fn field_value(t: ToaView, f: Field) -> Option<Seq<char>> {
    match f {
        Field::Frame => t.frame,
        Field::Distribution => t.distribution,
        Field::Pronoun => t.animacy,
        Field::Subject => t.subject,
    }
}

/// Whether a value is one the field may take: any non-empty frame or
/// distribution, one of the four pronouns, one of the six subject kinds.
pub open spec fn valid_value_spec(f: Field, v: Seq<char>) -> bool {
    match f {
        Field::Frame | Field::Distribution => v.len() > 0,
        Field::Pronoun => v == "hó"@ || v == "máq"@ || v == "hóq"@ || v == "tá"@,
        Field::Subject => v == "sA"@ || v == "sI"@ || v == "sE"@ || v == "sP"@ || v == "sS"@ || v
            == "sF"@,
    }
}

impl Field {
    /// The name of the field.
    pub fn name(self) -> (r: &'static str)
        ensures
            r@ == field_name(self),
    {
        match self {
            Field::Frame => "frame",
            Field::Distribution => "distribution",
            Field::Pronoun => "pronoun",
            Field::Subject => "subject",
        }
    }

    /// The entry's value for the field.
    pub fn get(self, toa: &Toa) -> (r: Option<&String>)
        ensures
            r is Some == field_value(toa@, self) is Some,
            r is Some ==> r->0@ == field_value(toa@, self)->0,
    {
        let v = match self {
            Field::Frame => &toa.frame,
            Field::Distribution => &toa.distribution,
            Field::Pronoun => &toa.animacy,
            Field::Subject => &toa.subject,
        };
        match v {
            Some(s) => Some(s),
            None => None,
        }
    }

    /// Whether `value` is one the field may take.
    pub fn valid_value(self, value: &str) -> (r: bool)
        ensures
            r == valid_value_spec(self, value@),
    {
        match self {
            Field::Frame | Field::Distribution => !value.is_empty(),
            Field::Pronoun => str_eq(value, "hó") || str_eq(value, "máq") || str_eq(value, "hóq")
                || str_eq(value, "tá"),
            Field::Subject => str_eq(value, "sA") || str_eq(value, "sI") || str_eq(value, "sE")
                || str_eq(value, "sP") || str_eq(value, "sS") || str_eq(value, "sF"),
        }
    }
}

/// Whether `c` is an ASCII digit.
pub open spec fn is_ascii_digit(c: char) -> bool {
    '0' <= c && c <= '9'
}

/// The number of ASCII digits that `s` starts with.
pub open spec fn leading_digits(s: Seq<char>) -> nat
    decreases s.len(),
{
    if s.len() > 0 && is_ascii_digit(s[0]) {
        1 + leading_digits(s.drop_first())
    } else {
        0
    }
}

/// The number that a string of ASCII digits spells.
pub open spec fn digits_value(s: Seq<char>) -> nat
    decreases s.len(),
{
    if s.len() == 0 {
        0
    } else {
        digits_value(s.drop_last()) * 10 + ((s.last() as u32) - ('0' as u32)) as nat
    }
}

/// Whether `c` may stand in the last slot label of a frame with `n` slots:
/// `x`, or one of the first `n - 1` of the letters `i`, `j`, `k`.
pub open spec fn frame_letter_allowed(c: char, n: int) -> bool {
    c == 'x' || (c == 'i' && n - 1 >= 1) || (c == 'j' && n - 1 >= 2) || (c == 'k' && n - 1 >= 3)
}

/// Whether `label` may stand in the last slot of a frame with `n` slots:
/// `c`, or a count `k` followed by exactly `k` letters, each `x` or naming an
/// earlier slot.
pub open spec fn valid_last_slot(label: Seq<char>, n: int) -> bool {
    if n == 0 {
        false
    } else if label == "c"@ {
        true
    } else if n - 1 > 3 {
        false
    } else {
        let dc = leading_digits(label);
        let k = digits_value(label.take(dc as int));
        let suffix = label.skip(dc as int);
        &&& dc > 0
        &&& k <= usize::MAX
        &&& suffix.len() == k
        &&& forall|i: int| 0 <= i < suffix.len() ==> frame_letter_allowed(#[trigger] suffix[i], n)
    }
}

/// Whether `value` is a frame for `n` slots: `n` white-space separated slot
/// labels, all `c` but the last, which is a valid last slot label.
pub open spec fn valid_frame_spec(value: Seq<char>, n: int) -> bool {
    let slots = words(value);
    &&& slots.len() == n
    &&& n != 0
    &&& forall|i: int| 0 <= i < n - 1 ==> #[trigger] slots[i] == "c"@
    &&& valid_last_slot(slots[n - 1], n)
}

/// Whether `label` may stand in the last slot of a frame with `n` slots.
pub fn valid_frame_last_slot(label: &str, n: usize) -> (r: bool)
    ensures
        r == valid_last_slot(label@, n as int),
{
    if n == 0 {
        return false;
    }
    if str_eq(label, "c") {
        return true;
    }
    if n - 1 > 3 {
        return false;
    }
    let cs = chars_of(label);
    let mut dc: usize = 0;
    let mut value: usize = 0;
    let mut overflow = false;
    assert(cs@.skip(0) =~= cs@);
    while dc < cs.len() && '0' <= cs[dc] && cs[dc] <= '9'
        invariant
            dc <= cs@.len(),
            leading_digits(cs@) == dc + leading_digits(cs@.skip(dc as int)),
            forall|i: int| 0 <= i < dc ==> is_ascii_digit(#[trigger] cs@[i]),
            !overflow ==> value as nat == digits_value(cs@.take(dc as int)),
            overflow ==> digits_value(cs@.take(dc as int)) > usize::MAX,
        decreases cs.len() - dc,
    {
        let d = (cs[dc] as u32 - '0' as u32) as usize;
        assert(cs@.take(dc + 1).drop_last() =~= cs@.take(dc as int));
        assert(cs@.skip(dc as int).drop_first() =~= cs@.skip(dc + 1));
        if !overflow {
            match value.checked_mul(10) {
                Some(v10) => match v10.checked_add(d) {
                    Some(v) => {
                        value = v;
                    },
                    None => {
                        overflow = true;
                    },
                },
                None => {
                    overflow = true;
                },
            }
        }
        proof {
            if overflow {
                assert(digits_value(cs@.take(dc + 1)) >= digits_value(cs@.take(dc as int)) * 10);
            }
        }
        dc = dc + 1;
    }
    assert(leading_digits(cs@.skip(dc as int)) == 0);
    if dc == 0 {
        return false;
    }
    if overflow {
        return false;
    }
    let suffix = suffix_from(&cs, dc);
    assert(suffix@ == cs@.skip(dc as int));
    if suffix.len() != value {
        return false;
    }
    let mut i: usize = 0;
    while i < suffix.len()
        invariant
            i <= suffix@.len(),
            1 <= n <= 4,
            suffix@ == label@.skip(dc as int),
            leading_digits(label@) == dc,
            dc > 0,
            label@ != "c"@,
            forall|j: int| 0 <= j < i ==> frame_letter_allowed(#[trigger] suffix@[j], n as int),
        decreases suffix.len() - i,
    {
        let c = suffix[i];
        let ok = c == 'x' || (c == 'i' && n - 1 >= 1) || (c == 'j' && n - 1 >= 2) || (c == 'k' && n
            - 1 >= 3);
        if !ok {
            assert(!frame_letter_allowed(suffix@[i as int], n as int));
            assert(suffix@[i as int] == label@.skip(dc as int)[i as int]);
            return false;
        }
        i = i + 1;
    }
    true
}

/// Whether `value` is a frame for `n` slots.
pub fn valid_frame_value(value: &str, n: usize) -> (r: bool)
    ensures
        r == valid_frame_spec(value@, n as int),
{
    let cs = chars_of(value);
    let slots = split_words(&cs);
    let ghost sv = slots@.map_values(|w: Vec<char>| w@);
    if slots.len() != n || n == 0 {
        return false;
    }
    let mut i: usize = 0;
    while i < n - 1
        invariant
            i <= n - 1,
            n == slots@.len(),
            sv == slots@.map_values(|w: Vec<char>| w@),
            sv == words(value@),
            forall|j: int| 0 <= j < i ==> #[trigger] sv[j] == "c"@,
        decreases n - 1 - i,
    {
        let slot = string_of(slots[i].as_slice());
        assert(slot@ == sv[i as int]);
        if !str_eq(slot.as_str(), "c") {
            return false;
        }
        i = i + 1;
    }
    let last = string_of(slots[n - 1].as_slice());
    assert(last@ == sv[n - 1]);
    valid_frame_last_slot(last.as_str(), n)
}

/// The last slot label of a frame.
pub fn frame_last_slot(value: &str) -> (r: Option<String>)
    ensures
        r is Some == (words(value@).len() > 0),
        r is Some ==> r->0@ == words(value@).last(),
{
    let cs = chars_of(value);
    let slots = split_words(&cs);
    let ghost sv = slots@.map_values(|w: Vec<char>| w@);
    if slots.len() == 0 {
        return None;
    }
    assert(sv[slots@.len() - 1] == slots@[slots@.len() - 1]@);
    Some(string_of(slots[slots.len() - 1].as_slice()))
}

/// The number of slots (`▯`) in a text.
pub open spec fn slot_count(s: Seq<char>) -> nat {
    s.filter(|c: char| c == '▯').len()
}

/// Among the first `k` clauses, the last of those with the most slots, and
/// its slot count; `(0, "")` when no clause has a slot.
pub open spec fn arity_upto(clauses: Seq<Seq<char>>, k: int) -> (nat, Seq<char>)
    decreases k,
{
    if k <= 0 {
        (0, Seq::empty())
    } else {
        let (a, best) = arity_upto(clauses, k - 1);
        let c = clauses[k - 1];
        if c.contains('▯') && slot_count(c) >= a {
            (slot_count(c), c)
        } else {
            (a, best)
        }
    }
}

/// The clause of a definition (split at `;` and `.`) with the most slots,
/// the last of them on a tie, and its number of slots.
pub open spec fn primary_arity_spec(body: Seq<char>) -> (nat, Seq<char>) {
    arity_upto(split_by(body, ";."@), split_by(body, ";."@).len() as int)
}

fn count_slots(c: &[char]) -> (r: usize)
    ensures
        r as nat == slot_count(c@),
{
    let ghost pred = |x: char| x == '▯';
    let mut n: usize = 0;
    let mut i: usize = 0;
    while i < c.len()
        invariant
            i <= c@.len(),
            n <= i,
            pred == (|x: char| x == '▯'),
            n as nat == c@.take(i as int).filter(pred).len(),
        decreases c.len() - i,
    {
        proof {
            reveal_with_fuel(Seq::filter, 1);
            assert(c@.take(i + 1).drop_last() =~= c@.take(i as int));
        }
        if c[i] == '▯' {
            n = n + 1;
        }
        i = i + 1;
    }
    assert(c@.take(c@.len() as int) =~= c@);
    n
}

/// The number of slots in the clause of `body` with the most of them, and
/// that clause.
pub fn primary_arity(body: &str) -> (r: (usize, String))
    ensures
        r.0 as nat == primary_arity_spec(body@).0,
        r.1@ == primary_arity_spec(body@).1,
{
    let cs = chars_of(body);
    let seps = chars_of(";.");
    let clauses = split_on(&cs, &seps);
    let ghost cv = clauses@.map_values(|w: Vec<char>| w@);
    let mut best: usize = 0;
    let mut best_clause: Vec<char> = Vec::new();
    let mut k: usize = 0;
    while k < clauses.len()
        invariant
            k <= clauses@.len(),
            cv == clauses@.map_values(|w: Vec<char>| w@),
            cv == split_by(body@, ";."@),
            best as nat == arity_upto(cv, k as int).0,
            best_clause@ == arity_upto(cv, k as int).1,
        decreases clauses.len() - k,
    {
        let c = &clauses[k];
        assert(cv[k as int] == c@);
        if contains_char(c.as_slice(), '▯') {
            let n = count_slots(c.as_slice());
            if n >= best {
                best = n;
                let mut copy: Vec<char> = Vec::new();
                push_chars(&mut copy, c.as_slice());
                assert(copy@ =~= c@);
                best_clause = copy;
            }
        }
        k = k + 1;
    }
    (best, string_of(&best_clause))
}

/// Whether the frame and distribution of an entry, where given, have as
/// many slots as its definition, and as each other.
pub open spec fn arity_consistent_spec(t: ToaView) -> bool {
    let body_arity = primary_arity_spec(t.body).0;
    &&& (t.frame matches Some(f) ==> words(f).len() == body_arity)
    &&& (t.distribution matches Some(d) ==> words(d).len() == body_arity)
}

/// Whether the frame and distribution of an entry agree with its definition.
pub fn arity_metadata_consistent(toa: &Toa) -> (r: bool)
    ensures
        r == arity_consistent_spec(toa@),
{
    let (body_arity, _) = primary_arity(toa.body.as_str());
    let frame_ok = match &toa.frame {
        Some(f) => {
            let cs = chars_of(f.as_str());
            split_words(&cs).len() == body_arity
        },
        None => true,
    };
    let distribution_ok = match &toa.distribution {
        Some(d) => {
            let cs = chars_of(d.as_str());
            split_words(&cs).len() == body_arity
        },
        None => true,
    };
    frame_ok && distribution_ok
}

/// The FNV-1a hash of the first `k` bytes.
pub open spec fn fnv1a(bytes: Seq<u8>, k: int) -> u64
    decreases k,
{
    if k <= 0 {
        0xcbf2_9ce4_8422_2325u64
    } else {
        (fnv1a(bytes, k - 1) ^ (bytes[k - 1] as u64)).wrapping_mul(0x0100_0000_01b3u64)
    }
}

/// The FNV-1a hash of the UTF-8 bytes of a text: stable across runs.
pub fn deterministic_hash(text: &str) -> (r: u64)
    ensures
        r == fnv1a(encode_utf8(text@), encode_utf8(text@).len() as int),
{
    let bytes = text.as_bytes();
    let mut h = 0xcbf2_9ce4_8422_2325_u64;
    let mut i: usize = 0;
    while i < bytes.len()
        invariant
            i <= bytes@.len(),
            bytes@ == encode_utf8(text@),
            h == fnv1a(bytes@, i as int),
        decreases bytes.len() - i,
    {
        h ^= bytes[i] as u64;
        h = h.wrapping_mul(0x0100_0000_01b3);
        i = i + 1;
    }
    h
}

} // verus!
