//! The features extracted from an entry for guessing its metadata.

use crate::guess_metadata::{
    arity_consistent_spec, arity_metadata_consistent, field_value, frame_last_slot, primary_arity,
    primary_arity_spec, valid_frame_spec, valid_frame_value, valid_value_spec, FeatureFlags, Field,
};
use crate::text::{
    alphanumeric, append_rows, char_is_alphanumeric, char_is_uppercase, uppercase, chars_of, is_control, is_control_spec,
    lowercase, nat_digits, prefix_of, push_chars, suffix_from, push_str, push_usize, rows, split_by, split_on, strings_of,
    chars_eq, texts, to_lowercase, string_of, trim, trimmed, str_eq, ends_with_str, has_suffix, words,
    split_words,
};
use crate::toadua::{opt_view, raku_split, split_into_raku, Toa, ToaView};
use vstd::prelude::*;

verus! {

/// The token that a run of word characters makes: as written when it starts
/// with `_`, lowercased otherwise; nothing for an empty run.
pub open spec fn flushed(cur: Seq<char>) -> Seq<Seq<char>> {
    if cur.len() == 0 {
        Seq::empty()
    } else if cur[0] == '_' {
        seq![cur]
    } else {
        seq![lowercase(cur)]
    }
}

/// The tokens of `s` from `i` on, where `cur` holds the run of word
/// characters read so far: runs of alphanumeric characters and `_`, and each
/// slot `▯` on its own.
pub open spec fn tokens_from(s: Seq<char>, i: int, cur: Seq<char>) -> Seq<Seq<char>>
    decreases s.len() - i,
{
    if i >= s.len() {
        flushed(cur)
    } else if s[i] == '▯' {
        flushed(cur) + seq![seq!['▯']] + tokens_from(s, i + 1, Seq::empty())
    } else if alphanumeric(s[i]) || s[i] == '_' {
        tokens_from(s, i + 1, cur.push(s[i]))
    } else {
        flushed(cur) + tokens_from(s, i + 1, Seq::empty())
    }
}

/// The tokens of a text.
pub open spec fn tokens(s: Seq<char>) -> Seq<Seq<char>> {
    tokens_from(s, 0, Seq::empty())
}

fn flush(cur: &Vec<char>, out: &mut Vec<Vec<char>>)
    ensures
        rows(final(out)@) == rows(old(out)@) + flushed(cur@),
{
    if cur.len() > 0 {
        let ghost before = rows(out@);
        if cur[0] == '_' {
            let mut copy: Vec<char> = Vec::new();
            push_chars(&mut copy, cur.as_slice());
            out.push(copy);
        } else {
            let text = string_of(cur.as_slice());
            out.push(to_lowercase(text.as_str()));
        }
        assert(rows(out@) =~= before + flushed(cur@));
    } else {
        assert(rows(out@) =~= rows(old(out)@) + flushed(cur@));
    }
}

/// The tokens of a text, as characters.
pub fn token_chars(text: &[char]) -> (r: Vec<Vec<char>>)
    ensures
        rows(r@) == tokens(text@),
{
    let mut out: Vec<Vec<char>> = Vec::new();
    let mut cur: Vec<char> = Vec::new();
    let mut i: usize = 0;
    while i < text.len()
        invariant
            i <= text@.len(),
            rows(out@) + tokens_from(text@, i as int, cur@) == tokens(text@),
        decreases text.len() - i,
    {
        let ch = text[i];
        let ghost done = rows(out@);
        let ghost old_cur = cur@;
        if ch == '▯' {
            flush(&cur, &mut out);
            cur = Vec::new();
            let ghost flushed_out = rows(out@);
            let mut slot: Vec<char> = Vec::new();
            slot.push('▯');
            out.push(slot);
            assert(rows(out@) =~= flushed_out.push(seq!['▯']));
            assert(done + tokens_from(text@, i as int, old_cur) =~= rows(out@) + tokens_from(
                text@,
                i + 1,
                cur@,
            ));
        } else if char_is_alphanumeric(ch) || ch == '_' {
            cur.push(ch);
        } else {
            flush(&cur, &mut out);
            cur = Vec::new();
            assert(done + tokens_from(text@, i as int, old_cur) =~= rows(out@) + tokens_from(
                text@,
                i + 1,
                cur@,
            ));
        }
        i = i + 1;
    }
    flush(&cur, &mut out);
    out
}

/// The tokens of a text: runs of alphanumeric characters and `_` (lowercased
/// unless they start with `_`), and each slot `▯` on its own.
pub fn tokenize(text: &str) -> (r: Vec<String>)
    ensures
        texts(r@) == tokens(text@),
{
    let cs = chars_of(text);
    let t = token_chars(&cs);
    strings_of(&t)
}

/// The character n-gram features of length `n` of `cs` starting at `i` or
/// later, skipping those holding a control character.
pub open spec fn grams_from(cs: Seq<char>, n: int, i: int) -> Seq<Seq<char>>
    decreases cs.len() + 1 - i,
{
    if i < 0 || n < 0 || i + n > cs.len() {
        Seq::empty()
    } else {
        let gram = cs.subrange(i, i + n);
        (if forall|j: int| 0 <= j < gram.len() ==> !is_control_spec(#[trigger] gram[j]) {
            seq![gram_feature(n as nat, gram)]
        } else {
            Seq::empty()
        }) + grams_from(cs, n, i + 1)
    }
}

/// The feature written for an n-gram: `_C{n}_{gram}`.
pub open spec fn gram_feature(n: nat, gram: Seq<char>) -> Seq<char> {
    "_C"@ + nat_digits(n) + "_"@ + gram
}

/// The character n-gram features for lengths `n` up to `max_n` (and up to
/// the length of `cs`).
pub open spec fn ngrams_from(cs: Seq<char>, n: int, max_n: int) -> Seq<Seq<char>>
    decreases max_n + 1 - n,
{
    if n > max_n || n > cs.len() || n < 0 {
        Seq::empty()
    } else {
        grams_from(cs, n, 0) + ngrams_from(cs, n + 1, max_n)
    }
}

fn no_control(g: &[char]) -> (r: bool)
    ensures
        r == forall|j: int| 0 <= j < g@.len() ==> !is_control_spec(#[trigger] g@[j]),
{
    let mut j: usize = 0;
    while j < g.len()
        invariant
            j <= g@.len(),
            forall|k: int| 0 <= k < j ==> !is_control_spec(#[trigger] g@[k]),
        decreases g.len() - j,
    {
        if is_control(g[j]) {
            return false;
        }
        j = j + 1;
    }
    true
}

/// The characters of `cs` from `i` to `i + n`.
fn window(cs: &Vec<char>, i: usize, n: usize) -> (r: Vec<char>)
    requires
        i + n <= cs.len(),
    ensures
        r@ == cs@.subrange(i as int, i + n),
{
    let mut gram: Vec<char> = Vec::new();
    let end: usize = i + n;
    let mut j: usize = i;
    while j < end
        invariant
            end == i + n,
            end <= cs@.len(),
            i <= j <= end,
            gram@ == cs@.subrange(i as int, j as int),
        decreases end - j,
    {
        gram.push(cs[j]);
        j = j + 1;
        assert(gram@ =~= cs@.subrange(i as int, j as int));
    }
    gram
}

/// Appends the n-gram features of length `n` of `cs` to `out`.
fn push_grams(cs: &Vec<char>, n: usize, out: &mut Vec<Vec<char>>)
    requires
        n <= cs@.len(),
    ensures
        rows(final(out)@) == rows(old(out)@) + grams_from(cs@, n as int, 0),
{
    let ghost before = rows(out@);
    let count: usize = cs.len() - n;
    let mut i: usize = 0;
    loop
        invariant_except_break
            rows(out@) + grams_from(cs@, n as int, i as int) == before + grams_from(
                cs@,
                n as int,
                0,
            ),
        invariant
            n <= cs@.len(),
            count == cs@.len() - n,
            i <= count,
        ensures
            rows(out@) == before + grams_from(cs@, n as int, 0),
        decreases count - i,
    {
        let ghost done = rows(out@);
        let gram = window(cs, i, n);
        if no_control(&gram) {
            let mut feature: Vec<char> = Vec::new();
            push_str(&mut feature, "_C");
            push_usize(&mut feature, n);
            push_str(&mut feature, "_");
            push_chars(&mut feature, &gram);
            out.push(feature);
            assert(rows(out@) =~= done.push(gram_feature(n as nat, gram@)));
        } else {
            assert(rows(out@) =~= done);
        }
        assert(rows(out@) + grams_from(cs@, n as int, i + 1) =~= done + grams_from(
            cs@,
            n as int,
            i as int,
        ));
        if i == count {
            assert(grams_from(cs@, n as int, i + 1) =~= Seq::<Seq<char>>::empty());
            assert(rows(out@) =~= rows(out@) + grams_from(cs@, n as int, i + 1));
            break;
        }
        i = i + 1;
    }
}

fn ngram_rows(text: &str, min_n: usize, max_n: usize) -> (r: Vec<Vec<char>>)
    ensures
        rows(r@) == ngrams_from(lowercase(text@), min_n as int, max_n as int),
{
    let cs = to_lowercase(text);
    let mut out: Vec<Vec<char>> = Vec::new();
    let mut n: usize = min_n;
    while n <= max_n && n <= cs.len()
        invariant
            min_n <= n,
            cs@ == lowercase(text@),
            rows(out@) + ngrams_from(cs@, n as int, max_n as int) == ngrams_from(
                cs@,
                min_n as int,
                max_n as int,
            ),
        decreases max_n - n,
    {
        let ghost before = rows(out@);
        push_grams(&cs, n, &mut out);
        assert(rows(out@) + ngrams_from(cs@, n + 1, max_n as int) =~= before + ngrams_from(
            cs@,
            n as int,
            max_n as int,
        ));
        if n == max_n {
            assert(ngrams_from(cs@, n + 1, max_n as int) =~= Seq::<Seq<char>>::empty());
            assert(rows(out@) =~= rows(out@) + ngrams_from(cs@, n + 1, max_n as int));
            return out;
        }
        n = n + 1;
    }
    assert(ngrams_from(cs@, n as int, max_n as int) =~= Seq::<Seq<char>>::empty());
    assert(rows(out@) =~= rows(out@) + ngrams_from(cs@, n as int, max_n as int));
    out
}

/// The character n-grams of a text, lowercased, for lengths `min_n` to
/// `max_n`, each written `_C{n}_{gram}`; those holding a control character
/// are left out.
pub fn char_ngrams(text: &str, min_n: usize, max_n: usize) -> (r: Vec<String>)
    ensures
        texts(r@) == ngrams_from(lowercase(text@), min_n as int, max_n as int),
{
    strings_of(&ngram_rows(text, min_n, max_n))
}

/// The field's name as it appears in a feature.
pub open spec fn field_tag(f: Field) -> Seq<char> {
    match f {
        Field::Frame => "FRAME"@,
        Field::Distribution => "DISTRIBUTION"@,
        Field::Pronoun => "PRONOUN"@,
        Field::Subject => "SUBJECT"@,
    }
}

/// `s` without its spaces.
pub open spec fn without_spaces(s: Seq<char>) -> Seq<char>
    decreases s.len(),
{
    if s.len() == 0 {
        s
    } else if s.last() == ' ' {
        without_spaces(s.drop_last())
    } else {
        without_spaces(s.drop_last()).push(s.last())
    }
}

/// The feature that tells what an entry has for another field: its value
/// (spaces removed), or that it is missing.
pub open spec fn known_feature(f: Field, value: Option<Seq<char>>) -> Seq<char> {
    match value {
        Some(v) => "_KNOWN_"@ + field_tag(f) + "_"@ + without_spaces(v),
        None => "_MISSING_"@ + field_tag(f),
    }
}

/// The feature for field `f` when `target` is guessed: none for the target
/// itself.
pub open spec fn other_field_feature(t: ToaView, target: Field, f: Field) -> Seq<Seq<char>> {
    if f == target {
        Seq::empty()
    } else {
        seq![known_feature(f, field_value(t, f))]
    }
}

/// The tag features of the first `k` pieces of the tag list: each
/// non-empty trimmed piece, lowercased, after `_TAG_`.
pub open spec fn tag_features_upto(pieces: Seq<Seq<char>>, k: int) -> Seq<Seq<char>>
    decreases k,
{
    if k <= 0 {
        Seq::empty()
    } else {
        let tag = trim(pieces[k - 1]);
        tag_features_upto(pieces, k - 1) + (if tag.len() == 0 {
            Seq::empty()
        } else {
            seq!["_TAG_"@ + lowercase(tag)]
        })
    }
}

/// The tag features of an entry: its tags are split at spaces.
pub open spec fn tag_features(tags: Option<Seq<char>>) -> Seq<Seq<char>> {
    match tags {
        Some(t) => tag_features_upto(split_by(t, seq![' ']), split_by(t, seq![' ']).len() as int),
        None => Seq::empty(),
    }
}

/// The features that an entry's other metadata and its tags give, when
/// `target` is guessed.
pub open spec fn metadata_spec(t: ToaView, target: Field) -> Seq<Seq<char>> {
    other_field_feature(t, target, Field::Frame) + other_field_feature(
        t,
        target,
        Field::Distribution,
    ) + other_field_feature(t, target, Field::Pronoun) + other_field_feature(
        t,
        target,
        Field::Subject,
    ) + tag_features(t.tags)
}

/// The metadata features of an entry do not reveal the field being
/// guessed: two entries with the same tags and the same values in every
/// other field give the same features, whatever their values in that field.
pub proof fn law_metadata_hides_target(t1: ToaView, t2: ToaView, target: Field)
    requires
        t1.tags == t2.tags,
        forall|f: Field| f != target ==> #[trigger] field_value(t1, f) == field_value(t2, f),
    ensures
        metadata_spec(t1, target) == metadata_spec(t2, target),
{
    assert(Field::Frame != target ==> field_value(t1, Field::Frame) == field_value(t2, Field::Frame));
    assert(Field::Distribution != target ==> field_value(t1, Field::Distribution) == field_value(t2, Field::Distribution));
    assert(Field::Pronoun != target ==> field_value(t1, Field::Pronoun) == field_value(t2, Field::Pronoun));
    assert(Field::Subject != target ==> field_value(t1, Field::Subject) == field_value(t2, Field::Subject));
}

fn push_without_spaces(out: &mut Vec<char>, s: &str)
    ensures
        final(out)@ == old(out)@ + without_spaces(s@),
{
    let cs = chars_of(s);
    let mut i: usize = 0;
    while i < cs.len()
        invariant
            i <= cs@.len(),
            cs@ == s@,
            out@ == old(out)@ + without_spaces(cs@.take(i as int)),
        decreases cs.len() - i,
    {
        assert(cs@.take(i + 1).drop_last() =~= cs@.take(i as int));
        if cs[i] != ' ' {
            out.push(cs[i]);
        }
        i = i + 1;
        assert(out@ =~= old(out)@ + without_spaces(cs@.take(i as int)));
    }
    assert(cs@.take(cs@.len() as int) =~= cs@);
}

fn push_field_feature(toa: &Toa, target: Field, f: Field, out: &mut Vec<Vec<char>>)
    ensures
        rows(final(out)@) == rows(old(out)@) + other_field_feature(toa@, target, f),
{
    if f == target {
        assert(rows(out@) =~= rows(out@) + other_field_feature(toa@, target, f));
        return;
    }
    let tag = match f {
        Field::Frame => "FRAME",
        Field::Distribution => "DISTRIBUTION",
        Field::Pronoun => "PRONOUN",
        Field::Subject => "SUBJECT",
    };
    let mut feature: Vec<char> = Vec::new();
    match f.get(toa) {
        Some(value) => {
            push_str(&mut feature, "_KNOWN_");
            push_str(&mut feature, tag);
            push_str(&mut feature, "_");
            push_without_spaces(&mut feature, value.as_str());
        },
        None => {
            push_str(&mut feature, "_MISSING_");
            push_str(&mut feature, tag);
        },
    }
    let ghost before = rows(out@);
    out.push(feature);
    assert(rows(out@) =~= before + other_field_feature(toa@, target, f));
}

fn push_tag_features(tags: &Option<String>, out: &mut Vec<Vec<char>>)
    ensures
        rows(final(out)@) == rows(old(out)@) + tag_features(opt_view(*tags)),
{
    match tags {
        None => {
            assert(rows(out@) =~= rows(out@) + tag_features(opt_view(*tags)));
        },
        Some(t) => {
            let cs = chars_of(t.as_str());
            let space = chars_of(" ");
            proof {
                reveal_strlit(" ");
            }
            assert(space@ =~= seq![' ']);
            let pieces = split_on(&cs, &space);
            let ghost pv = pieces@.map_values(|w: Vec<char>| w@);
            let ghost start = rows(out@);
            let mut k: usize = 0;
            while k < pieces.len()
                invariant
                    k <= pieces@.len(),
                    pv == pieces@.map_values(|w: Vec<char>| w@),
                    rows(out@) == start + tag_features_upto(pv, k as int),
                decreases pieces.len() - k,
            {
                let tag = trimmed(pieces[k].as_slice());
                let ghost done = rows(out@);
                if tag.len() > 0 {
                    let lower = to_lowercase(string_of(tag.as_slice()).as_str());
                    let mut feature: Vec<char> = Vec::new();
                    push_str(&mut feature, "_TAG_");
                    push_chars(&mut feature, lower.as_slice());
                    out.push(feature);
                    assert(rows(out@) =~= done.push("_TAG_"@ + lowercase(trim(pv[k as int]))));
                }
                k = k + 1;
                assert(rows(out@) =~= start + tag_features_upto(pv, k as int));
            }
        },
    }
}

fn metadata_rows(toa: &Toa, target: Field) -> (r: Vec<Vec<char>>)
    ensures
        rows(r@) == metadata_spec(toa@, target),
{
    let mut out: Vec<Vec<char>> = Vec::new();
    push_field_feature(toa, target, Field::Frame, &mut out);
    push_field_feature(toa, target, Field::Distribution, &mut out);
    push_field_feature(toa, target, Field::Pronoun, &mut out);
    push_field_feature(toa, target, Field::Subject, &mut out);
    push_tag_features(&toa.tags, &mut out);
    assert(rows(out@) =~= metadata_spec(toa@, target));
    out
}

/// The features that an entry's other metadata and its tags give, when
/// `target` is guessed: `_KNOWN_{FIELD}_{value}` or `_MISSING_{FIELD}` for
/// each other field, and `_TAG_{tag}` for each tag.
pub fn metadata_features(toa: &Toa, target: Field) -> (r: Vec<String>)
    ensures
        texts(r@) == metadata_spec(toa@, target),
{
    strings_of(&metadata_rows(toa, target))
}

/// The position of the slot `▯` numbered `k` (from 0) among those at `i` or
/// later in `s`.
pub open spec fn slot_from(s: Seq<char>, i: int, k: nat) -> Option<int>
    decreases s.len() - i,
{
    if i < 0 || i >= s.len() {
        None
    } else if s[i] == '▯' {
        if k == 0 {
            Some(i)
        } else {
            slot_from(s, i + 1, (k - 1) as nat)
        }
    } else {
        slot_from(s, i + 1, k)
    }
}

/// The features of a token at distance `k` from the slot, on side `side`.
pub open spec fn near_feature(side: Seq<char>, k: nat, tok: Seq<char>, flags: FeatureFlags) -> Seq<
    Seq<char>,
> {
    (if flags.boundary_indexed {
        seq!["_BOUND_"@ + side + "_"@ + nat_digits(k) + "_"@ + tok]
    } else {
        Seq::empty()
    }) + (if flags.boundary_anydist {
        seq!["_BOUND_"@ + side + "_ANYDIST_"@ + tok]
    } else {
        Seq::empty()
    })
}

/// The token at distance `k` (from 1) from the slot: counted from the end of
/// `toks` before the slot, from the start after it.
pub open spec fn nearest(toks: Seq<Seq<char>>, from_end: bool, k: int) -> Seq<char> {
    if from_end {
        toks[toks.len() - k]
    } else {
        toks[k - 1]
    }
}

/// The features of the `k` tokens nearest the slot on one side.
pub open spec fn near_upto(
    side: Seq<char>,
    toks: Seq<Seq<char>>,
    from_end: bool,
    k: int,
    flags: FeatureFlags,
) -> Seq<Seq<char>>
    decreases k,
{
    if k <= 0 {
        Seq::empty()
    } else {
        near_upto(side, toks, from_end, k - 1, flags) + near_feature(
            side,
            k as nat,
            nearest(toks, from_end, k),
            flags,
        )
    }
}

/// The smaller of two integers.
pub open spec fn min_int(a: int, b: int) -> int {
    if a <= b {
        a
    } else {
        b
    }
}

/// The features of the tokens around the slot at `pos`.
pub open spec fn around_slot(body: Seq<char>, pos: int, window: int, flags: FeatureFlags) -> Seq<
    Seq<char>,
> {
    let before = tokens(body.subrange(0, pos));
    let after = tokens(body.subrange(pos + 1, body.len() as int));
    near_upto("BEFORE"@, before, true, min_int(window, before.len() as int), flags) + near_upto(
        "AFTER"@,
        after,
        false,
        min_int(window, after.len() as int),
        flags,
    ) + (if flags.boundary_bigram && before.len() >= 2 {
        seq![
            "_BOUND_BEFORE_BI_"@ + before[before.len() - 2] + "_"@ + before[before.len() - 1],
        ]
    } else {
        Seq::empty()
    }) + (if flags.boundary_bigram && after.len() >= 2 {
        seq!["_BOUND_AFTER_BI_"@ + after[0] + "_"@ + after[1]]
    } else {
        Seq::empty()
    })
}

/// The features of the tokens around the slot numbered `slot` of `body`
/// (none when there is no such slot), up to `window` tokens on each side.
pub open spec fn boundary_spec(body: Seq<char>, slot: Option<usize>, window: int, flags: FeatureFlags) -> Seq<
    Seq<char>,
> {
    match slot {
        None => Seq::empty(),
        Some(k) => match slot_from(body, 0, k as nat) {
            None => Seq::empty(),
            Some(pos) => around_slot(body, pos, window, flags),
        },
    }
}

fn find_slot(cs: &Vec<char>, k: usize) -> (r: Option<usize>)
    ensures
        r is Some == slot_from(cs@, 0, k as nat) is Some,
        r is Some ==> r->0 as int == slot_from(cs@, 0, k as nat)->0 && r->0 < cs.len(),
{
    let mut i: usize = 0;
    let mut left: usize = k;
    while i < cs.len()
        invariant
            i <= cs@.len(),
            slot_from(cs@, i as int, left as nat) == slot_from(cs@, 0, k as nat),
        decreases cs.len() - i,
    {
        if cs[i] == '▯' {
            if left == 0 {
                return Some(i);
            }
            left = left - 1;
        }
        i = i + 1;
    }
    None
}

fn push_near(
    side: &str,
    toks: &Vec<Vec<char>>,
    from_end: bool,
    window: usize,
    flags: FeatureFlags,
    out: &mut Vec<Vec<char>>,
)
    ensures
        rows(final(out)@) == rows(old(out)@) + near_upto(
            side@,
            rows(toks@),
            from_end,
            min_int(window as int, toks@.len() as int),
            flags,
        ),
{
    let ghost tv = rows(toks@);
    let ghost start = rows(out@);
    let count: usize = if window <= toks.len() {
        window
    } else {
        toks.len()
    };
    let mut k: usize = 0;
    while k < count
        invariant
            k <= count,
            count <= toks@.len(),
            count == min_int(window as int, toks@.len() as int),
            tv == rows(toks@),
            rows(out@) == start + near_upto(side@, tv, from_end, k as int, flags),
        decreases count - k,
    {
        let ghost done = rows(out@);
        let tok: &Vec<char> = if from_end {
            &toks[toks.len() - 1 - k]
        } else {
            &toks[k]
        };
        assert(tok@ == nearest(tv, from_end, k + 1));
        if flags.boundary_indexed {
            let mut feature: Vec<char> = Vec::new();
            push_str(&mut feature, "_BOUND_");
            push_str(&mut feature, side);
            push_str(&mut feature, "_");
            push_usize(&mut feature, k + 1);
            push_str(&mut feature, "_");
            push_chars(&mut feature, tok.as_slice());
            out.push(feature);
        }
        let ghost mid = rows(out@);
        if flags.boundary_anydist {
            let mut feature: Vec<char> = Vec::new();
            push_str(&mut feature, "_BOUND_");
            push_str(&mut feature, side);
            push_str(&mut feature, "_ANYDIST_");
            push_chars(&mut feature, tok.as_slice());
            out.push(feature);
        }
        assert(rows(out@) =~= done + near_feature(side@, (k + 1) as nat, tok@, flags));
        k = k + 1;
    }
}

fn push_bigram(prefix: &str, a: &Vec<char>, b: &Vec<char>, out: &mut Vec<Vec<char>>)
    ensures
        rows(final(out)@) == rows(old(out)@).push(prefix@ + a@ + "_"@ + b@),
{
    let mut feature: Vec<char> = Vec::new();
    push_str(&mut feature, prefix);
    push_chars(&mut feature, a.as_slice());
    push_str(&mut feature, "_");
    push_chars(&mut feature, b.as_slice());
    let ghost before = rows(out@);
    out.push(feature);
    assert(rows(out@) =~= before.push(prefix@ + a@ + "_"@ + b@));
}

fn boundary_rows(body: &str, slot: Option<usize>, window: usize, flags: FeatureFlags) -> (r: Vec<
    Vec<char>,
>)
    ensures
        rows(r@) == boundary_spec(body@, slot, window as int, flags),
{
    let mut out: Vec<Vec<char>> = Vec::new();
    let k = match slot {
        None => {
            return out;
        },
        Some(k) => k,
    };
    let cs = chars_of(body);
    let pos = match find_slot(&cs, k) {
        None => {
            return out;
        },
        Some(p) => p,
    };
    let before_text = prefix_of(cs.as_slice(), pos);
    let after_text = suffix_from(cs.as_slice(), pos + 1);
    let before = token_chars(before_text.as_slice());
    let after = token_chars(after_text.as_slice());
    push_near("BEFORE", &before, true, window, flags, &mut out);
    push_near("AFTER", &after, false, window, flags, &mut out);
    let ghost bv = rows(before@);
    let ghost av = rows(after@);
    let ghost mid = rows(out@);
    if flags.boundary_bigram && before.len() >= 2 {
        let n = before.len();
        push_bigram("_BOUND_BEFORE_BI_", &before[n - 2], &before[n - 1], &mut out);
    }
    let ghost mid2 = rows(out@);
    assert(mid2 =~= mid + (if flags.boundary_bigram && bv.len() >= 2 {
        seq!["_BOUND_BEFORE_BI_"@ + bv[bv.len() - 2] + "_"@ + bv[bv.len() - 1]]
    } else {
        Seq::empty()
    }));
    if flags.boundary_bigram && after.len() >= 2 {
        push_bigram("_BOUND_AFTER_BI_", &after[0], &after[1], &mut out);
    }
    assert(rows(out@) =~= boundary_spec(body@, slot, window as int, flags));
    out
}

/// The features of the tokens around the slot numbered `slot` (from 0) of
/// `body`: for each of the `window` nearest tokens on each side, its
/// distance and itself (`_BOUND_BEFORE_{i}_{tok}`, when indexed features are
/// on) and itself alone (`_BOUND_BEFORE_ANYDIST_{tok}`, when any-distance
/// features are on), and with bigram features on the two tokens next to the
/// slot on each side.  Nothing when there is no such slot.
pub fn slot_boundary_features(body: &str, slot: Option<usize>, window: usize, flags: FeatureFlags) -> (r: Vec<String>)
    ensures
        texts(r@) == boundary_spec(body@, slot, window as int, flags),
{
    strings_of(&boundary_rows(body, slot, window, flags))
}

/// The slot whose surroundings give boundary features: the last slot of
/// the definition's main clause for a frame, the slot asked about for a
/// distribution, none otherwise.
pub open spec fn boundary_slot_spec(target: Field, body: Seq<char>, slot: Option<usize>) -> Option<
    usize,
> {
    match target {
        Field::Frame => Some(
            (if primary_arity_spec(body).0 == 0 {
                0
            } else {
                primary_arity_spec(body).0 - 1
            }) as usize,
        ),
        Field::Distribution => slot,
        _ => None,
    }
}

/// The slot whose surroundings give boundary features.
pub fn boundary_slot(target: Field, body: &str, slot: Option<usize>) -> (r: Option<usize>)
    ensures
        r == boundary_slot_spec(target, body@, slot),
{
    match target {
        Field::Frame => {
            let (n, _) = primary_arity(body);
            Some(n.saturating_sub(1))
        },
        Field::Distribution => slot,
        _ => None,
    }
}

/// The raku of a head, or none when it is not made of raku.
pub open spec fn head_rakus(head: Seq<char>) -> Seq<Seq<char>> {
    match raku_split(head) {
        Some(r) => r,
        None => Seq::empty(),
    }
}

/// The features of a head's raku: its last and first raku and, when that
/// feature is on, its last two.
pub open spec fn raku_spec(rakus: Seq<Seq<char>>, flags: FeatureFlags) -> Seq<Seq<char>> {
    (if rakus.len() > 0 {
        seq!["_RAKU_LAST_"@ + rakus.last(), "_RAKU_FIRST_"@ + rakus[0]]
    } else {
        Seq::empty()
    }) + (if flags.raku_last2 && rakus.len() >= 2 {
        seq!["_RAKU_LAST2_"@ + rakus[rakus.len() - 2] + "_"@ + rakus[rakus.len() - 1]]
    } else {
        Seq::empty()
    })
}

/// The feature of a capitalised head.
pub open spec fn caps_spec(head: Seq<char>) -> Seq<Seq<char>> {
    if head.len() > 0 && uppercase(head[0]) {
        seq!["_CAPS"@]
    } else {
        Seq::empty()
    }
}

/// The feature that tells which slot of how many a distribution guess is
/// for.
pub open spec fn dist_slot_spec(target: Field, body: Seq<char>, slot: Option<usize>) -> Seq<
    Seq<char>,
> {
    match (target, slot) {
        (Field::Distribution, Some(k)) => seq![
            "_DIST_SLOT_"@ + nat_digits(k as nat) + "_OF_"@ + nat_digits(
                primary_arity_spec(body).0,
            ),
        ],
        _ => Seq::empty(),
    }
}

/// All features of an entry when `target` is guessed (for the slot `slot`
/// of a distribution): the definition's tokens, the head's raku, the
/// arity, capitalisation, the head's character bigrams and trigrams, the
/// other metadata and tags, the tokens around the relevant slot, the slot
/// asked about, and a bias feature.
pub open spec fn extract_spec(t: ToaView, target: Field, slot: Option<usize>, flags: FeatureFlags) -> Seq<
    Seq<char>,
> {
    tokens(t.body) + raku_spec(head_rakus(t.head), flags) + seq![
        "_ARITY_"@ + nat_digits(primary_arity_spec(t.body).0),
    ] + caps_spec(t.head) + (if flags.char_ngrams {
        ngrams_from(lowercase(t.head), 2, 3)
    } else {
        Seq::empty()
    }) + metadata_spec(t, target) + boundary_spec(
        t.body,
        boundary_slot_spec(target, t.body, slot),
        4,
        flags,
    ) + dist_slot_spec(target, t.body, slot) + seq!["_BIAS"@]
}

fn push_raku_features(head: &str, flags: FeatureFlags, out: &mut Vec<Vec<char>>)
    ensures
        rows(final(out)@) == rows(old(out)@) + raku_spec(head_rakus(head@), flags),
{
    let rakus: Vec<String> = match split_into_raku(head) {
        Some(r) => r,
        None => Vec::new(),
    };
    let ghost rv = texts(rakus@);
    assert(rv == head_rakus(head@));
    let ghost start = rows(out@);
    let n = rakus.len();
    if n > 0 {
        let mut last: Vec<char> = Vec::new();
        push_str(&mut last, "_RAKU_LAST_");
        push_str(&mut last, rakus[n - 1].as_str());
        out.push(last);
        let mut first: Vec<char> = Vec::new();
        push_str(&mut first, "_RAKU_FIRST_");
        push_str(&mut first, rakus[0].as_str());
        out.push(first);
    }
    let ghost mid = rows(out@);
    assert(mid =~= start + (if rv.len() > 0 {
        seq!["_RAKU_LAST_"@ + rv.last(), "_RAKU_FIRST_"@ + rv[0]]
    } else {
        Seq::empty()
    }));
    if flags.raku_last2 && n >= 2 {
        let mut pair: Vec<char> = Vec::new();
        push_str(&mut pair, "_RAKU_LAST2_");
        push_str(&mut pair, rakus[n - 2].as_str());
        push_str(&mut pair, "_");
        push_str(&mut pair, rakus[n - 1].as_str());
        out.push(pair);
    }
    assert(rows(out@) =~= start + raku_spec(rv, flags));
}

fn push_one(out: &mut Vec<Vec<char>>, feature: Vec<char>)
    ensures
        rows(final(out)@) == rows(old(out)@).push(feature@),
{
    let ghost before = rows(out@);
    out.push(feature);
    assert(rows(out@) =~= before.push(feature@));
}

fn extract_rows(toa: &Toa, target: Field, slot: Option<usize>, flags: FeatureFlags) -> (r: Vec<
    Vec<char>,
>)
    ensures
        rows(r@) == extract_spec(toa@, target, slot, flags),
{
    let body = chars_of(toa.body.as_str());
    let mut out = token_chars(body.as_slice());
    let ghost s0 = rows(out@);
    push_raku_features(toa.head.as_str(), flags, &mut out);
    let ghost s1 = rows(out@);
    let (arity, _) = primary_arity(toa.body.as_str());
    let mut arity_feature: Vec<char> = Vec::new();
    push_str(&mut arity_feature, "_ARITY_");
    push_usize(&mut arity_feature, arity);
    push_one(&mut out, arity_feature);
    let ghost s2 = rows(out@);
    let head = chars_of(toa.head.as_str());
    if head.len() > 0 && char_is_uppercase(head[0]) {
        let mut caps: Vec<char> = Vec::new();
        push_str(&mut caps, "_CAPS");
        push_one(&mut out, caps);
    }
    let ghost s3 = rows(out@);
    assert(s3 =~= s2 + caps_spec(toa@.head));
    if flags.char_ngrams {
        append_rows(&mut out, ngram_rows(toa.head.as_str(), 2, 3));
    }
    let ghost s4 = rows(out@);
    assert(s4 =~= s3 + (if flags.char_ngrams {
        ngrams_from(lowercase(toa@.head), 2, 3)
    } else {
        Seq::empty()
    }));
    append_rows(&mut out, metadata_rows(toa, target));
    let ghost s5 = rows(out@);
    let bslot = boundary_slot(target, toa.body.as_str(), slot);
    append_rows(&mut out, boundary_rows(toa.body.as_str(), bslot, 4, flags));
    let ghost s6 = rows(out@);
    match (target, slot) {
        (Field::Distribution, Some(k)) => {
            let mut dist: Vec<char> = Vec::new();
            push_str(&mut dist, "_DIST_SLOT_");
            push_usize(&mut dist, k);
            push_str(&mut dist, "_OF_");
            push_usize(&mut dist, arity);
            push_one(&mut out, dist);
        },
        _ => {},
    }
    let ghost s7 = rows(out@);
    assert(s7 =~= s6 + dist_slot_spec(target, toa@.body, slot));
    let mut bias: Vec<char> = Vec::new();
    push_str(&mut bias, "_BIAS");
    push_one(&mut out, bias);
    assert(rows(out@) =~= extract_spec(toa@, target, slot, flags));
    out
}

/// The features of an entry when `target` is guessed, for the slot `slot`
/// when a distribution is guessed slot by slot.
pub fn extract_features_extra(toa: &Toa, target: Field, slot: Option<usize>, flags: FeatureFlags) -> (r: Vec<String>)
    ensures
        texts(r@) == extract_spec(toa@, target, slot, flags),
{
    strings_of(&extract_rows(toa, target, slot, flags))
}

/// The features of an entry when `target` is guessed.
pub fn extract_features(toa: &Toa, target: Field, flags: FeatureFlags) -> (r: Vec<String>)
    ensures
        texts(r@) == extract_spec(toa@, target, None, flags),
{
    extract_features_extra(toa, target, None, flags)
}

/// Whether an entry's value for `field` is one to learn from: a frame that
/// fits the definition's arity, or a valid value of the other fields.
pub open spec fn example_value_ok(t: ToaView, field: Field) -> bool {
    match field_value(t, field) {
        Some(v) => if field == Field::Frame {
            valid_frame_spec(v, primary_arity_spec(t.body).0 as int)
        } else {
            valid_value_spec(field, v)
        },
        None => false,
    }
}

/// Whether an entry has the shape that metadata is learned from and
/// guessed for: a well-formed English entry, not a prefix, with one to
/// three slots, whose metadata agree with its definition.
pub open spec fn shape_ok(t: ToaView) -> bool {
    let arity = primary_arity_spec(t.body).0;
    &&& !t.warn
    &&& t.scope == "en"@
    &&& !has_suffix(t.head, "-"@)
    &&& 1 <= arity <= 3
    &&& arity_consistent_spec(t)
}

/// Whether an entry is an example to learn `field` from: it has the right
/// shape and its value for the field is valid.
pub open spec fn is_example(t: ToaView, field: Field) -> bool {
    shape_ok(t) && example_value_ok(t, field)
}

/// Whether an entry has the shape to learn from or guess for.
pub fn has_guessable_shape(toa: &Toa) -> (r: bool)
    ensures
        r == shape_ok(toa@),
{
    if toa.warn || !str_eq(toa.scope.as_str(), "en") {
        return false;
    }
    let head = chars_of(toa.head.as_str());
    if ends_with_str(head.as_slice(), "-") {
        return false;
    }
    let (arity, _) = primary_arity(toa.body.as_str());
    arity >= 1 && arity <= 3 && arity_metadata_consistent(toa)
}

/// Whether an entry has the shape to guess for and lacks some metadata.
pub fn needs_guess(toa: &Toa) -> (r: bool)
    ensures
        r == (shape_ok(toa@) && (toa@.frame is None || toa@.animacy is None
            || toa@.distribution is None || toa@.subject is None)),
{
    has_guessable_shape(toa) && (toa.frame.is_none() || toa.animacy.is_none()
        || toa.distribution.is_none() || toa.subject.is_none())
}

/// Whether a guessed value matches the actual one: slot by slot for a
/// distribution (white space aside), as text otherwise.
pub open spec fn labels_agree_spec(field: Field, guessed: Seq<char>, actual: Seq<char>) -> bool {
    if field == Field::Distribution {
        words(guessed) == words(actual)
    } else {
        guessed == actual
    }
}

/// Whether a guessed value matches the actual one.
pub fn labels_agree(field: Field, guessed: &str, actual: &str) -> (r: bool)
    ensures
        r == labels_agree_spec(field, guessed@, actual@),
{
    match field {
        Field::Distribution => {
            let g = split_words(chars_of(guessed).as_slice());
            let a = split_words(chars_of(actual).as_slice());
            let ghost gv = rows(g@);
            let ghost av = rows(a@);
            assert(gv == words(guessed@) && av == words(actual@));
            assert(gv.len() == g@.len() && av.len() == a@.len());
            if g.len() != a.len() {
                assert(gv != av);
                return false;
            }
            let mut i: usize = 0;
            while i < g.len()
                invariant
                    i <= g@.len(),
                    g@.len() == a@.len(),
                    gv == rows(g@),
                    av == rows(a@),
                    field == Field::Distribution,
                    gv == words(guessed@),
                    av == words(actual@),
                    forall|j: int| 0 <= j < i ==> gv[j] == av[j],
                decreases g.len() - i,
            {
                if !chars_eq(g[i].as_slice(), a[i].as_slice()) {
                    assert(gv[i as int] != av[i as int]);
                    return false;
                }
                i = i + 1;
            }
            assert(gv =~= av);
            true
        },
        _ => str_eq(guessed, actual),
    }
}

/// The entries among the first `k` that are examples for `field`.
pub open spec fn examples_upto(ts: Seq<ToaView>, field: Field, k: int) -> Seq<ToaView>
    decreases k,
{
    if k <= 0 {
        Seq::empty()
    } else {
        examples_upto(ts, field, k - 1) + (if is_example(ts[k - 1], field) {
            seq![ts[k - 1]]
        } else {
            Seq::empty()
        })
    }
}

/// The entries of a dictionary as values.
pub open spec fn entries(dict: Seq<Toa>) -> Seq<ToaView> {
    dict.map_values(|t: Toa| t@)
}

/// Entries held by reference, as values.
pub open spec fn entry_refs(dict: Seq<&Toa>) -> Seq<ToaView> {
    dict.map_values(|t: &Toa| t@)
}

/// Whether `toa` is an example to learn `field` from.
pub fn is_field_example(toa: &Toa, field: Field) -> (r: bool)
    ensures
        r == is_example(toa@, field),
{
    if !has_guessable_shape(toa) {
        return false;
    }
    let (arity, _) = primary_arity(toa.body.as_str());
    match field.get(toa) {
        None => false,
        Some(value) => match field {
            Field::Frame => valid_frame_value(value.as_str(), arity),
            _ => field.valid_value(value.as_str()),
        },
    }
}

/// The entries of `dict` to learn `field` from, in order.
pub fn field_examples<'a>(dict: &'a [Toa], field: Field) -> (r: Vec<&'a Toa>)
    ensures
        entry_refs(r@) == examples_upto(entries(dict@), field, dict@.len() as int),
{
    let ghost ts = entries(dict@);
    let mut out: Vec<&'a Toa> = Vec::new();
    let mut i: usize = 0;
    while i < dict.len()
        invariant
            i <= dict@.len(),
            ts == entries(dict@),
            entry_refs(out@) == examples_upto(ts, field, i as int),
        decreases dict.len() - i,
    {
        let ghost before = entry_refs(out@);
        let toa: &'a Toa = &dict[i];
        if is_field_example(toa, field) {
            out.push(toa);
        }
        assert(entry_refs(out@) =~= examples_upto(ts, field, i + 1));
        i = i + 1;
    }
    out
}

/// A training example as values: its features and its label.
pub open spec fn example_view(e: (Vec<String>, String)) -> (Seq<Seq<char>>, Seq<char>) {
    (texts(e.0@), e.1@)
}

/// The training examples of the first `k` slots of a distribution: each
/// slot's features and its label.
pub open spec fn slot_examples_upto(t: ToaView, labels: Seq<Seq<char>>, k: int, flags: FeatureFlags) -> Seq<
    (Seq<Seq<char>>, Seq<char>),
>
    decreases k,
{
    if k <= 0 {
        Seq::empty()
    } else {
        slot_examples_upto(t, labels, k - 1, flags).push(
            (extract_spec(t, Field::Distribution, Some((k - 1) as usize), flags), labels[k - 1]),
        )
    }
}

/// The training examples that an entry gives for `field`: the last slot of
/// a frame, each slot of a distribution, the whole value otherwise; none
/// without a value.
pub open spec fn entry_training(t: ToaView, field: Field, flags: FeatureFlags) -> Seq<
    (Seq<Seq<char>>, Seq<char>),
> {
    match field_value(t, field) {
        None => Seq::empty(),
        Some(v) => match field {
            Field::Frame => if words(v).len() > 0 {
                seq![(extract_spec(t, field, None, flags), words(v).last())]
            } else {
                Seq::empty()
            },
            Field::Distribution => slot_examples_upto(t, words(v), words(v).len() as int, flags),
            _ => seq![(extract_spec(t, field, None, flags), v)],
        },
    }
}

/// The training examples of the first `k` entries.
pub open spec fn training_upto(ts: Seq<ToaView>, field: Field, k: int, flags: FeatureFlags) -> Seq<
    (Seq<Seq<char>>, Seq<char>),
>
    decreases k,
{
    if k <= 0 {
        Seq::empty()
    } else {
        training_upto(ts, field, k - 1, flags) + entry_training(ts[k - 1], field, flags)
    }
}

fn push_example(out: &mut Vec<(Vec<String>, String)>, features: Vec<String>, label: String)
    ensures
        final(out)@.map_values(|e: (Vec<String>, String)| example_view(e)) == old(out)@.map_values(
            |e: (Vec<String>, String)| example_view(e),
        ).push((texts(features@), label@)),
{
    let ghost before = out@.map_values(|e: (Vec<String>, String)| example_view(e));
    out.push((features, label));
    assert(out@.map_values(|e: (Vec<String>, String)| example_view(e)) =~= before.push(
        (texts(features@), label@),
    ));
}

fn push_entry_training(
    toa: &Toa,
    field: Field,
    flags: FeatureFlags,
    out: &mut Vec<(Vec<String>, String)>,
)
    ensures
        final(out)@.map_values(|e: (Vec<String>, String)| example_view(e)) == old(out)@.map_values(
            |e: (Vec<String>, String)| example_view(e),
        ) + entry_training(toa@, field, flags),
{
    let ghost start = out@.map_values(|e: (Vec<String>, String)| example_view(e));
    let value = match field.get(toa) {
        None => {
            assert(start =~= start + entry_training(toa@, field, flags));
            return;
        },
        Some(v) => v,
    };
    match field {
        Field::Frame => {
            match frame_last_slot(value.as_str()) {
                None => {
                    assert(start =~= start + entry_training(toa@, field, flags));
                },
                Some(label) => {
                    push_example(out, extract_features(toa, field, flags), label);
                    assert(out@.map_values(|e: (Vec<String>, String)| example_view(e)) =~= start
                        + entry_training(toa@, field, flags));
                },
            }
        },
        Field::Distribution => {
            let cs = chars_of(value.as_str());
            let labels = split_words(cs.as_slice());
            let ghost lv = rows(labels@);
            let mut k: usize = 0;
            while k < labels.len()
                invariant
                    k <= labels@.len(),
                    lv == rows(labels@),
                    lv == words(value@),
                    field == Field::Distribution,
                    out@.map_values(|e: (Vec<String>, String)| example_view(e)) == start
                        + slot_examples_upto(toa@, lv, k as int, flags),
                decreases labels.len() - k,
            {
                let features = extract_features_extra(toa, field, Some(k), flags);
                let label = string_of(labels[k].as_slice());
                push_example(out, features, label);
                k = k + 1;
            }
        },
        _ => {
            let label = string_of(chars_of(value.as_str()).as_slice());
            push_example(out, extract_features(toa, field, flags), label);
            assert(out@.map_values(|e: (Vec<String>, String)| example_view(e)) =~= start
                + entry_training(toa@, field, flags));
        },
    }
}

/// The training examples for `field` that the given entries make: features
/// and label of the last slot of each frame, of each slot of each
/// distribution, of each pronoun and subject.
pub fn field_training_examples(train: &[&Toa], field: Field, flags: FeatureFlags) -> (r: Vec<
    (Vec<String>, String),
>)
    ensures
        r@.map_values(|e: (Vec<String>, String)| example_view(e)) == training_upto(
            entry_refs(train@),
            field,
            train@.len() as int,
            flags,
        ),
{
    let ghost ts = entry_refs(train@);
    let mut out: Vec<(Vec<String>, String)> = Vec::new();
    let mut i: usize = 0;
    while i < train.len()
        invariant
            i <= train@.len(),
            ts == entry_refs(train@),
            out@.map_values(|e: (Vec<String>, String)| example_view(e)) == training_upto(
                ts,
                field,
                i as int,
                flags,
            ),
        decreases train.len() - i,
    {
        push_entry_training(train[i], field, flags, &mut out);
        i = i + 1;
    }
    out
}

/// The feature sets of the first `k` slots of a distribution.
pub open spec fn slot_sets_upto(t: ToaView, k: int, flags: FeatureFlags) -> Seq<Seq<Seq<char>>>
    decreases k,
{
    if k <= 0 {
        Seq::empty()
    } else {
        slot_sets_upto(t, k - 1, flags).push(
            extract_spec(t, Field::Distribution, Some((k - 1) as usize), flags),
        )
    }
}

/// The feature sets to guess `field` of an entry from: one per slot of the
/// definition for a distribution, one otherwise.
pub open spec fn feature_sets_spec(t: ToaView, field: Field, flags: FeatureFlags) -> Seq<Seq<Seq<char>>> {
    if field == Field::Distribution {
        slot_sets_upto(t, primary_arity_spec(t.body).0 as int, flags)
    } else {
        seq![extract_spec(t, field, None, flags)]
    }
}

/// The feature sets to guess `field` of an entry from.
pub fn field_feature_tokens(toa: &Toa, field: Field, flags: FeatureFlags) -> (r: Vec<Vec<String>>)
    ensures
        r@.map_values(|v: Vec<String>| texts(v@)) == feature_sets_spec(toa@, field, flags),
{
    let mut out: Vec<Vec<String>> = Vec::new();
    match field {
        Field::Distribution => {
            let (n, _) = primary_arity(toa.body.as_str());
            let mut slot: usize = 0;
            while slot < n
                invariant
                    slot <= n,
                    field == Field::Distribution,
                    n as nat == primary_arity_spec(toa@.body).0,
                    out@.map_values(|v: Vec<String>| texts(v@)) == slot_sets_upto(
                        toa@,
                        slot as int,
                        flags,
                    ),
                decreases n - slot,
            {
                let ghost before = out@.map_values(|v: Vec<String>| texts(v@));
                out.push(extract_features_extra(toa, field, Some(slot), flags));
                assert(out@.map_values(|v: Vec<String>| texts(v@)) =~= before.push(
                    extract_spec(toa@, Field::Distribution, Some(slot), flags),
                ));
                slot = slot + 1;
            }
        },
        _ => {
            out.push(extract_features(toa, field, flags));
            assert(out@.map_values(|v: Vec<String>| texts(v@)) =~= seq![
                extract_spec(toa@, field, None, flags),
            ]);
        },
    }
    out
}

/// The word of `ws` at `i`, if there is one.
pub open spec fn word_at(ws: Seq<Seq<char>>, i: int) -> Option<Seq<char>> {
    if 0 <= i < ws.len() {
        Some(ws[i])
    } else {
        None
    }
}

/// Slot by slot, whether a guessed distribution agrees with the actual one,
/// for as many slots as the longer of the two has.
pub open spec fn slot_agreement_spec(actual: Seq<char>, guessed: Seq<char>) -> Seq<bool> {
    let a = words(actual);
    let g = words(guessed);
    let n = if a.len() >= g.len() {
        a.len()
    } else {
        g.len()
    };
    Seq::new(n, |i: int| word_at(a, i) == word_at(g, i))
}

/// Slot by slot, whether a guessed distribution agrees with the actual one.
pub fn slot_agreement(actual: &str, guessed: &str) -> (r: Vec<bool>)
    ensures
        r@ == slot_agreement_spec(actual@, guessed@),
{
    let a = split_words(chars_of(actual).as_slice());
    let g = split_words(chars_of(guessed).as_slice());
    let ghost av = rows(a@);
    let ghost gv = rows(g@);
    let n = if a.len() >= g.len() {
        a.len()
    } else {
        g.len()
    };
    let mut out: Vec<bool> = Vec::new();
    let mut i: usize = 0;
    while i < n
        invariant
            i <= n,
            av == rows(a@),
            gv == rows(g@),
            av == words(actual@),
            gv == words(guessed@),
            n == if av.len() >= gv.len() {
                av.len()
            } else {
                gv.len()
            },
            out@ =~= Seq::new(i as nat, |k: int| word_at(av, k) == word_at(gv, k)),
        decreases n - i,
    {
        let same = if i < a.len() && i < g.len() {
            chars_eq(a[i].as_slice(), g[i].as_slice())
        } else {
            !(i < a.len()) && !(i < g.len())
        };
        assert(same == (word_at(av, i as int) == word_at(gv, i as int)));
        out.push(same);
        i = i + 1;
    }
    out
}

} // verus!
