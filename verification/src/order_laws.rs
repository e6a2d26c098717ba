//! The dictionary order is a total preorder: it is reflexive, antisymmetric
//! and transitive, so sorting by it is well defined.

use crate::collation::{
    common_prefix, head_fails, head_graphs, head_order, highest_tone, int_order, is_phrase,
    is_prefix_head,
};
use crate::letters::{
    alphabet_chars, law_letters_follow_alphabet, law_single_letter_text, lemma_alphabet_char_reads,
    letter_rank, lowest_tone_of, Grapheme, Letter,
};
use crate::text::decomposed;
use crate::text::seq_len;
use std::cmp::Ordering;
use vstd::prelude::*;

verus! {

/// `o` read from the other side.
pub open spec fn reversed(o: Ordering) -> Ordering {
    match o {
        Ordering::Less => Ordering::Greater,
        Ordering::Equal => Ordering::Equal,
        Ordering::Greater => Ordering::Less,
    }
}

/// Lexicographic order of two integer sequences from index `i` on, where a
/// proper prefix comes first.
pub open spec fn seq_order(x: Seq<int>, y: Seq<int>, i: int) -> Ordering
    decreases x.len() - i,
{
    if i >= x.len() || i >= y.len() {
        int_order(seq_len(x), seq_len(y))
    } else if x[i] != y[i] {
        int_order(x[i], y[i])
    } else {
        seq_order(x, y, i + 1)
    }
}

/// The letters of a headword as numbers 1 to 27, closed by 0 when the
/// headword is spelled entirely in the alphabet and by 28 when it meets a
/// character outside it.
pub open spec fn spelling(a: Seq<char>) -> Seq<int> {
    head_graphs(a).map_values(|g: Grapheme| letter_rank(g.letter) + 1).push(
        if head_fails(a) {
            28int
        } else {
            0int
        },
    )
}

/// Where a headword falls: single words before phrases, and both before
/// headwords that meet characters outside the alphabet.
pub open spec fn group(a: Seq<char>) -> int {
    (if head_fails(a) {
        2int
    } else {
        0int
    }) + (if is_phrase(a) {
        1int
    } else {
        0int
    })
}

/// The tie-breaker between spellings with the same letters: a prefix comes
/// first, unless the headword meets a character outside the alphabet.
pub open spec fn prefix_rank(a: Seq<char>) -> int {
    if !head_fails(a) && is_prefix_head(a) {
        0
    } else {
        1
    }
}

/// The order of the sort keys of two headwords.
pub open spec fn key_order(a: Seq<char>, b: Seq<char>) -> Ordering {
    if group(a) != group(b) {
        int_order(group(a), group(b))
    } else if seq_order(spelling(a), spelling(b), 0) != Ordering::Equal {
        seq_order(spelling(a), spelling(b), 0)
    } else if prefix_rank(a) != prefix_rank(b) {
        int_order(prefix_rank(a), prefix_rank(b))
    } else {
        int_order(
            highest_tone(head_graphs(a), seq_len(head_graphs(a))),
            highest_tone(head_graphs(b), seq_len(head_graphs(b))),
        )
    }
}

/// The letter at a given position of the alphabet.
pub open spec fn letter_at(r: int) -> Letter {
    if r == 0 {
        Letter::Aomoi
    } else if r == 1 {
        Letter::A
    } else if r == 2 {
        Letter::B
    } else if r == 3 {
        Letter::C
    } else if r == 4 {
        Letter::Ch
    } else if r == 5 {
        Letter::D
    } else if r == 6 {
        Letter::E
    } else if r == 7 {
        Letter::F
    } else if r == 8 {
        Letter::G
    } else if r == 9 {
        Letter::H
    } else if r == 10 {
        Letter::I
    } else if r == 11 {
        Letter::J
    } else if r == 12 {
        Letter::K
    } else if r == 13 {
        Letter::L
    } else if r == 14 {
        Letter::M
    } else if r == 15 {
        Letter::N
    } else if r == 16 {
        Letter::Nh
    } else if r == 17 {
        Letter::O
    } else if r == 18 {
        Letter::P
    } else if r == 19 {
        Letter::Q
    } else if r == 20 {
        Letter::R
    } else if r == 21 {
        Letter::S
    } else if r == 22 {
        Letter::Sh
    } else if r == 23 {
        Letter::T
    } else if r == 24 {
        Letter::U
    } else if r == 25 {
        Letter::V
    } else {
        Letter::Z
    }
}

proof fn lemma_rank_inverse(l: Letter)
    ensures
        letter_at(letter_rank(l)) == l,
        0 <= letter_rank(l) <= 26,
{
}

proof fn lemma_rank_injective(x: Letter, y: Letter)
    ensures
        letter_rank(x) == letter_rank(y) ==> x == y,
        0 <= letter_rank(x) <= 26,
        0 <= letter_rank(y) <= 26,
{
    lemma_rank_inverse(x);
    lemma_rank_inverse(y);
}

pub(crate) proof fn lemma_seq_reflexive(x: Seq<int>, i: int)
    ensures
        seq_order(x, x, i) == Ordering::Equal,
    decreases x.len() - i,
{
    if i < x.len() {
        lemma_seq_reflexive(x, i + 1);
    }
}

pub(crate) proof fn lemma_seq_antisymmetric(x: Seq<int>, y: Seq<int>, i: int)
    ensures
        seq_order(x, y, i) == reversed(seq_order(y, x, i)),
    decreases x.len() - i,
{
    if i < x.len() && i < y.len() && x[i] == y[i] {
        lemma_seq_antisymmetric(x, y, i + 1);
    }
}

pub(crate) proof fn lemma_seq_transitive(x: Seq<int>, y: Seq<int>, z: Seq<int>, i: int)
    requires
        seq_order(x, y, i) != Ordering::Greater,
        seq_order(y, z, i) != Ordering::Greater,
    ensures
        seq_order(x, z, i) != Ordering::Greater,
        seq_order(x, y, i) == Ordering::Less ==> seq_order(x, z, i) == Ordering::Less,
        seq_order(y, z, i) == Ordering::Less ==> seq_order(x, z, i) == Ordering::Less,
    decreases x.len() - i,
{
    if i < x.len() && i < y.len() && i < z.len() && x[i] == y[i] && y[i] == z[i] {
        lemma_seq_transitive(x, y, z, i + 1);
    }
}

/// Walking the common prefix of two spellings.
proof fn lemma_spelling_prefix(a: Seq<char>, b: Seq<char>, i: int)
    requires
        0 <= i <= head_graphs(a).len(),
        i <= head_graphs(b).len(),
    ensures
        seq_order(spelling(a), spelling(b), i) == seq_order(
            spelling(a),
            spelling(b),
            common_prefix(head_graphs(a), head_graphs(b), i),
        ),
        i <= common_prefix(head_graphs(a), head_graphs(b), i) <= head_graphs(a).len(),
        common_prefix(head_graphs(a), head_graphs(b), i) <= head_graphs(b).len(),
        common_prefix(
            head_graphs(a),
            head_graphs(b),
            common_prefix(head_graphs(a), head_graphs(b), i),
        ) == common_prefix(head_graphs(a), head_graphs(b), i),
    decreases head_graphs(a).len() - i,
{
    let ga = head_graphs(a);
    let gb = head_graphs(b);
    if i < ga.len() && i < gb.len() && ga[i].letter == gb[i].letter {
        assert(spelling(a)[i] == spelling(b)[i]);
        lemma_spelling_prefix(a, b, i + 1);
    }
}

/// The dictionary order is the order of the sort keys.
proof fn lemma_head_order_is_key_order(a: Seq<char>, b: Seq<char>)
    ensures
        head_order(a, b) == key_order(a, b),
{
    reveal(head_order);
    let ga = head_graphs(a);
    let gb = head_graphs(b);
    let sa = spelling(a);
    let sb = spelling(b);
    lemma_spelling_prefix(a, b, 0);
    let k = common_prefix(ga, gb, 0);
    assert(sa.len() == ga.len() + 1);
    assert(sb.len() == gb.len() + 1);
    if k < ga.len() && k < gb.len() {
        lemma_rank_injective(ga[k].letter, gb[k].letter);
        assert(sa[k] == letter_rank(ga[k].letter) + 1);
        assert(sb[k] == letter_rank(gb[k].letter) + 1);
        if ga[k].letter == gb[k].letter {
            lemma_spelling_prefix(a, b, k + 1);
        }
        assert(ga[k].letter != gb[k].letter);
        assert(seq_order(sa, sb, k) == int_order(sa[k], sb[k]));
        assert(head_order(a, b) == key_order(a, b));
    } else if k == ga.len() && k < gb.len() {
        lemma_rank_injective(gb[k].letter, gb[k].letter);
        assert(sa[k] == (if head_fails(a) {
            28int
        } else {
            0int
        }));
        assert(sb[k] == letter_rank(gb[k].letter) + 1);
        assert(seq_order(sa, sb, k) == int_order(sa[k], sb[k]));
        assert(head_order(a, b) == key_order(a, b));
    } else if k < ga.len() && k == gb.len() {
        lemma_rank_injective(ga[k].letter, ga[k].letter);
        assert(sb[k] == (if head_fails(b) {
            28int
        } else {
            0int
        }));
        assert(sa[k] == letter_rank(ga[k].letter) + 1);
        assert(seq_order(sa, sb, k) == int_order(sa[k], sb[k]));
        assert(head_order(a, b) == key_order(a, b));
    } else {
        assert(sa[k] == (if head_fails(a) {
            28int
        } else {
            0int
        }));
        assert(sb[k] == (if head_fails(b) {
            28int
        } else {
            0int
        }));
        if head_fails(a) == head_fails(b) {
            assert(seq_order(sa, sb, k) == seq_order(sa, sb, k + 1));
            assert(seq_order(sa, sb, k) == Ordering::Equal);
        }
        assert(head_order(a, b) == key_order(a, b));
    }
}

/// Every headword is in order with itself.
pub proof fn law_order_reflexive(a: Seq<char>)
    ensures
        head_order(a, a) == Ordering::Equal,
{
    lemma_head_order_is_key_order(a, a);
    lemma_seq_reflexive(spelling(a), 0);
}

/// Comparing `b` with `a` gives the reverse of comparing `a` with `b`.
pub proof fn law_order_antisymmetric(a: Seq<char>, b: Seq<char>)
    ensures
        head_order(a, b) == reversed(head_order(b, a)),
{
    lemma_head_order_is_key_order(a, b);
    lemma_head_order_is_key_order(b, a);
    lemma_seq_antisymmetric(spelling(a), spelling(b), 0);
}

/// If `a` does not come after `b`, nor `b` after `c`, then `a` does not come
/// after `c`; and if either step is strict, so is the whole.
pub proof fn law_order_transitive(a: Seq<char>, b: Seq<char>, c: Seq<char>)
    requires
        head_order(a, b) != Ordering::Greater,
        head_order(b, c) != Ordering::Greater,
    ensures
        head_order(a, c) != Ordering::Greater,
        head_order(a, b) == Ordering::Less ==> head_order(a, c) == Ordering::Less,
        head_order(b, c) == Ordering::Less ==> head_order(a, c) == Ordering::Less,
{
    lemma_head_order_is_key_order(a, b);
    lemma_head_order_is_key_order(b, c);
    lemma_head_order_is_key_order(a, c);
    let (sa, sb, sc) = (spelling(a), spelling(b), spelling(c));
    if group(a) == group(b) && group(b) == group(c) {
        lemma_seq_transitive(sa, sb, sc, 0);
        lemma_seq_antisymmetric(sa, sb, 0);
        lemma_seq_antisymmetric(sb, sc, 0);
        lemma_seq_antisymmetric(sa, sc, 0);
    }
}

/// Headwords of one alphabet character each sort in alphabet order: the
/// one whose character comes earlier in the alphabet comes first, so `k`
/// sorts after `g`.
pub proof fn law_single_letters_in_alphabet_order(i: int, j: int)
    requires
        0 <= i < j < alphabet_chars().len(),
    ensures
        head_order(seq![alphabet_chars()[i]], seq![alphabet_chars()[j]]) == Ordering::Less,
        head_order(seq![alphabet_chars()[j]], seq![alphabet_chars()[i]]) == Ordering::Greater,
{
    reveal(head_order);
    let a = seq![alphabet_chars()[i]];
    let b = seq![alphabet_chars()[j]];
    lemma_alphabet_char_reads(i);
    lemma_alphabet_char_reads(j);
    law_letters_follow_alphabet(i, j);
    assert(decomposed(a) == a);
    assert(decomposed(b) == b);
    assert(!a.contains('\u{0300}') && !b.contains('\u{0300}'));
    assert(!a.contains(' ') && !b.contains(' '));
    assert(lowest_tone_of(a) == lowest_tone_of(b));
    law_single_letter_text(i, lowest_tone_of(a));
    law_single_letter_text(j, lowest_tone_of(b));
    let ga = head_graphs(a);
    let gb = head_graphs(b);
    assert(ga[0].letter != gb[0].letter);
    assert(common_prefix(ga, gb, 0) == 0);
    assert(common_prefix(gb, ga, 0) == 0);
    assert(!is_phrase(a) && !is_phrase(b));
}

} // verus!
