//! The dictionary order of entries, by their headwords.

use crate::letters::{
    fail_scan, graphs_from, letter_rank, lemma_next_advances, lowest_tone_of, next_spec,
    tone_rank, GraphResult, Grapheme, GraphsIter,
};
use crate::text::{chars_of, contains_char, decomposed};
use crate::toadua::{Toa, ToaView};
use itertools::Itertools;
use std::cmp::Ordering;
use vstd::prelude::*;

verus! {

/// The graphemes of a headword, up to its end or its first character outside
/// the alphabet.
pub open spec fn head_graphs(head: Seq<char>) -> Seq<Grapheme> {
    graphs_from(decomposed(head), 0, lowest_tone_of(head))
}

/// Whether a headword holds a character outside the alphabet.
pub open spec fn head_fails(head: Seq<char>) -> bool {
    fail_scan(decomposed(head), 0, lowest_tone_of(head)).0
}

/// Whether a headword is a phrase of several words.
pub open spec fn is_phrase(head: Seq<char>) -> bool {
    head.contains(' ')
}

/// Whether a headword is a prefix, written with a trailing hyphen.
pub open spec fn is_prefix_head(head: Seq<char>) -> bool {
    head.len() > 0 && head.last() == '-'
}

/// The length of the longest common prefix of the letters of `a` and `b`,
/// counted from `i`.
pub open spec fn common_prefix(a: Seq<Grapheme>, b: Seq<Grapheme>, i: int) -> int
    decreases a.len() - i,
{
    if 0 <= i < a.len() && i < b.len() && a[i].letter == b[i].letter {
        common_prefix(a, b, i + 1)
    } else {
        i
    }
}

/// The weight of a grapheme's tone, with the underdot as the lesser digit.
pub open spec fn tone_weight(g: Grapheme) -> int {
    2 * tone_rank(g.tone) + if g.underdot {
        1int
    } else {
        0int
    }
}

/// The greatest tone weight among the first `n` graphemes of `gs` (0 when
/// there are none).
pub open spec fn highest_tone(gs: Seq<Grapheme>, n: int) -> int
    decreases n,
{
    if n <= 0 {
        0
    } else {
        let rest = highest_tone(gs, n - 1);
        let w = tone_weight(gs[n - 1]);
        if w > rest {
            w
        } else {
            rest
        }
    }
}

/// The order of two integers.
pub open spec fn int_order(x: int, y: int) -> Ordering {
    if x < y {
        Ordering::Less
    } else if x == y {
        Ordering::Equal
    } else {
        Ordering::Greater
    }
}

/// The dictionary order of two headwords.
///
/// Single words come before phrases, except that a word holding a character
/// outside the alphabet comes after a phrase that holds none.  Otherwise the
/// letters decide, read in alphabet order; a headword that meets a character
/// outside the alphabet sorts after one that does not, and a headword that
/// ends earlier sorts first.  Between headwords with the same letters, a
/// prefix (trailing hyphen) comes first, and then the highest tone decides.
#[verifier::opaque]
pub open spec fn head_order(a: Seq<char>, b: Seq<char>) -> Ordering {
    let ga = head_graphs(a);
    let gb = head_graphs(b);
    let fa = head_fails(a);
    let fb = head_fails(b);
    if is_phrase(a) && !is_phrase(b) {
        if fb && !fa {
            Ordering::Less
        } else {
            Ordering::Greater
        }
    } else if is_phrase(b) && !is_phrase(a) {
        if fa && !fb {
            Ordering::Greater
        } else {
            Ordering::Less
        }
    } else {
        let k = common_prefix(ga, gb, 0);
        let ta = highest_tone(ga, k);
        let tb = highest_tone(gb, k);
        if k == ga.len() && k == gb.len() {
            if fa && fb {
                int_order(ta, tb)
            } else if fa {
                Ordering::Greater
            } else if fb {
                Ordering::Less
            } else if is_prefix_head(a) && !is_prefix_head(b) {
                Ordering::Less
            } else if is_prefix_head(b) && !is_prefix_head(a) {
                Ordering::Greater
            } else {
                int_order(ta, tb)
            }
        } else if k == ga.len() {
            if fa {
                Ordering::Greater
            } else {
                Ordering::Less
            }
        } else if k == gb.len() {
            if fb {
                Ordering::Less
            } else {
                Ordering::Greater
            }
        } else {
            let ord = int_order(letter_rank(ga[k].letter), letter_rank(gb[k].letter));
            if fa && fb {
                ord
            } else if fa {
                Ordering::Greater
            } else if fb {
                Ordering::Less
            } else {
                ord
            }
        }
    }
}

/// One segmentation step, seen against the whole run of graphemes.
pub proof fn lemma_step(chars: Seq<char>, pos: int, lowest: crate::letters::Tone)
    requires
        0 <= pos,
    ensures
        ({
            let (r, p2) = next_spec(chars, pos, lowest);
            let gs = graphs_from(chars, pos, lowest);
            &&& 0 <= p2
            &&& (r is Graph <==> gs.len() > 0)
            &&& (r is Graph ==> {
                &&& r->Graph_0 == gs[0]
                &&& graphs_from(chars, p2, lowest) == gs.drop_first()
                &&& fail_scan(chars, p2, lowest).0 == fail_scan(chars, pos, lowest).0
            })
            &&& (r is Invalid ==> fail_scan(chars, pos, lowest).0)
            &&& (r is Finished ==> !fail_scan(chars, pos, lowest).0)
        }),
{
    lemma_next_advances(chars, pos, lowest);
    let (r, p2) = next_spec(chars, pos, lowest);
    let gs = graphs_from(chars, pos, lowest);
    if r is Graph {
        assert(gs == seq![r->Graph_0] + graphs_from(chars, p2, lowest));
        assert(gs.drop_first() =~= graphs_from(chars, p2, lowest));
    }
}

/// Extending a common prefix by one agreeing letter.
pub proof fn lemma_common_prefix_step(a: Seq<Grapheme>, b: Seq<Grapheme>, i: int)
    requires
        0 <= i < a.len(),
        i < b.len(),
        a[i].letter == b[i].letter,
    ensures
        common_prefix(a, b, i) == common_prefix(a, b, i + 1),
{
}

impl Toa {
    /// Compares two entries in dictionary order of their headwords.
    pub fn cmp(&self, other: &Self) -> (r: Ordering)
        ensures
            r == head_order(self.head@, other.head@),
    {
        let self_chars = chars_of(&self.head);
        let other_chars = chars_of(&other.head);
        let mut self_iter = GraphsIter::new(&self.head);
        let mut other_iter = GraphsIter::new(&other.head);
        let ghost ga = head_graphs(self.head@);
        let ghost gb = head_graphs(other.head@);
        let ghost fa = head_fails(self.head@);
        let ghost fb = head_fails(other.head@);

        let self_phrase = contains_char(&self_chars, ' ');
        let other_phrase = contains_char(&other_chars, ' ');
        // Move example phrases to the end of the list
        if self_phrase && !other_phrase {
            proof {
                reveal(head_order);
            }
            if other_iter.will_fail() && !self_iter.will_fail() {
                return Ordering::Less;
            }
            return Ordering::Greater;
        }
        if other_phrase && !self_phrase {
            proof {
                reveal(head_order);
            }
            if self_iter.will_fail() && !other_iter.will_fail() {
                return Ordering::Greater;
            }
            return Ordering::Less;
        }

        let mut self_highest: u8 = 0;
        let mut other_highest: u8 = 0;
        let ghost mut i: int = 0;
        assert(ga.skip(0) =~= ga);
        assert(gb.skip(0) =~= gb);
        let mut self_end = GraphResult::Finished;
        let mut other_end = GraphResult::Finished;

        loop
            invariant_except_break
                graphs_from(self_iter.text(), self_iter.position(), self_iter.lowest()) == ga.skip(
                    i,
                ),
                graphs_from(other_iter.text(), other_iter.position(), other_iter.lowest())
                    == gb.skip(i),
                fail_scan(self_iter.text(), self_iter.position(), self_iter.lowest()).0 == fa,
                fail_scan(other_iter.text(), other_iter.position(), other_iter.lowest()).0 == fb,
                common_prefix(ga, gb, i) == common_prefix(ga, gb, 0),
            invariant
                self_iter.text() == decomposed(self.head@),
                self_iter.lowest() == lowest_tone_of(self.head@),
                other_iter.text() == decomposed(other.head@),
                other_iter.lowest() == lowest_tone_of(other.head@),
                0 <= self_iter.position(),
                0 <= other_iter.position(),
                ga == head_graphs(self.head@),
                gb == head_graphs(other.head@),
                fa == head_fails(self.head@),
                fb == head_fails(other.head@),
                0 <= i <= ga.len(),
                i <= gb.len(),
                self_highest == highest_tone(ga, i),
                other_highest == highest_tone(gb, i),
                self_highest <= 9,
                other_highest <= 9,
            ensures
                i == common_prefix(ga, gb, 0),
                (self_end is Graph) == (i < ga.len()),
                (other_end is Graph) == (i < gb.len()),
                self_end is Graph ==> self_end->Graph_0 == ga[i],
                other_end is Graph ==> other_end->Graph_0 == gb[i],
                self_end is Invalid ==> fa,
                self_end is Finished ==> !fa,
                other_end is Invalid ==> fb,
                other_end is Finished ==> !fb,
                self_end is Graph ==> fail_scan(
                    self_iter.text(),
                    self_iter.position(),
                    self_iter.lowest(),
                ).0 == fa,
                other_end is Graph ==> fail_scan(
                    other_iter.text(),
                    other_iter.position(),
                    other_iter.lowest(),
                ).0 == fb,
            decreases ga.len() - i,
        {
            proof {
                lemma_step(self_iter.text(), self_iter.position(), self_iter.lowest());
                lemma_step(other_iter.text(), other_iter.position(), other_iter.lowest());
            }
            let self_letter = self_iter.next();
            let other_letter = other_iter.next();
            let same = match (&self_letter, &other_letter) {
                (GraphResult::Graph(x), GraphResult::Graph(y)) => x.letter == y.letter,
                _ => false,
            };
            if !same {
                self_end = self_letter;
                other_end = other_letter;
                break;
            }
            let (self_graph, other_graph) = match (self_letter, other_letter) {
                (GraphResult::Graph(x), GraphResult::Graph(y)) => (x, y),
                _ => {
                    return Ordering::Equal;
                },
            };
            proof {
                assert(ga[i] == self_graph);
                assert(gb[i] == other_graph);
                lemma_common_prefix_step(ga, gb, i);
                assert(ga.skip(i).drop_first() =~= ga.skip(i + 1));
                assert(gb.skip(i).drop_first() =~= gb.skip(i + 1));
            }
            let sw = 2 * self_graph.tone.rank() + if self_graph.underdot {
                1u8
            } else {
                0u8
            };
            let ow = 2 * other_graph.tone.rank() + if other_graph.underdot {
                1u8
            } else {
                0u8
            };
            if sw > self_highest {
                self_highest = sw;
            }
            if ow > other_highest {
                other_highest = ow;
            }
            proof {
                i = i + 1;
            }
        }
        proof {
            reveal(head_order);
        }
        match (self_end, other_end) {
            (GraphResult::Finished, GraphResult::Finished) => {
                // If two strings reach this point, that means that their letters are identical,
                // so the only way to differentiate is with the tone and whether one is a
                // prefix.
                let n = self_chars.len();
                let m = other_chars.len();
                let self_dash = n > 0 && self_chars[n - 1] == '-';
                let other_dash = m > 0 && other_chars[m - 1] == '-';
                if self_dash && !other_dash {
                    return Ordering::Less;
                }
                if other_dash && !self_dash {
                    return Ordering::Greater;
                }
                tone_order(self_highest, other_highest)
            },
            (GraphResult::Invalid(_), GraphResult::Invalid(_)) => {
                tone_order(self_highest, other_highest)
            },
            (GraphResult::Graph(self_graph), GraphResult::Graph(other_graph)) => {
                let ordering = tone_order(self_graph.letter.rank(), other_graph.letter.rank());
                let self_fails = self_iter.will_fail();
                let other_fails = other_iter.will_fail();

                if self_fails && other_fails {
                    return ordering;
                }
                if self_fails {
                    return Ordering::Greater;
                }
                if other_fails {
                    return Ordering::Less;
                }
                ordering
            },
            // Move failures to the end of the list
            (GraphResult::Invalid(_), _) | (GraphResult::Graph(_), GraphResult::Finished) => {
                Ordering::Greater
            },
            (_, GraphResult::Invalid(_)) | (GraphResult::Finished, GraphResult::Graph(_)) => {
                Ordering::Less
            },
        }
    }
}

/// Whether `p` takes `input` to `out`, an arrangement of it in dictionary
/// order that keeps entries comparing equal in their input order.
pub open spec fn is_stable_sorting(input: Seq<ToaView>, out: Seq<ToaView>, p: Seq<int>) -> bool {
    &&& p.len() == input.len()
    &&& out.len() == input.len()
    &&& forall|i: int| 0 <= i < p.len() ==> 0 <= #[trigger] p[i] < input.len()
    &&& forall|i: int| 0 <= i < p.len() ==> #[trigger] out[i] == input[p[i]]
    &&& forall|i: int, j: int| 0 <= i < j < p.len() ==> p[i] != p[j]
    &&& forall|i: int, j: int|
        0 <= i < j < out.len() ==> head_order(out[i].head, out[j].head) != Ordering::Greater
    &&& forall|i: int, j: int|
        0 <= i < j < out.len() && head_order(out[i].head, out[j].head) == Ordering::Equal
            ==> p[i] < p[j]
}

/// Whether `out` is `input` stably sorted in dictionary order.
pub open spec fn is_stable_sort(input: Seq<ToaView>, out: Seq<ToaView>) -> bool {
    exists|p: Seq<int>| is_stable_sorting(input, out, p)
}

/// The views of a sequence of entries.
pub open spec fn views(v: Seq<Toa>) -> Seq<ToaView> {
    v.map_values(|t: Toa| t@)
}

/// Sorts entries with `Itertools::sorted_by`, comparing with `Toa::cmp`.
/// The crate documents the sort as stable and ascending; `Toa::cmp` computes
/// `head_order`, which `order_laws` proves to be a total preorder, so the
/// result is the stable sort of the input.
#[verifier::external_body]
pub(crate) fn sort_entries(v: Vec<Toa>) -> (r: Vec<Toa>)
    ensures
        is_stable_sort(views(v@), views(r@)),
{
    v.into_iter().sorted_by(Toa::cmp).collect()
}

/// The order of two small numbers.
fn tone_order(x: u8, y: u8) -> (r: Ordering)
    ensures
        x < y ==> r == Ordering::Less,
        x == y ==> r == Ordering::Equal,
        x > y ==> r == Ordering::Greater,
{
    if x < y {
        Ordering::Less
    } else if x == y {
        Ordering::Equal
    } else {
        Ordering::Greater
    }
}

} // verus!
