//! Balancing training examples: the examples of rare labels are repeated
//! until each label has a target number of them.

use crate::features::example_view;
use crate::order_laws::{lemma_seq_antisymmetric, lemma_seq_transitive, reversed, seq_order};
use crate::text::{chars_eq, chars_of, push_chars, rows, string_of, texts};
use crate::tone_sort::{codes, idx, is_equal, is_greater, lemma_seq_equal_is_same, order_of_chars};
use std::cmp::Ordering;
use vstd::prelude::*;

verus! {

/// Whether text `a` comes before text `b` in the order of strings.
pub open spec fn text_before(a: Seq<char>, b: Seq<char>) -> bool {
    seq_order(codes(a), codes(b), 0) == Ordering::Less
}

/// How many of the first `n` examples carry the label `l`.
pub open spec fn label_count(ex: Seq<(Seq<Seq<char>>, Seq<char>)>, l: Seq<char>, n: int) -> nat
    decreases n,
{
    if n <= 0 {
        0
    } else {
        label_count(ex, l, n - 1) + if ex[n - 1].1 == l {
            1nat
        } else {
            0nat
        }
    }
}

/// The positions among the first `n` examples of those labelled `l`.
pub open spec fn labelled(ex: Seq<(Seq<Seq<char>>, Seq<char>)>, l: Seq<char>, n: int) -> Seq<int>
    decreases n,
{
    if n <= 0 {
        Seq::empty()
    } else if ex[n - 1].1 == l {
        labelled(ex, l, n - 1).push(n - 1)
    } else {
        labelled(ex, l, n - 1)
    }
}

/// Whether `ls` lists the labels of the examples once each, in the order of
/// strings.
pub open spec fn sorted_labels(ex: Seq<(Seq<Seq<char>>, Seq<char>)>, ls: Seq<Seq<char>>) -> bool {
    &&& forall|a: int, b: int| 0 <= a < b < ls.len() ==> text_before(#[trigger] ls[a], #[trigger] ls[b])
    &&& forall|l: Seq<char>| #[trigger] ls.contains(l) <==> label_count(ex, l, ex.len() as int) > 0
}

/// The examples added for label `l` to reach `target`: its examples in
/// turn, from the first, as often as it falls short.
pub open spec fn extra_for(ex: Seq<(Seq<Seq<char>>, Seq<char>)>, l: Seq<char>, target: int) -> Seq<
    (Seq<Seq<char>>, Seq<char>),
> {
    let c = label_count(ex, l, ex.len() as int);
    let mine = labelled(ex, l, ex.len() as int);
    if c >= target {
        Seq::empty()
    } else {
        Seq::new((target - c) as nat, |i: int| ex[mine[i % (c as int)]])
    }
}

/// The examples added for the first `k` labels of `ls`.
pub open spec fn extras_upto(
    ex: Seq<(Seq<Seq<char>>, Seq<char>)>,
    ls: Seq<Seq<char>>,
    target: int,
    k: int,
) -> Seq<(Seq<Seq<char>>, Seq<char>)>
    decreases k,
{
    if k <= 0 {
        Seq::empty()
    } else {
        extras_upto(ex, ls, target, k - 1) + extra_for(ex, ls[k - 1], target)
    }
}

/// The examples as values.
pub open spec fn example_views(v: Seq<(Vec<String>, String)>) -> Seq<(Seq<Seq<char>>, Seq<char>)> {
    v.map_values(|e: (Vec<String>, String)| example_view(e))
}

proof fn lemma_count_bound(ex: Seq<(Seq<Seq<char>>, Seq<char>)>, l: Seq<char>, n: int)
    requires
        0 <= n <= ex.len(),
    ensures
        label_count(ex, l, n) <= n,
        label_count(ex, l, n) == labelled(ex, l, n).len(),
        forall|i: int|
            0 <= i < labelled(ex, l, n).len() ==> 0 <= #[trigger] labelled(ex, l, n)[i] < n
                && ex[labelled(ex, l, n)[i]].1 == l,
    decreases n,
{
    if n > 0 {
        lemma_count_bound(ex, l, n - 1);
    }
}

proof fn lemma_count_positive(ex: Seq<(Seq<Seq<char>>, Seq<char>)>, l: Seq<char>, n: int, i: int)
    requires
        0 <= i < n <= ex.len(),
        ex[i].1 == l,
    ensures
        label_count(ex, l, n) > 0,
    decreases n,
{
    if i < n - 1 {
        lemma_count_positive(ex, l, n - 1, i);
    }
}

proof fn lemma_count_zero(ex: Seq<(Seq<Seq<char>>, Seq<char>)>, l: Seq<char>, n: int)
    requires
        0 <= n <= ex.len(),
        label_count(ex, l, n) > 0,
    ensures
        exists|i: int| 0 <= i < n && #[trigger] ex[i].1 == l,
    decreases n,
{
    if ex[n - 1].1 != l {
        lemma_count_zero(ex, l, n - 1);
    } else {
        assert(ex[n - 1].1 == l);
    }
}

proof fn lemma_codes_equal(a: Seq<char>, b: Seq<char>)
    requires
        seq_order(codes(a), codes(b), 0) == Ordering::Equal,
    ensures
        a == b,
{
    lemma_seq_equal_is_same(codes(a), codes(b), 0);
    assert forall|j: int| 0 <= j < a.len() implies a[j] == b[j] by {
        assert(codes(a)[j] == codes(b)[j]);
    }
    assert(a =~= b);
}

proof fn lemma_text_total(a: Seq<char>, b: Seq<char>)
    ensures
        text_before(a, b) || text_before(b, a) || a == b,
        !(text_before(a, b) && text_before(b, a)),
{
    lemma_seq_antisymmetric(codes(a), codes(b), 0);
    if seq_order(codes(a), codes(b), 0) == Ordering::Equal {
        lemma_codes_equal(a, b);
    }
}

proof fn lemma_text_transitive(a: Seq<char>, b: Seq<char>, c: Seq<char>)
    requires
        text_before(a, b),
        text_before(b, c),
    ensures
        text_before(a, c),
{
    lemma_seq_transitive(codes(a), codes(b), codes(c), 0);
}

/// Where `label` goes among the sorted `labels`: the first position whose
/// label does not come before it, and whether that label is `label`.
fn find_label(labels: &Vec<Vec<char>>, label: &Vec<char>) -> (r: (usize, bool))
    requires
        forall|a: int, b: int|
            0 <= a < b < labels@.len() ==> text_before(#[trigger] labels@[a]@, #[trigger] labels@[b]@),
    ensures
        r.0 <= labels@.len(),
        forall|a: int| 0 <= a < r.0 ==> text_before(#[trigger] labels@[a]@, label@),
        r.1 == (r.0 < labels@.len() && labels@[idx(r.0)]@ == label@),
        r.0 < labels@.len() && !r.1 ==> text_before(label@, labels@[idx(r.0)]@),
{
    let mut pos: usize = 0;
    while pos < labels.len() && is_greater(order_of_chars(label.as_slice(), labels[pos].as_slice()))
        invariant
            pos <= labels@.len(),
            forall|a: int| 0 <= a < pos ==> text_before(#[trigger] labels@[a]@, label@),
        decreases labels.len() - pos,
    {
        proof {
            lemma_seq_antisymmetric(codes(label@), codes(labels@[idx(pos)]@), 0);
        }
        pos = pos + 1;
    }
    if pos < labels.len() {
        let o = order_of_chars(label.as_slice(), labels[pos].as_slice());
        proof {
            lemma_seq_antisymmetric(codes(label@), codes(labels@[idx(pos)]@), 0);
        }
        if is_equal(o) {
            proof {
                lemma_codes_equal(label@, labels@[idx(pos)]@);
            }
            return (pos, true);
        }
        assert(text_before(label@, labels@[idx(pos)]@));
        proof {
            lemma_text_total(label@, labels@[idx(pos)]@);
        }
        (pos, false)
    } else {
        (pos, false)
    }
}

/// The labels of the examples in the order of strings, each with how many
/// examples carry it.
fn label_counts(examples: &Vec<(Vec<String>, String)>) -> (r: (Vec<Vec<char>>, Vec<usize>))
    ensures
        r.0@.len() == r.1@.len(),
        r.0@.len() <= examples@.len(),
        sorted_labels(example_views(examples@), rows(r.0@)),
        forall|j: int|
            0 <= j < r.1@.len() ==> #[trigger] r.1@[j] as nat == label_count(
                example_views(examples@),
                r.0@[j]@,
                examples@.len() as int,
            ),
{
    let ghost ex = example_views(examples@);
    let mut labels: Vec<Vec<char>> = Vec::new();
    let mut counts: Vec<usize> = Vec::new();
    let mut i: usize = 0;
    while i < examples.len()
        invariant
            i <= examples@.len(),
            ex == example_views(examples@),
            labels@.len() == counts@.len(),
            labels@.len() <= i,
            forall|a: int, b: int|
                0 <= a < b < labels@.len() ==> text_before(#[trigger] labels@[a]@, #[trigger] labels@[b]@),
            forall|l: Seq<char>| #[trigger] rows(labels@).contains(l) <==> label_count(ex, l, i as int) > 0,
            forall|j: int|
                0 <= j < counts@.len() ==> #[trigger] counts@[j] as nat == label_count(
                    ex,
                    labels@[j]@,
                    i as int,
                ),
        decreases examples.len() - i,
    {
        let label = chars_of(examples[i].1.as_str());
        assert(ex[i as int].1 == label@);
        let (pos, found) = find_label(&labels, &label);
        let ghost before_labels = labels@;
        let ghost before_counts = counts@;
        let ghost lv = rows(labels@);
        proof {
            lemma_count_bound(ex, label@, i as int);
        }
        if found {
            let c = counts[pos] + 1;
            counts.set(pos, c);
            assert forall|j: int| 0 <= j < counts@.len() implies #[trigger] counts@[j] as nat
                == label_count(ex, labels@[j]@, i + 1) by {
                if j != pos {
                    assert(labels@[j]@ != label@) by {
                        if j < pos {
                            lemma_text_total(labels@[j]@, label@);
                        } else {
                            assert(text_before(labels@[pos as int]@, labels@[j]@));
                            lemma_text_total(labels@[pos as int]@, labels@[j]@);
                        }
                    }
                }
            }
            assert forall|l: Seq<char>| #[trigger] rows(labels@).contains(l) <==> label_count(
                ex,
                l,
                i + 1,
            ) > 0 by {
                if l == label@ {
                    assert(rows(labels@)[pos as int] == l);
                }
            }
        } else {
            proof {
                assert(!lv.contains(label@)) by {
                    if lv.contains(label@) {
                        let m = choose|m: int| 0 <= m < lv.len() && #[trigger] lv[m] == label@;
                        if m < pos {
                            lemma_text_total(labels@[m]@, label@);
                        } else {
                            if m > pos {
                                assert(text_before(labels@[pos as int]@, labels@[m]@));
                                lemma_text_transitive(label@, labels@[pos as int]@, labels@[m]@);
                            }
                            lemma_text_total(label@, labels@[m]@);
                        }
                    }
                }
            }
            labels.insert(pos, label);
            counts.insert(pos, 1);
            assert(rows(labels@) =~= lv.insert(pos as int, label@));
            assert forall|a: int, b: int| 0 <= a < b < labels@.len() implies text_before(
                #[trigger] labels@[a]@,
                #[trigger] labels@[b]@,
            ) by {
                if b < pos {
                    assert(labels@[a] == before_labels[a] && labels@[b] == before_labels[b]);
                } else if b == pos {
                    assert(labels@[a] == before_labels[a]);
                } else if a == pos {
                    assert(labels@[b] == before_labels[b - 1]);
                    if b - 1 > pos {
                        lemma_text_transitive(
                            label@,
                            before_labels[pos as int]@,
                            before_labels[b - 1]@,
                        );
                    }
                } else if a < pos {
                    assert(labels@[a] == before_labels[a] && labels@[b] == before_labels[b - 1]);
                    if b - 1 > pos {
                        lemma_text_transitive(
                            label@,
                            before_labels[pos as int]@,
                            before_labels[b - 1]@,
                        );
                    }
                    lemma_text_transitive(before_labels[a]@, label@, before_labels[b - 1]@);
                } else {
                    assert(labels@[a] == before_labels[a - 1] && labels@[b] == before_labels[b - 1]);
                }
            }
            assert forall|j: int| 0 <= j < counts@.len() implies #[trigger] counts@[j] as nat
                == label_count(ex, labels@[j]@, i + 1) by {
                if j < pos {
                    assert(counts@[j] == before_counts[j] && labels@[j] == before_labels[j]);
                    assert(lv[j] != label@);
                } else if j > pos {
                    assert(counts@[j] == before_counts[j - 1] && labels@[j] == before_labels[j - 1]);
                    assert(lv[j - 1] != label@);
                } else {
                    assert(label_count(ex, label@, i as int) == 0) by {
                        if label_count(ex, label@, i as int) > 0 {
                            assert(lv.contains(label@));
                        }
                    }
                }
            }
            assert forall|l: Seq<char>| #[trigger] rows(labels@).contains(l) <==> label_count(
                ex,
                l,
                i + 1,
            ) > 0 by {
                if l == label@ {
                    assert(rows(labels@)[pos as int] == l);
                } else {
                    if rows(labels@).contains(l) {
                        let m = choose|m: int| 0 <= m < rows(labels@).len() && #[trigger] rows(labels@)[m] == l;
                        if m < pos {
                            assert(lv[m] == l);
                        } else {
                            assert(lv[m - 1] == l);
                        }
                    }
                    if lv.contains(l) {
                        let m = choose|m: int| 0 <= m < lv.len() && #[trigger] lv[m] == l;
                        if m < pos {
                            assert(rows(labels@)[m] == l);
                        } else {
                            assert(rows(labels@)[m + 1] == l);
                        }
                    }
                }
            }
        }
        i = i + 1;
    }
    (labels, counts)
}

fn copy_example(e: &(Vec<String>, String)) -> (r: (Vec<String>, String))
    ensures
        example_view(r) == example_view(*e),
{
    let mut features: Vec<String> = Vec::new();
    let mut k: usize = 0;
    while k < e.0.len()
        invariant
            k <= e.0@.len(),
            texts(features@) == texts(e.0@).take(k as int),
        decreases e.0.len() - k,
    {
        let ghost before = texts(features@);
        features.push(string_of(chars_of(e.0[k].as_str()).as_slice()));
        assert(texts(e.0@).take(k + 1) =~= texts(e.0@).take(k as int).push(e.0@[k as int]@));
        assert(texts(features@) =~= before.push(e.0@[k as int]@));
        k = k + 1;
    }
    assert(texts(e.0@).take(e.0@.len() as int) =~= texts(e.0@));
    (features, string_of(chars_of(e.1.as_str()).as_slice()))
}

/// How many examples the most frequent label has (1 without examples).
pub fn largest_label_count(examples: &Vec<(Vec<String>, String)>) -> (r: usize)
    ensures
        examples@.len() == 0 ==> r == 1,
        examples@.len() > 0 ==> exists|i: int|
            0 <= i < examples@.len() && r == label_count(
                example_views(examples@),
                #[trigger] example_views(examples@)[i].1,
                examples@.len() as int,
            ),
        forall|i: int|
            0 <= i < examples@.len() ==> label_count(
                example_views(examples@),
                #[trigger] example_views(examples@)[i].1,
                examples@.len() as int,
            ) <= r,
{
    let ghost ex = example_views(examples@);
    let (labels, counts) = label_counts(examples);
    if counts.len() == 0 {
        proof {
            if ex.len() > 0 {
                lemma_count_positive(ex, ex[0].1, ex.len() as int, 0);
                assert(rows(labels@).contains(ex[0].1));
            }
        }
        return 1;
    }
    let mut best: usize = counts[0];
    let mut at: usize = 0;
    let mut j: usize = 1;
    while j < counts.len()
        invariant
            1 <= j <= counts@.len(),
            at < j,
            best == counts@[at as int],
            forall|a: int| 0 <= a < j ==> #[trigger] counts@[a] <= best,
        decreases counts.len() - j,
    {
        if counts[j] > best {
            best = counts[j];
            at = j;
        }
        j = j + 1;
    }
    proof {
        let lv = rows(labels@);
        assert(lv.contains(lv[at as int]));
        lemma_count_zero(ex, lv[at as int], ex.len() as int);
        let w = choose|i: int| 0 <= i < ex.len() && #[trigger] ex[i].1 == lv[at as int];
        assert(best == label_count(ex, ex[w].1, ex.len() as int));
        assert forall|i: int| 0 <= i < ex.len() implies label_count(ex, #[trigger] ex[i].1, ex.len() as int)
            <= best by {
            lemma_count_positive(ex, ex[i].1, ex.len() as int, i);
            assert(lv.contains(ex[i].1));
            let m = choose|m: int| 0 <= m < lv.len() && #[trigger] lv[m] == ex[i].1;
            assert(counts@[m] <= best);
        }
    }
    best
}

/// The examples, followed, for each label in the order of strings that has
/// fewer than `target` examples, by its examples in turn until it has
/// `target`.
pub fn oversample_to(examples: &Vec<(Vec<String>, String)>, target: usize) -> (r: Vec<
    (Vec<String>, String),
>)
    requires
        examples@.len() + target * examples@.len() <= usize::MAX,
    ensures
        exists|ls: Seq<Seq<char>>|
            sorted_labels(example_views(examples@), ls) && example_views(r@) == example_views(
                examples@,
            ) + extras_upto(example_views(examples@), ls, target as int, ls.len() as int),
{
    let ghost ex = example_views(examples@);
    let (labels, counts) = label_counts(examples);
    let ghost ls = rows(labels@);
    let mut out: Vec<(Vec<String>, String)> = Vec::new();
    let mut i: usize = 0;
    while i < examples.len()
        invariant
            i <= examples@.len(),
            ex == example_views(examples@),
            example_views(out@) == ex.take(i as int),
        decreases examples.len() - i,
    {
        let ghost before = example_views(out@);
        out.push(copy_example(&examples[i]));
        assert(ex.take(i + 1) =~= ex.take(i as int).push(ex[i as int]));
        assert(example_views(out@) =~= before.push(ex[i as int]));
        i = i + 1;
    }
    assert(ex.take(ex.len() as int) =~= ex);
    let mut j: usize = 0;
    while j < labels.len()
        invariant
            j <= labels@.len(),
            labels@.len() == counts@.len(),
            ex == example_views(examples@),
            ls == rows(labels@),
            sorted_labels(ex, ls),
            forall|a: int| 0 <= a < counts@.len() ==> #[trigger] counts@[a] as nat == label_count(ex, ls[a], ex.len() as int),
            example_views(out@) == ex + extras_upto(ex, ls, target as int, j as int),
            out@.len() <= ex.len() + j * target,
            labels@.len() <= ex.len(),
            examples@.len() + target * examples@.len() <= usize::MAX,
        decreases labels.len() - j,
    {
        let c = counts[j];
        let ghost l = ls[j as int];
        proof {
            lemma_count_bound(ex, l, ex.len() as int);
        }
        if c < target {
            let label = &labels[j];
            let mut mine: Vec<usize> = Vec::new();
            let mut k: usize = 0;
            while k < examples.len()
                invariant
                    k <= examples@.len(),
                    ex == example_views(examples@),
                    label@ == l,
                    mine@.map_values(|x: usize| x as int) == labelled(ex, l, k as int),
                    forall|a: int| 0 <= a < mine@.len() ==> #[trigger] mine@[a] < examples@.len(),
                decreases examples.len() - k,
            {
                let lk = chars_of(examples[k].1.as_str());
                if chars_eq(lk.as_slice(), label.as_slice()) {
                    let ghost b = mine@.map_values(|x: usize| x as int);
                    mine.push(k);
                    assert(mine@.map_values(|x: usize| x as int) =~= b.push(k as int));
                }
                k = k + 1;
            }
            let ghost mv = mine@.map_values(|x: usize| x as int);
            assert(mine@.len() == c);
            assert(c > 0) by {
                assert(ls.contains(l));
            }
            let ghost start = example_views(out@);
            let need = target - c;
            let mut t: usize = 0;
            while t < need
                invariant
                    t <= need,
                    need == target - c,
                    c == mine@.len(),
                    c > 0,
                    c as nat == label_count(ex, l, ex.len() as int),
                    mv == mine@.map_values(|x: usize| x as int),
                    mv == labelled(ex, l, ex.len() as int),
                    ex == example_views(examples@),
                    forall|a: int| 0 <= a < mine@.len() ==> #[trigger] mine@[a] < examples@.len(),
                    example_views(out@) == start + Seq::new(t as nat, |q: int| ex[mv[q % (c as int)]]),
                    out@.len() == start.len() + t,
                decreases need - t,
            {
                let src = mine[t % c];
                assert(src as int == mv[(t as int) % (c as int)]);
                let ghost before = example_views(out@);
                out.push(copy_example(&examples[src]));
                assert(example_views(out@) =~= before.push(ex[src as int]));
                assert(example_views(out@) =~= start + Seq::new((t + 1) as nat, |q: int| ex[mv[q % (c as int)]]));
                t = t + 1;
            }
            assert(Seq::new(need as nat, |q: int| ex[mv[q % (c as int)]]) =~= extra_for(ex, l, target as int));
            proof {
                assert(j * target + target == (j + 1) * target) by (nonlinear_arith);
            }
        } else {
            assert(extra_for(ex, l, target as int) =~= Seq::<(Seq<Seq<char>>, Seq<char>)>::empty());
            proof {
                assert(j * target <= (j + 1) * target) by (nonlinear_arith);
            }
        }
        assert(example_views(out@) =~= ex + extras_upto(ex, ls, target as int, j + 1));
        proof {
            assert((j + 1) * target <= ex.len() * target) by (nonlinear_arith)
                requires j + 1 <= ex.len();
        }
        j = j + 1;
    }
    out
}

} // verus!
