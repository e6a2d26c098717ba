//! Cross-validation folds that keep the entries of one headword together
//! and spread each label evenly.

use crate::guess_metadata::{deterministic_hash, field_value, fnv1a, Field};
use crate::text::{chars_eq, chars_of};
use crate::toadua::{Toa, ToaView};
use vstd::prelude::*;
use vstd::set_lib::{lemma_int_range, lemma_subset_equality, set_int_range};
use vstd::utf8::encode_utf8;

verus! {

/// The number of folds made of `n` examples when `k` are asked for: at
/// least two, and no more than the examples (or two).
pub open spec fn fold_count(k: int, n: int) -> int {
    let want = if k < 2 {
        2
    } else {
        k
    };
    let most = if n < 2 {
        2
    } else {
        n
    };
    if want < most {
        want
    } else {
        most
    }
}

/// The distinct headwords of the first `n` entries, in order of first
/// appearance.
pub open spec fn heads_upto(ts: Seq<ToaView>, n: int) -> Seq<Seq<char>>
    decreases n,
{
    if n <= 0 {
        Seq::empty()
    } else {
        let hs = heads_upto(ts, n - 1);
        if hs.contains(ts[n - 1].head) {
            hs
        } else {
            hs.push(ts[n - 1].head)
        }
    }
}

/// The positions among the first `n` entries of those with headword `h`.
pub open spec fn members_upto(ts: Seq<ToaView>, h: Seq<char>, n: int) -> Seq<usize>
    decreases n,
{
    if n <= 0 {
        Seq::empty()
    } else if ts[n - 1].head == h {
        members_upto(ts, h, n - 1).push((n - 1) as usize)
    } else {
        members_upto(ts, h, n - 1)
    }
}

/// The positions of the entries with headword `h`.
pub open spec fn members(ts: Seq<ToaView>, h: Seq<char>) -> Seq<usize> {
    members_upto(ts, h, ts.len() as int)
}

/// The label of the entry at `i` for `field`.
pub open spec fn label_at(ts: Seq<ToaView>, field: Field, i: usize) -> Option<Seq<char>> {
    field_value(ts[i as int], field)
}

/// How many of the first `n` positions of `idx` hold an entry labelled `l`.
pub open spec fn count_label(ts: Seq<ToaView>, field: Field, idx: Seq<usize>, l: Seq<char>, n: int) -> nat
    decreases n,
{
    if n <= 0 {
        0
    } else {
        count_label(ts, field, idx, l, n - 1) + if label_at(ts, field, idx[n - 1]) == Some(l) {
            1nat
        } else {
            0nat
        }
    }
}

/// What an entry of a fold adds to the fold's cost for a group: one more
/// than the group's entries with its label, when the group has that label.
pub open spec fn weight(ts: Seq<ToaView>, field: Field, group: Seq<usize>, i: usize) -> nat {
    match label_at(ts, field, i) {
        Some(l) => {
            let c = count_label(ts, field, group, l, group.len() as int);
            if c > 0 {
                c + 1
            } else {
                0
            }
        },
        None => 0,
    }
}

/// The weights of the first `n` entries of a fold.
pub open spec fn weight_upto(ts: Seq<ToaView>, field: Field, fold: Seq<usize>, group: Seq<usize>, n: int) -> nat
    decreases n,
{
    if n <= 0 {
        0
    } else {
        weight_upto(ts, field, fold, group, n - 1) + weight(ts, field, group, fold[n - 1])
    }
}

/// The cost of putting `group` in `fold`: the fold's size, plus, for each
/// label of the group, the fold's entries with that label times one more
/// than the group's.
pub open spec fn fold_cost(ts: Seq<ToaView>, field: Field, fold: Seq<usize>, group: Seq<usize>) -> nat {
    fold.len() + weight_upto(ts, field, fold, group, fold.len() as int)
}

/// The first of the first `n` folds with the least cost for `group`.
pub open spec fn cheapest_upto(ts: Seq<ToaView>, field: Field, folds: Seq<Seq<usize>>, group: Seq<usize>, n: int) -> int
    decreases n,
{
    if n <= 1 {
        0
    } else {
        let b = cheapest_upto(ts, field, folds, group, n - 1);
        if fold_cost(ts, field, folds[n - 1], group) < fold_cost(ts, field, folds[b], group) {
            n - 1
        } else {
            b
        }
    }
}

/// The folds after the first `n` groups went, one after another, each to
/// its cheapest fold.
pub open spec fn assign_upto(
    ts: Seq<ToaView>,
    field: Field,
    start: Seq<Seq<usize>>,
    groups: Seq<Seq<usize>>,
    n: int,
) -> Seq<Seq<usize>>
    decreases n,
{
    if n <= 0 {
        start
    } else {
        let fs = assign_upto(ts, field, start, groups, n - 1);
        let b = cheapest_upto(ts, field, fs, groups[n - 1], fs.len() as int);
        fs.update(b, fs[b] + groups[n - 1])
    }
}

/// The hash of a headword.
pub open spec fn head_hash(h: Seq<char>) -> u64 {
    fnv1a(encode_utf8(h), encode_utf8(h).len() as int)
}

/// Whether group `a` goes before group `b`: by hash, greatest first, then
/// by first appearance.
pub open spec fn hash_before(hs: Seq<u64>, a: int, b: int) -> bool {
    hs[a] > hs[b] || (hs[a] == hs[b] && a < b)
}

/// Whether `p` orders the groups with hashes `hs` by hash, greatest first,
/// ties in order of first appearance.
pub open spec fn is_hash_order(hs: Seq<u64>, p: Seq<int>) -> bool {
    &&& p.len() == hs.len()
    &&& forall|i: int| 0 <= i < p.len() ==> 0 <= #[trigger] p[i] < hs.len()
    &&& forall|i: int, j: int| 0 <= i < j < p.len() ==> hash_before(hs, #[trigger] p[i], #[trigger] p[j])
}

/// The folds of the examples `ts` for `field`, given the order `p` of the
/// headword groups: `fold_count` empty folds, then each group, in that
/// order, appended to its cheapest fold.
pub open spec fn folds_in_order(ts: Seq<ToaView>, field: Field, k: int, p: Seq<int>) -> Seq<Seq<usize>> {
    let heads = heads_upto(ts, ts.len() as int);
    assign_upto(
        ts,
        field,
        Seq::new(fold_count(k, ts.len() as int) as nat, |i: int| Seq::<usize>::empty()),
        p.map_values(|g: int| members(ts, heads[g])),
        p.len() as int,
    )
}

/// The entries held by reference, as values.
pub open spec fn example_views(examples: Seq<&Toa>) -> Seq<ToaView> {
    examples.map_values(|t: &Toa| t@)
}

/// The views of a list of folds.
pub open spec fn fold_views(folds: Seq<Vec<usize>>) -> Seq<Seq<usize>> {
    folds.map_values(|f: Vec<usize>| f@)
}

fn head_index(heads: &Vec<Vec<char>>, h: &Vec<char>) -> (r: Option<usize>)
    ensures
        r is Some == heads@.map_values(|x: Vec<char>| x@).contains(h@),
        r is Some ==> r->0 < heads@.len() && heads@[r->0 as int]@ == h@,
{
    let ghost hv = heads@.map_values(|x: Vec<char>| x@);
    let mut g: usize = 0;
    while g < heads.len()
        invariant
            g <= heads@.len(),
            hv == heads@.map_values(|x: Vec<char>| x@),
            forall|j: int| 0 <= j < g ==> hv[j] != h@,
        decreases heads.len() - g,
    {
        if chars_eq(heads[g].as_slice(), h.as_slice()) {
            assert(hv[g as int] == h@);
            return Some(g);
        }
        g = g + 1;
    }
    assert forall|j: int| 0 <= j < hv.len() implies hv[j] != h@ by {}
    None
}

/// The headword groups: the distinct headwords, and for each entry the
/// number of its headword among them.
fn group_heads(examples: &[&Toa]) -> (r: (Vec<Vec<char>>, Vec<usize>))
    ensures
        r.0@.map_values(|x: Vec<char>| x@) == heads_upto(
            example_views(examples@),
            examples@.len() as int,
        ),
        r.1@.len() == examples@.len(),
        forall|i: int|
            0 <= i < examples@.len() ==> #[trigger] r.1@[i] < r.0@.len() && r.0@[r.1@[i] as int]@
                == examples@[i]@.head,
{
    let ghost ts = example_views(examples@);
    let mut heads: Vec<Vec<char>> = Vec::new();
    let mut gid: Vec<usize> = Vec::new();
    let mut i: usize = 0;
    while i < examples.len()
        invariant
            i <= examples@.len(),
            ts == example_views(examples@),
            heads@.map_values(|x: Vec<char>| x@) == heads_upto(ts, i as int),
            gid@.len() == i,
            forall|j: int|
                0 <= j < i ==> #[trigger] gid@[j] < heads@.len() && heads@[gid@[j] as int]@
                    == ts[j].head,
        decreases examples.len() - i,
    {
        let h = chars_of(examples[i].head.as_str());
        let ghost hv = heads@.map_values(|x: Vec<char>| x@);
        assert(ts[i as int].head == h@);
        match head_index(&heads, &h) {
            Some(g) => {
                gid.push(g);
            },
            None => {
                let g = heads.len();
                heads.push(h);
                assert(heads@.map_values(|x: Vec<char>| x@) =~= hv.push(ts[i as int].head));
                gid.push(g);
            },
        }
        i = i + 1;
    }
    (heads, gid)
}

/// The positions of the entries of group `g`.
fn group_members(gid: &Vec<usize>, g: usize, Ghost(ts): Ghost<Seq<ToaView>>, Ghost(h): Ghost<Seq<char>>) -> (r: Vec<usize>)
    requires
        gid@.len() == ts.len(),
        forall|i: int| 0 <= i < ts.len() ==> (#[trigger] gid@[i] == g <==> ts[i].head == h),
    ensures
        r@ == members(ts, h),
{
    let mut out: Vec<usize> = Vec::new();
    let mut i: usize = 0;
    while i < gid.len()
        invariant
            i <= gid@.len(),
            gid@.len() == ts.len(),
            forall|j: int| 0 <= j < ts.len() ==> (#[trigger] gid@[j] == g <==> ts[j].head == h),
            out@ == members_upto(ts, h, i as int),
        decreases gid.len() - i,
    {
        if gid[i] == g {
            out.push(i);
        }
        i = i + 1;
    }
    out
}

/// Orders the groups by hash, greatest first, ties in order of first
/// appearance.
fn hash_order(hs: &Vec<u64>) -> (r: Vec<usize>)
    ensures
        is_hash_order(hs@, r@.map_values(|g: usize| g as int)),
        forall|i: int, j: int| 0 <= i < j < r@.len() ==> r@[i] != r@[j],
{
    let mut order: Vec<usize> = Vec::new();
    let mut g: usize = 0;
    while g < hs.len()
        invariant
            g <= hs@.len(),
            order@.len() == g,
            forall|i: int| 0 <= i < order@.len() ==> #[trigger] order@[i] < g,
            forall|i: int, j: int|
                0 <= i < j < order@.len() ==> hash_before(
                    hs@,
                    #[trigger] order@[i] as int,
                    #[trigger] order@[j] as int,
                ),
        decreases hs.len() - g,
    {
        let mut pos: usize = 0;
        while pos < order.len() && hs[order[pos]] >= hs[g]
            invariant
                pos <= order@.len(),
                g < hs@.len(),
                forall|i: int| 0 <= i < order@.len() ==> #[trigger] order@[i] < g,
                forall|i: int| 0 <= i < pos ==> hs@[#[trigger] order@[i] as int] >= hs@[g as int],
            decreases order.len() - pos,
        {
            pos = pos + 1;
        }
        let ghost before = order@;
        order.insert(pos, g);
        assert forall|i: int, j: int| 0 <= i < j < order@.len() implies hash_before(
            hs@,
            #[trigger] order@[i] as int,
            #[trigger] order@[j] as int,
        ) by {
            if j < pos {
                assert(order@[i] == before[i] && order@[j] == before[j]);
            } else if j == pos {
                assert(order@[i] == before[i]);
            } else if i == pos {
                assert(order@[j] == before[j - 1]);
                assert(hs@[before[pos as int] as int] < hs@[g as int]);
                if j - 1 > pos {
                    assert(hash_before(hs@, before[pos as int] as int, before[j - 1] as int));
                }
            } else if i < pos {
                assert(order@[i] == before[i] && order@[j] == before[j - 1]);
            } else {
                assert(order@[i] == before[i - 1] && order@[j] == before[j - 1]);
            }
        }
        g = g + 1;
    }
    proof {
        let p = order@.map_values(|x: usize| x as int);
        assert forall|i: int, j: int| 0 <= i < j < p.len() implies hash_before(
            hs@,
            #[trigger] p[i],
            #[trigger] p[j],
        ) by {
            assert(hash_before(hs@, order@[i] as int, order@[j] as int));
        }
        assert forall|i: int, j: int| 0 <= i < j < order@.len() implies order@[i] != order@[j] by {
            assert(hash_before(hs@, order@[i] as int, order@[j] as int));
        }
    }
    order
}

/// The cost of putting `group` in `fold`.
fn cost_of(examples: &[&Toa], field: Field, fold: &Vec<usize>, group: &Vec<usize>) -> (r: u128)
    requires
        forall|i: int| 0 <= i < fold@.len() ==> #[trigger] fold@[i] < examples@.len(),
        forall|i: int| 0 <= i < group@.len() ==> #[trigger] group@[i] < examples@.len(),
    ensures
        r as int == fold_cost(example_views(examples@), field, fold@, group@),
{
    let ghost ts = example_views(examples@);
    let fl: usize = fold.len();
    let gl: usize = group.len();
    let mut total: u128 = fl as u128;
    let mut j: usize = 0;
    while j < fl
        invariant
            j <= fl,
            fl == fold@.len(),
            gl == group@.len(),
            ts == example_views(examples@),
            forall|i: int| 0 <= i < fold@.len() ==> #[trigger] fold@[i] < examples@.len(),
            forall|i: int| 0 <= i < group@.len() ==> #[trigger] group@[i] < examples@.len(),
            total as int == fold@.len() + weight_upto(ts, field, fold@, group@, j as int),
            total as int <= fl + j * (gl + 1),
        decreases fl - j,
    {
        let w = weight_of(examples, field, group, fold[j]);
        proof {
            lemma_cost_bound(fl as int, j as int, gl as int);
        }
        total = total + w as u128;
        j = j + 1;
    }
    total
}

proof fn lemma_cost_bound(a: int, j: int, c: int)
    by (nonlinear_arith)
    requires
        0 <= j < a <= 0xffff_ffff_ffff_ffff,
        0 <= c <= 0xffff_ffff_ffff_ffff,
    ensures
        j * (c + 1) + (c + 1) == (j + 1) * (c + 1),
        a + (j + 1) * (c + 1) <= 0xffff_ffff_ffff_ffff_ffff_ffff_ffff_ffff,
{
}

/// What the entry at `i` adds to a fold's cost for `group`.
fn weight_of(examples: &[&Toa], field: Field, group: &Vec<usize>, i: usize) -> (r: u128)
    requires
        i < examples@.len(),
        forall|j: int| 0 <= j < group@.len() ==> #[trigger] group@[j] < examples@.len(),
    ensures
        r as nat == weight(example_views(examples@), field, group@, i),
        r <= group@.len() + 1,
{
    let ghost ts = example_views(examples@);
    let label = match field.get(examples[i]) {
        None => {
            return 0;
        },
        Some(l) => l,
    };
    let mut c: usize = 0;
    let mut j: usize = 0;
    while j < group.len()
        invariant
            j <= group@.len(),
            c <= j,
            i < examples@.len(),
            ts == example_views(examples@),
            forall|k: int| 0 <= k < group@.len() ==> #[trigger] group@[k] < examples@.len(),
            label_at(ts, field, i) == Some(label@),
            c as nat == count_label(ts, field, group@, label@, j as int),
        decreases group.len() - j,
    {
        let same = match field.get(examples[group[j]]) {
            Some(other) => chars_eq(chars_of(other.as_str()).as_slice(), chars_of(label.as_str()).as_slice()),
            None => false,
        };
        assert(same == (label_at(ts, field, group@[j as int]) == Some(label@)));
        if same {
            c = c + 1;
        }
        j = j + 1;
    }
    if c > 0 {
        c as u128 + 1
    } else {
        0
    }
}

/// Splits `examples` into folds for cross-validation on `field`: entries
/// with the same headword stay together; the groups, taken in the order of
/// their headword's hash (greatest first), each go to the fold where they
/// cost least, which keeps the folds even in size and in labels.  `k` folds
/// are made, but at least two and no more than there are examples (or two).
pub fn grouped_stratified_folds(examples: &[&Toa], field: Field, k: usize) -> (r: Vec<Vec<usize>>)
    ensures
        exists|p: Seq<int>|
            is_hash_order(
                heads_upto(example_views(examples@), examples@.len() as int).map_values(
                    |h: Seq<char>| head_hash(h),
                ),
                p,
            ) && fold_views(r@) == folds_in_order(example_views(examples@), field, k as int, p),
        splits_examples(example_views(examples@), fold_views(r@)),
{
    let ghost ts = example_views(examples@);
    let want: usize = if k < 2 {
        2
    } else {
        k
    };
    let most: usize = if examples.len() < 2 {
        2
    } else {
        examples.len()
    };
    let count: usize = if want < most {
        want
    } else {
        most
    };
    let (heads, gid) = group_heads(examples);
    let ghost hv = heads@.map_values(|x: Vec<char>| x@);
    let mut hashes: Vec<u64> = Vec::new();
    let mut g: usize = 0;
    while g < heads.len()
        invariant
            g <= heads@.len(),
            hv == heads@.map_values(|x: Vec<char>| x@),
            hashes@ == hv.take(g as int).map_values(|h: Seq<char>| head_hash(h)),
        decreases heads.len() - g,
    {
        let text = crate::text::string_of(heads[g].as_slice());
        let h = deterministic_hash(text.as_str());
        let ghost before = hashes@;
        hashes.push(h);
        assert(hv.take(g + 1) =~= hv.take(g as int).push(hv[g as int]));
        assert(hashes@ =~= hv.take(g + 1).map_values(|h: Seq<char>| head_hash(h)));
        g = g + 1;
    }
    assert(hv.take(hv.len() as int) =~= hv);
    let order = hash_order(&hashes);
    let ghost p = order@.map_values(|x: usize| x as int);
    let ghost groups = p.map_values(|g: int| members(ts, hv[g]));
    let ghost start = Seq::new(count as nat, |i: int| Seq::<usize>::empty());
    let mut folds: Vec<Vec<usize>> = Vec::new();
    let mut f: usize = 0;
    while f < count
        invariant
            f <= count,
            fold_views(folds@) == Seq::new(f as nat, |i: int| Seq::<usize>::empty()),
        decreases count - f,
    {
        let ghost before = fold_views(folds@);
        let empty: Vec<usize> = Vec::new();
        folds.push(empty);
        assert(fold_views(folds@) =~= before.push(Seq::<usize>::empty()));
        assert(fold_views(folds@) =~= Seq::new((f + 1) as nat, |i: int| Seq::<usize>::empty()));
        f = f + 1;
    }
    assert(count as int == fold_count(k as int, ts.len() as int));
    assert forall|a: int, i: int|
        0 <= a < folds@.len() && 0 <= i < folds@[a]@.len() implies #[trigger] folds@[a]@[i]
            < examples@.len() by {
        assert(fold_views(folds@)[a] == folds@[a]@);
    }
    let mut t: usize = 0;
    while t < order.len()
        invariant
            t <= order@.len(),
            count >= 2,
            ts == example_views(examples@),
            hv == heads_upto(ts, ts.len() as int),
            gid@.len() == ts.len(),
            forall|i: int| 0 <= i < ts.len() ==> #[trigger] gid@[i] < hv.len() && hv[gid@[i] as int] == ts[i].head,
            p == order@.map_values(|x: usize| x as int),
            forall|i: int| 0 <= i < p.len() ==> 0 <= #[trigger] p[i] < hv.len(),
            groups == p.map_values(|g: int| members(ts, hv[g])),
            start == Seq::new(count as nat, |i: int| Seq::<usize>::empty()),
            folds@.len() == count,
            fold_views(folds@) == assign_upto(ts, field, start, groups, t as int),
            forall|a: int, i: int|
                0 <= a < folds@.len() && 0 <= i < folds@[a]@.len() ==> #[trigger] folds@[a]@[i]
                    < examples@.len(),
        decreases order.len() - t,
    {
        let g = order[t];
        assert(0 <= p[t as int] < hv.len());
        proof {
            assert forall|i: int| 0 <= i < ts.len() implies (#[trigger] gid@[i] == g <==> ts[i].head
                == hv[g as int]) by {
                if ts[i].head == hv[g as int] && gid@[i] != g {
                    lemma_heads_distinct(ts, ts.len() as int, gid@[i] as int, g as int);
                }
            }
        }
        let group = group_members(&gid, g, Ghost(ts), Ghost(hv[g as int]));
        proof {
            lemma_members_in_range(ts, hv[g as int], ts.len() as int);
        }
        assert(group@ == groups[t as int]);
        let ghost fs = fold_views(folds@);
        let mut best: usize = 0;
        let mut best_cost = cost_of(examples, field, &folds[0], &group);
        let mut f: usize = 1;
        while f < folds.len()
            invariant
                1 <= f <= folds@.len(),
                folds@.len() == count,
                fs == fold_views(folds@),
                ts == example_views(examples@),
                forall|i: int| 0 <= i < group@.len() ==> #[trigger] group@[i] < examples@.len(),
                forall|a: int, i: int|
                    0 <= a < folds@.len() && 0 <= i < folds@[a]@.len() ==> #[trigger] folds@[a]@[i]
                        < examples@.len(),
                best as int == cheapest_upto(ts, field, fs, group@, f as int),
                best < f,
                best_cost as int == fold_cost(ts, field, fs[best as int], group@),
            decreases folds.len() - f,
        {
            let c = cost_of(examples, field, &folds[f], &group);
            if c < best_cost {
                best = f;
                best_cost = c;
            }
            f = f + 1;
        }
        let mut merged: Vec<usize> = Vec::new();
        let mut i: usize = 0;
        while i < folds[best].len()
            invariant
                i <= folds@[best as int]@.len(),
                best < folds@.len(),
                merged@ == folds@[best as int]@.take(i as int),
            decreases folds@[best as int]@.len() - i,
        {
            merged.push(folds[best][i]);
            assert(folds@[best as int]@.take(i + 1) =~= folds@[best as int]@.take(i as int).push(
                folds@[best as int]@[i as int],
            ));
            i = i + 1;
        }
        assert(folds@[best as int]@.take(folds@[best as int]@.len() as int) =~= folds@[best as int]@);
        let mut j: usize = 0;
        while j < group.len()
            invariant
                j <= group@.len(),
                best < folds@.len(),
                merged@ == folds@[best as int]@ + group@.take(j as int),
            decreases group.len() - j,
        {
            merged.push(group[j]);
            assert(group@.take(j + 1) =~= group@.take(j as int).push(group@[j as int]));
            j = j + 1;
        }
        assert(group@.take(group@.len() as int) =~= group@);
        let ghost old_folds = folds@;
        folds.set(best, merged);
        assert(fold_views(folds@) =~= fs.update(best as int, fs[best as int] + group@));
        assert forall|a: int, i: int|
            0 <= a < folds@.len() && 0 <= i < folds@[a]@.len() implies #[trigger] folds@[a]@[i]
                < examples@.len() by {
            if a == best {
                if i >= old_folds[a]@.len() {
                    assert(folds@[a]@[i] == group@[i - old_folds[a]@.len()]);
                } else {
                    assert(folds@[a]@[i] == old_folds[a]@[i]);
                }
            } else {
                assert(folds@[a] == old_folds[a]);
            }
        }
        t = t + 1;
    }
    proof {
        let hs = hv.map_values(|h: Seq<char>| head_hash(h));
        assert(hashes@ =~= hs);
        assert(is_hash_order(hs, p));
        assert(fold_views(folds@) == folds_in_order(ts, field, k as int, p));
        law_folds_split_examples(ts, field, k as int, p);
    }
    folds
}

proof fn lemma_heads_distinct(ts: Seq<ToaView>, n: int, a: int, b: int)
    requires
        0 <= a < heads_upto(ts, n).len(),
        0 <= b < heads_upto(ts, n).len(),
        a != b,
    ensures
        heads_upto(ts, n)[a] != heads_upto(ts, n)[b],
    decreases n,
{
    if n > 0 {
        let hs = heads_upto(ts, n - 1);
        if !hs.contains(ts[n - 1].head) {
            if a < hs.len() && b < hs.len() {
                lemma_heads_distinct(ts, n - 1, a, b);
            } else if a == hs.len() {
                assert(hs[b] != ts[n - 1].head);
            } else {
                assert(hs[a] != ts[n - 1].head);
            }
        } else {
            lemma_heads_distinct(ts, n - 1, a, b);
        }
    }
}

proof fn lemma_members_in_range(ts: Seq<ToaView>, h: Seq<char>, n: int)
    requires
        n <= ts.len(),
    ensures
        forall|i: int| 0 <= i < members_upto(ts, h, n).len() ==> #[trigger] members_upto(ts, h, n)[i] < n,
    decreases n,
{
    if n > 0 {
        lemma_members_in_range(ts, h, n - 1);
        let m = members_upto(ts, h, n - 1);
        assert forall|i: int| 0 <= i < members_upto(ts, h, n).len() implies #[trigger] members_upto(
            ts,
            h,
            n,
        )[i] < n by {
            if i < m.len() {
                assert(members_upto(ts, h, n)[i] == m[i]);
            }
        }
    }
}

/// Whether the value `x` occurs in one of the first `n` groups.
pub open spec fn grouped(groups: Seq<Seq<usize>>, n: int, x: usize) -> bool {
    exists|t: int, q: int| 0 <= t < n && 0 <= q < groups[t].len() && #[trigger] groups[t][q] == x
}

/// Whether no value occurs twice among all the folds.
pub open spec fn no_repeats(fs: Seq<Seq<usize>>) -> bool {
    forall|f1: int, m1: int, f2: int, m2: int|
        0 <= f1 < fs.len() && 0 <= m1 < fs[f1].len() && 0 <= f2 < fs.len() && 0 <= m2
            < fs[f2].len() && (f1 != f2 || m1 != m2) ==> #[trigger] fs[f1][m1]
            != #[trigger] fs[f2][m2]
}

/// Whether the groups hold no value twice, within one or across two.
pub open spec fn groups_disjoint(groups: Seq<Seq<usize>>) -> bool {
    forall|t1: int, q1: int, t2: int, q2: int|
        0 <= t1 < groups.len() && 0 <= q1 < groups[t1].len() && 0 <= t2 < groups.len() && 0 <= q2
            < groups[t2].len() && (t1 != t2 || q1 != q2) ==> #[trigger] groups[t1][q1]
            != #[trigger] groups[t2][q2]
}

/// Whether fold `f` holds every value of `group`.
pub open spec fn whole_in(fs: Seq<Seq<usize>>, group: Seq<usize>, f: int) -> bool {
    0 <= f < fs.len() && forall|q: int| 0 <= q < group.len() ==> #[trigger] fs[f].contains(group[q])
}

/// Whether some fold holds every value of `group`.
pub open spec fn has_whole_fold(fs: Seq<Seq<usize>>, group: Seq<usize>) -> bool {
    exists|f: int| #[trigger] whole_in(fs, group, f)
}

/// Whether the first `n` groups each lie in one fold, whole.
pub open spec fn groups_whole(fs: Seq<Seq<usize>>, groups: Seq<Seq<usize>>, n: int) -> bool {
    forall|t: int| 0 <= t < n ==> #[trigger] has_whole_fold(fs, groups[t])
}

proof fn lemma_cheapest_in_range(
    ts: Seq<ToaView>,
    field: Field,
    folds: Seq<Seq<usize>>,
    group: Seq<usize>,
    n: int,
)
    ensures
        0 <= cheapest_upto(ts, field, folds, group, n),
        n >= 1 ==> cheapest_upto(ts, field, folds, group, n) < n,
    decreases n,
{
    if n > 1 {
        lemma_cheapest_in_range(ts, field, folds, group, n - 1);
    }
}

/// Every value of the folds comes from one of the first `n` groups.
pub open spec fn from_groups(fs: Seq<Seq<usize>>, groups: Seq<Seq<usize>>, n: int) -> bool {
    forall|f: int, m: int|
        0 <= f < fs.len() && 0 <= m < fs[f].len() ==> grouped(groups, n, #[trigger] fs[f][m])
}

/// Whether one of the folds holds `x`.
pub open spec fn fold_holding(fs: Seq<Seq<usize>>, x: usize) -> bool {
    exists|f: int| 0 <= f < fs.len() && #[trigger] fs[f].contains(x)
}

/// Every value of the first `n` groups is in one of the folds.
pub open spec fn covers_groups(fs: Seq<Seq<usize>>, groups: Seq<Seq<usize>>, n: int) -> bool {
    forall|t: int, q: int|
        0 <= t < n && 0 <= q < groups[t].len() ==> #[trigger] fold_holding(fs, groups[t][q])
}

/// What assigning groups to folds keeps.
pub open spec fn assign_inv(fs: Seq<Seq<usize>>, groups: Seq<Seq<usize>>, n: int) -> bool {
    &&& from_groups(fs, groups, n)
    &&& covers_groups(fs, groups, n)
    &&& no_repeats(fs)
    &&& groups_whole(fs, groups, n)
}

proof fn lemma_step_from_groups(prev: Seq<Seq<usize>>, b: int, groups: Seq<Seq<usize>>, n: int)
    requires
        1 <= n <= groups.len(),
        0 <= b < prev.len(),
        from_groups(prev, groups, n - 1),
    ensures
        from_groups(prev.update(b, prev[b] + groups[n - 1]), groups, n),
{
    let g = groups[n - 1];
    let fs = prev.update(b, prev[b] + g);
    assert forall|f: int, m: int| 0 <= f < fs.len() && 0 <= m < fs[f].len() implies grouped(
        groups,
        n,
        #[trigger] fs[f][m],
    ) by {
        if f == b && m >= prev[b].len() {
            assert(groups[n - 1][m - prev[b].len()] == fs[f][m]);
        } else {
            assert(fs[f][m] == prev[f][m]);
            assert(grouped(groups, n - 1, prev[f][m]));
            let (t, q) = choose|t: int, q: int|
                0 <= t < n - 1 && 0 <= q < groups[t].len() && #[trigger] groups[t][q] == prev[f][m];
            assert(groups[t][q] == fs[f][m]);
        }
    }
}

proof fn lemma_step_covers(prev: Seq<Seq<usize>>, b: int, groups: Seq<Seq<usize>>, n: int)
    requires
        1 <= n <= groups.len(),
        0 <= b < prev.len(),
        covers_groups(prev, groups, n - 1),
    ensures
        covers_groups(prev.update(b, prev[b] + groups[n - 1]), groups, n),
{
    let g = groups[n - 1];
    let fs = prev.update(b, prev[b] + g);
    assert forall|t: int, q: int| 0 <= t < n && 0 <= q < groups[t].len() implies #[trigger] fold_holding(
        fs,
        groups[t][q],
    ) by {
        if t == n - 1 {
            assert(fs[b][prev[b].len() + q] == groups[t][q]);
            assert(fs[b].contains(groups[t][q]));
            assert(0 <= b < fs.len());
        } else {
            assert(fold_holding(prev, groups[t][q]));
            let f = choose|f: int| 0 <= f < prev.len() && #[trigger] prev[f].contains(groups[t][q]);
            let m = choose|m: int| 0 <= m < prev[f].len() && prev[f][m] == groups[t][q];
            assert(fs[f][m] == groups[t][q]);
            assert(fs[f].contains(groups[t][q]));
        }
    }
}

proof fn lemma_step_no_repeats(prev: Seq<Seq<usize>>, b: int, groups: Seq<Seq<usize>>, n: int)
    requires
        1 <= n <= groups.len(),
        0 <= b < prev.len(),
        groups_disjoint(groups),
        from_groups(prev, groups, n - 1),
        no_repeats(prev),
    ensures
        no_repeats(prev.update(b, prev[b] + groups[n - 1])),
{
    let g = groups[n - 1];
    let fs = prev.update(b, prev[b] + g);
    let base = prev[b].len();
    assert forall|f1: int, m1: int, f2: int, m2: int|
        0 <= f1 < fs.len() && 0 <= m1 < fs[f1].len() && 0 <= f2 < fs.len() && 0 <= m2
            < fs[f2].len() && (f1 != f2 || m1 != m2) implies #[trigger] fs[f1][m1]
            != #[trigger] fs[f2][m2] by {
        let new1 = f1 == b && m1 >= base;
        let new2 = f2 == b && m2 >= base;
        if new1 && new2 {
            assert(fs[f1][m1] == groups[n - 1][m1 - base]);
            assert(fs[f2][m2] == groups[n - 1][m2 - base]);
        } else if new1 {
            assert(fs[f1][m1] == groups[n - 1][m1 - base]);
            assert(fs[f2][m2] == prev[f2][m2]);
            assert(grouped(groups, n - 1, prev[f2][m2]));
            let (t, q) = choose|t: int, q: int|
                0 <= t < n - 1 && 0 <= q < groups[t].len() && #[trigger] groups[t][q]
                    == prev[f2][m2];
            assert(groups[t][q] != groups[n - 1][m1 - base]);
        } else if new2 {
            assert(fs[f2][m2] == groups[n - 1][m2 - base]);
            assert(fs[f1][m1] == prev[f1][m1]);
            assert(grouped(groups, n - 1, prev[f1][m1]));
            let (t, q) = choose|t: int, q: int|
                0 <= t < n - 1 && 0 <= q < groups[t].len() && #[trigger] groups[t][q]
                    == prev[f1][m1];
            assert(groups[t][q] != groups[n - 1][m2 - base]);
        } else {
            assert(fs[f1][m1] == prev[f1][m1]);
            assert(fs[f2][m2] == prev[f2][m2]);
        }
    }
}

proof fn lemma_step_whole(prev: Seq<Seq<usize>>, b: int, groups: Seq<Seq<usize>>, n: int)
    requires
        1 <= n <= groups.len(),
        0 <= b < prev.len(),
        groups_whole(prev, groups, n - 1),
    ensures
        groups_whole(prev.update(b, prev[b] + groups[n - 1]), groups, n),
{
    let g = groups[n - 1];
    let fs = prev.update(b, prev[b] + g);
    assert forall|t: int| 0 <= t < n implies #[trigger] has_whole_fold(fs, groups[t]) by {
        if t == n - 1 {
            assert forall|q: int| 0 <= q < groups[t].len() implies #[trigger] fs[b].contains(
                groups[t][q],
            ) by {
                assert(fs[b][prev[b].len() + q] == groups[t][q]);
            }
            assert(whole_in(fs, groups[t], b));
        } else {
            assert(has_whole_fold(prev, groups[t]));
            let f = choose|f: int| #[trigger] whole_in(prev, groups[t], f);
            assert forall|q: int| 0 <= q < groups[t].len() implies #[trigger] fs[f].contains(
                groups[t][q],
            ) by {
                assert(prev[f].contains(groups[t][q]));
                let m = choose|m: int| 0 <= m < prev[f].len() && prev[f][m] == groups[t][q];
                assert(fs[f][m] == groups[t][q]);
            }
            assert(whole_in(fs, groups[t], f));
        }
    }
}

/// What assigning groups to folds keeps: the folds stay as many, hold
/// only values of the groups assigned, each of those once, and each group
/// whole in one fold.
proof fn lemma_assign(
    ts: Seq<ToaView>,
    field: Field,
    start: Seq<Seq<usize>>,
    groups: Seq<Seq<usize>>,
    n: int,
)
    requires
        start.len() >= 1,
        forall|f: int| 0 <= f < start.len() ==> (#[trigger] start[f]).len() == 0,
        groups_disjoint(groups),
        0 <= n <= groups.len(),
    ensures
        assign_upto(ts, field, start, groups, n).len() == start.len(),
        assign_inv(assign_upto(ts, field, start, groups, n), groups, n),
    decreases n,
{
    let fs = assign_upto(ts, field, start, groups, n);
    if n == 0 {
        assert forall|f1: int, m1: int, f2: int, m2: int|
            0 <= f1 < fs.len() && 0 <= m1 < fs[f1].len() && 0 <= f2 < fs.len() && 0 <= m2
                < fs[f2].len() && (f1 != f2 || m1 != m2) implies #[trigger] fs[f1][m1]
                != #[trigger] fs[f2][m2] by {
            assert(start[f1].len() == 0);
        }
        assert forall|f: int, m: int| 0 <= f < fs.len() && 0 <= m < fs[f].len() implies grouped(
            groups,
            n,
            #[trigger] fs[f][m],
        ) by {
            assert(start[f].len() == 0);
        }
    } else {
        lemma_assign(ts, field, start, groups, n - 1);
        let prev = assign_upto(ts, field, start, groups, n - 1);
        let g = groups[n - 1];
        let b = cheapest_upto(ts, field, prev, g, prev.len() as int);
        lemma_cheapest_in_range(ts, field, prev, g, prev.len() as int);
        assert(fs == prev.update(b, prev[b] + g));
        lemma_step_from_groups(prev, b, groups, n);
        lemma_step_covers(prev, b, groups, n);
        lemma_step_no_repeats(prev, b, groups, n);
        lemma_step_whole(prev, b, groups, n);
    }
}

proof fn lemma_members(ts: Seq<ToaView>, h: Seq<char>, n: int)
    requires
        0 <= n <= ts.len() <= usize::MAX,
    ensures
        forall|x: usize| #[trigger]
            members_upto(ts, h, n).contains(x) <==> (x < n && ts[x as int].head == h),
        forall|a: int, b: int|
            0 <= a < b < members_upto(ts, h, n).len() ==> #[trigger] members_upto(ts, h, n)[a]
                < #[trigger] members_upto(ts, h, n)[b],
        forall|a: int|
            0 <= a < members_upto(ts, h, n).len() ==> #[trigger] members_upto(ts, h, n)[a] < n,
    decreases n,
{
    if n > 0 {
        lemma_members(ts, h, n - 1);
        let m = members_upto(ts, h, n - 1);
        let ms = members_upto(ts, h, n);
        assert forall|x: usize| #[trigger] ms.contains(x) <==> (x < n && ts[x as int].head == h) by {
            if ts[n - 1].head == h {
                assert(ms == m.push((n - 1) as usize));
                if ms.contains(x) {
                    let k = choose|k: int| 0 <= k < ms.len() && ms[k] == x;
                    if k < m.len() {
                        assert(m[k] == x);
                        assert(m.contains(x));
                    }
                }
                if x < n && ts[x as int].head == h {
                    if x < n - 1 {
                        assert(m.contains(x));
                        let k = choose|k: int| 0 <= k < m.len() && m[k] == x;
                        assert(ms[k] == x);
                    } else {
                        assert(ms[m.len() as int] == x);
                    }
                }
            } else {
                if x < n && ts[x as int].head == h {
                    assert(x != n - 1);
                }
            }
        }
    }
}

proof fn lemma_heads_contain(ts: Seq<ToaView>, n: int)
    requires
        0 <= n <= ts.len(),
    ensures
        forall|i: int| 0 <= i < n ==> heads_upto(ts, n).contains(#[trigger] ts[i].head),
    decreases n,
{
    if n > 0 {
        lemma_heads_contain(ts, n - 1);
        let hs = heads_upto(ts, n - 1);
        assert forall|i: int| 0 <= i < n implies heads_upto(ts, n).contains(#[trigger] ts[i].head) by {
            if !hs.contains(ts[n - 1].head) {
                let next = hs.push(ts[n - 1].head);
                if i < n - 1 {
                    let k = choose|k: int| 0 <= k < hs.len() && hs[k] == ts[i].head;
                    assert(next[k] == ts[i].head);
                } else {
                    assert(next[hs.len() as int] == ts[i].head);
                }
            }
        }
    }
}

proof fn lemma_onto(p: Seq<int>, n: int)
    requires
        0 <= n,
        p.len() == n,
        forall|i: int| 0 <= i < n ==> 0 <= #[trigger] p[i] < n,
        forall|i: int, j: int| 0 <= i < j < n ==> p[i] != p[j],
    ensures
        forall|g: int| 0 <= g < n ==> p.contains(g),
{
    assert(p.no_duplicates()) by {
        assert forall|i: int, j: int| 0 <= i < p.len() && 0 <= j < p.len() && i != j implies p[i]
            != p[j] by {
            if i > j {
                assert(p[j] != p[i]);
            }
        }
    }
    p.unique_seq_to_set();
    lemma_int_range(0, n);
    broadcast use vstd::seq_lib::seq_to_set_is_finite;
    assert(p.to_set().subset_of(set_int_range(0, n)));
    lemma_subset_equality(p.to_set(), set_int_range(0, n));
    assert forall|g: int| 0 <= g < n implies p.contains(g) by {
        assert(set_int_range(0, n).contains(g));
        assert(p.to_set().contains(g));
    }
}

spec fn in_head_group(
    ts: Seq<ToaView>,
    heads: Seq<Seq<char>>,
    p: Seq<int>,
    groups: Seq<Seq<usize>>,
    i: usize,
) -> bool {
    exists|t: int, q: int|
        0 <= t < groups.len() && 0 <= q < groups[t].len() && #[trigger] groups[t][q] == i
            && heads[p[t]] == ts[i as int].head
}

/// Whether the folds split the examples `ts`: they hold only positions of
/// examples, each position once, every example is in a fold, and examples
/// with the same headword are in the same fold.
pub open spec fn splits_examples(ts: Seq<ToaView>, fs: Seq<Seq<usize>>) -> bool {
    &&& forall|f: int, m: int| 0 <= f < fs.len() && 0 <= m < fs[f].len() ==> #[trigger] fs[f][m] < ts.len()
    &&& no_repeats(fs)
    &&& forall|i: usize| i < ts.len() ==> #[trigger] fold_holding(fs, i)
    &&& forall|i: usize, j: usize, f: int|
        i < ts.len() && j < ts.len() && ts[i as int].head == ts[j as int].head && 0 <= f < fs.len()
            && #[trigger] fs[f].contains(i) ==> #[trigger] fs[f].contains(j)
}

/// Cross-validation folds split the examples: every example is in exactly
/// one fold, once, and the examples of one headword share their fold.
pub proof fn law_folds_split_examples(ts: Seq<ToaView>, field: Field, k: int, p: Seq<int>)
    requires
        ts.len() <= usize::MAX,
        is_hash_order(heads_upto(ts, ts.len() as int).map_values(|h: Seq<char>| head_hash(h)), p),
    ensures
        splits_examples(ts, folds_in_order(ts, field, k, p)),
{
    let heads = heads_upto(ts, ts.len() as int);
    let hs = heads.map_values(|h: Seq<char>| head_hash(h));
    let groups = p.map_values(|g: int| members(ts, heads[g]));
    let count = fold_count(k, ts.len() as int);
    let start = Seq::new(count as nat, |i: int| Seq::<usize>::empty());
    let fs = folds_in_order(ts, field, k, p);
    assert(fs == assign_upto(ts, field, start, groups, p.len() as int));
    // the groups are the members of distinct headwords
    assert forall|i: int, j: int| 0 <= i < j < p.len() implies p[i] != p[j] by {
        assert(hash_before(hs, p[i], p[j]));
    }
    assert forall|h: Seq<char>| true implies #[trigger] members(ts, h) == members_upto(
        ts,
        h,
        ts.len() as int,
    ) by {}
    assert forall|t: int| 0 <= t < groups.len() implies #[trigger] groups[t] == members(ts, heads[p[t]])
        by {}
    assert forall|t1: int, q1: int, t2: int, q2: int|
        0 <= t1 < groups.len() && 0 <= q1 < groups[t1].len() && 0 <= t2 < groups.len() && 0 <= q2
            < groups[t2].len() && (t1 != t2 || q1 != q2) implies #[trigger] groups[t1][q1]
            != #[trigger] groups[t2][q2] by {
        lemma_members(ts, heads[p[t1]], ts.len() as int);
        lemma_members(ts, heads[p[t2]], ts.len() as int);
        let x = groups[t1][q1];
        if t1 == t2 {
            if q1 < q2 {
                assert(groups[t1][q1] < groups[t1][q2]);
            } else {
                assert(groups[t1][q2] < groups[t1][q1]);
            }
        } else if x == groups[t2][q2] {
            assert(groups[t1].contains(x));
            assert(groups[t2].contains(x));
            assert(ts[x as int].head == heads[p[t1]]);
            assert(ts[x as int].head == heads[p[t2]]);
            lemma_heads_distinct(ts, ts.len() as int, p[t1], p[t2]);
        }
    }
    assert(count >= 2);
    lemma_assign(ts, field, start, groups, p.len() as int);
    // every value is a position of an example
    assert forall|f: int, m: int| 0 <= f < fs.len() && 0 <= m < fs[f].len() implies #[trigger] fs[f][m]
        < ts.len() by {
        assert(grouped(groups, p.len() as int, fs[f][m]));
        let (t, q) = choose|t: int, q: int|
            0 <= t < p.len() && 0 <= q < groups[t].len() && #[trigger] groups[t][q] == fs[f][m];
        lemma_members(ts, heads[p[t]], ts.len() as int);
        assert(groups[t][q] < ts.len());
    }
    // every example is in its headword's group
    lemma_heads_contain(ts, ts.len() as int);
    lemma_onto(p, heads.len() as int);
    assert forall|i: usize| i < ts.len() implies #[trigger] in_head_group(ts, heads, p, groups, i) by {
        assert(heads.contains(ts[i as int].head));
        let g = choose|g: int| 0 <= g < heads.len() && heads[g] == ts[i as int].head;
        assert(p.contains(g));
        let t = choose|t: int| 0 <= t < p.len() && p[t] == g;
        lemma_members(ts, heads[g], ts.len() as int);
        assert(groups[t].contains(i));
        let q = choose|q: int| 0 <= q < groups[t].len() && groups[t][q] == i;
        assert(groups[t][q] == i);
        assert(in_head_group(ts, heads, p, groups, i));
    }
    assert forall|i: usize| i < ts.len() implies #[trigger] fold_holding(fs, i) by {
        assert(in_head_group(ts, heads, p, groups, i));
        let (t, q) = choose|t: int, q: int|
            0 <= t < groups.len() && 0 <= q < groups[t].len() && #[trigger] groups[t][q] == i
                && heads[p[t]] == ts[i as int].head;
        assert(fold_holding(fs, groups[t][q]));
    }
    // examples of one headword share their fold
    assert forall|i: usize, j: usize, f: int|
        i < ts.len() && j < ts.len() && ts[i as int].head == ts[j as int].head && 0 <= f < fs.len()
            && #[trigger] fs[f].contains(i) implies #[trigger] fs[f].contains(j) by {
        assert(in_head_group(ts, heads, p, groups, i));
        assert(in_head_group(ts, heads, p, groups, j));
        let (t, q) = choose|t: int, q: int|
            0 <= t < groups.len() && 0 <= q < groups[t].len() && #[trigger] groups[t][q] == i
                && heads[p[t]] == ts[i as int].head;
        let (t2, q2) = choose|t2: int, q2: int|
            0 <= t2 < groups.len() && 0 <= q2 < groups[t2].len() && #[trigger] groups[t2][q2] == j
                && heads[p[t2]] == ts[j as int].head;
        if t != t2 {
            lemma_heads_distinct(ts, ts.len() as int, p[t], p[t2]);
        }
        assert(has_whole_fold(fs, groups[t]));
        let w = choose|w: int| #[trigger] whole_in(fs, groups[t], w);
        assert(fs[w].contains(groups[t][q]));
        assert(fs[w].contains(groups[t][q2]));
        let m1 = choose|m1: int| 0 <= m1 < fs[f].len() && fs[f][m1] == i;
        let m2 = choose|m2: int| 0 <= m2 < fs[w].len() && fs[w][m2] == i;
        if w != f {
            assert(fs[f][m1] != fs[w][m2]);
        }
    }
}

} // verus!
