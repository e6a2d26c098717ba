//! How many training entries hold each feature token.

use crate::features::{entries, examples_upto, feature_sets_spec, field_examples, field_feature_tokens, entry_refs};
use crate::guess_metadata::{primary_arity, primary_arity_spec, FeatureFlags, Field};
use crate::text::{chars_eq, chars_of, push_chars, rows, string_of, texts};
use crate::toadua::{Toa, ToaView};
use vstd::prelude::*;

verus! {

/// The tokens of the first `k` feature sets, one set after another.
pub open spec fn flat_upto(sets: Seq<Seq<Seq<char>>>, k: int) -> Seq<Seq<char>>
    decreases k,
{
    if k <= 0 {
        Seq::empty()
    } else {
        flat_upto(sets, k - 1) + sets[k - 1]
    }
}

/// All tokens of an entry's feature sets for `field`.
pub open spec fn entry_tokens(t: ToaView, field: Field, flags: FeatureFlags) -> Seq<Seq<char>> {
    flat_upto(
        feature_sets_spec(t, field, flags),
        feature_sets_spec(t, field, flags).len() as int,
    )
}

/// Whether an entry is counted for `arity`: any entry without one, else
/// those whose definition has that many slots.
pub open spec fn arity_fits(t: ToaView, arity: Option<usize>) -> bool {
    match arity {
        None => true,
        Some(a) => primary_arity_spec(t.body).0 == a,
    }
}

/// The entries counted among the first `k`.
pub open spec fn counted_upto(ts: Seq<ToaView>, arity: Option<usize>, k: int) -> Seq<ToaView>
    decreases k,
{
    if k <= 0 {
        Seq::empty()
    } else if arity_fits(ts[k - 1], arity) {
        counted_upto(ts, arity, k - 1).push(ts[k - 1])
    } else {
        counted_upto(ts, arity, k - 1)
    }
}

/// How many of the first `n` token lists hold `tok`.
pub open spec fn holding(lists: Seq<Seq<Seq<char>>>, tok: Seq<char>, n: int) -> nat
    decreases n,
{
    if n <= 0 {
        0
    } else {
        holding(lists, tok, n - 1) + if lists[n - 1].contains(tok) {
            1nat
        } else {
            0nat
        }
    }
}

/// The token lists of the entries counted for `field` and `arity` in a
/// dictionary.
pub open spec fn counted_lists(dict: Seq<Toa>, field: Field, arity: Option<usize>, flags: FeatureFlags) -> Seq<
    Seq<Seq<char>>,
> {
    let es = counted_upto(
        examples_upto(entries(dict), field, dict.len() as int),
        arity,
        examples_upto(entries(dict), field, dict.len() as int).len() as int,
    );
    es.map_values(|t: ToaView| entry_tokens(t, field, flags))
}

/// The tokens of a list of counts.
pub open spec fn count_names(v: Seq<(String, usize)>) -> Seq<Seq<char>> {
    v.map_values(|e: (String, usize)| e.0@)
}

proof fn lemma_push_contains<A>(s: Seq<A>, x: A)
    ensures
        forall|t: A| #[trigger] s.push(x).contains(t) <==> (s.contains(t) || t == x),
{
    assert forall|t: A| #[trigger] s.push(x).contains(t) <==> (s.contains(t) || t == x) by {
        if s.push(x).contains(t) && t != x {
            let m = choose|m: int| 0 <= m < s.push(x).len() && #[trigger] s.push(x)[m] == t;
            assert(s[m] == t);
        }
        if s.contains(t) {
            let m = choose|m: int| 0 <= m < s.len() && #[trigger] s[m] == t;
            assert(s.push(x)[m] == t);
        }
        if t == x {
            assert(s.push(x)[s.len() as int] == t);
        }
    }
}

proof fn lemma_holding_bound(lists: Seq<Seq<Seq<char>>>, tok: Seq<char>, n: int)
    ensures
        holding(lists, tok, n) <= if n < 0 {
            0
        } else {
            n
        },
    decreases n,
{
    if n > 0 {
        lemma_holding_bound(lists, tok, n - 1);
    }
}

fn flat_tokens(sets: &Vec<Vec<String>>) -> (r: Vec<Vec<char>>)
    ensures
        rows(r@) == flat_upto(
            sets@.map_values(|v: Vec<String>| texts(v@)),
            sets@.len() as int,
        ),
{
    let ghost sv = sets@.map_values(|v: Vec<String>| texts(v@));
    let mut out: Vec<Vec<char>> = Vec::new();
    let mut a: usize = 0;
    while a < sets.len()
        invariant
            a <= sets@.len(),
            sv == sets@.map_values(|v: Vec<String>| texts(v@)),
            rows(out@) == flat_upto(sv, a as int),
        decreases sets.len() - a,
    {
        let set = &sets[a];
        let ghost start = rows(out@);
        assert(sv[a as int] == texts(set@));
        let mut b: usize = 0;
        while b < set.len()
            invariant
                b <= set@.len(),
                rows(out@) == start + texts(set@).take(b as int),
            decreases set.len() - b,
        {
            let ghost before = rows(out@);
            out.push(chars_of(set[b].as_str()));
            assert(texts(set@).take(b + 1) =~= texts(set@).take(b as int).push(set@[b as int]@));
            assert(rows(out@) =~= before.push(set@[b as int]@));
            b = b + 1;
        }
        assert(texts(set@).take(set@.len() as int) =~= texts(set@));
        a = a + 1;
    }
    out
}

fn position_of(toks: &Vec<Vec<char>>, tok: &Vec<char>) -> (r: Option<usize>)
    ensures
        r is Some == rows(toks@).contains(tok@),
        r matches Some(j) ==> j < toks@.len() && toks@[j as int]@ == tok@,
{
    let ghost tv = rows(toks@);
    let mut j: usize = 0;
    while j < toks.len()
        invariant
            j <= toks@.len(),
            tv == rows(toks@),
            forall|k: int| 0 <= k < j ==> tv[k] != tok@,
        decreases toks.len() - j,
    {
        if chars_eq(toks[j].as_slice(), tok.as_slice()) {
            assert(tv[j as int] == tok@);
            return Some(j);
        }
        j = j + 1;
    }
    None
}

fn distinct_rows(all: &Vec<Vec<char>>) -> (r: Vec<Vec<char>>)
    ensures
        forall|a: int, b: int| 0 <= a < b < r@.len() ==> r@[a]@ != r@[b]@,
        forall|tok: Seq<char>| #[trigger] rows(r@).contains(tok) <==> rows(all@).contains(tok),
{
    let ghost av = rows(all@);
    let mut out: Vec<Vec<char>> = Vec::new();
    let mut k: usize = 0;
    while k < all.len()
        invariant
            k <= all@.len(),
            av == rows(all@),
            forall|a: int, b: int| 0 <= a < b < out@.len() ==> out@[a]@ != out@[b]@,
            forall|tok: Seq<char>| #[trigger] rows(out@).contains(tok) <==> av.take(k as int).contains(tok),
        decreases all.len() - k,
    {
        let tok = &all[k];
        let ghost before = rows(out@);
        assert(av.take(k + 1) =~= av.take(k as int).push(tok@));
        proof {
            lemma_push_contains(av.take(k as int), tok@);
            lemma_push_contains(before, tok@);
        }
        match position_of(&out, tok) {
            Some(_) => {},
            None => {
                let mut copy: Vec<char> = Vec::new();
                push_chars(&mut copy, tok.as_slice());
                let ghost old_out = out@;
                out.push(copy);
                assert(rows(out@) =~= before.push(tok@));
                assert forall|a: int, b: int| 0 <= a < b < out@.len() implies out@[a]@ != out@[b]@ by {
                    if b == old_out.len() {
                        assert(before[a] == out@[a]@);
                    } else {
                        assert(out@[a] == old_out[a] && out@[b] == old_out[b]);
                    }
                }
            },
        }
        k = k + 1;
    }
    assert(av.take(all@.len() as int) =~= av);
    out
}

/// Adds one entry's distinct tokens to the counts.
fn add_entry(
    toks: &mut Vec<Vec<char>>,
    counts: &mut Vec<usize>,
    distinct: &Vec<Vec<char>>,
    Ghost(lists): Ghost<Seq<Seq<Seq<char>>>>,
    Ghost(entry): Ghost<Seq<Seq<char>>>,
)
    requires
        old(toks)@.len() == old(counts)@.len(),
        lists.len() < usize::MAX,
        forall|a: int, b: int| 0 <= a < b < old(toks)@.len() ==> old(toks)@[a]@ != old(toks)@[b]@,
        forall|j: int|
            0 <= j < old(counts)@.len() ==> #[trigger] old(counts)@[j] as nat == holding(
                lists,
                old(toks)@[j]@,
                lists.len() as int,
            ),
        forall|tok: Seq<char>| #[trigger] rows(old(toks)@).contains(tok) <==> holding(lists, tok, lists.len() as int) > 0,
        forall|a: int, b: int| 0 <= a < b < distinct@.len() ==> distinct@[a]@ != distinct@[b]@,
        forall|tok: Seq<char>| #[trigger] rows(distinct@).contains(tok) <==> entry.contains(tok),
    ensures
        final(toks)@.len() == final(counts)@.len(),
        forall|a: int, b: int| 0 <= a < b < final(toks)@.len() ==> final(toks)@[a]@ != final(toks)@[b]@,
        forall|j: int|
            0 <= j < final(counts)@.len() ==> #[trigger] final(counts)@[j] as nat == holding(
                lists.push(entry),
                final(toks)@[j]@,
                lists.len() + 1int,
            ),
        forall|tok: Seq<char>| #[trigger] rows(final(toks)@).contains(tok) <==> holding(
            lists.push(entry),
            tok,
            lists.len() + 1int,
        ) > 0,
{
    let ghost next = lists.push(entry);
    let ghost n = lists.len() as int;
    let ghost old_toks = rows(toks@);
    let ghost old_len = toks@.len();
    let ghost dv = rows(distinct@);
    proof {
        assert forall|tok: Seq<char>| #[trigger] holding(next, tok, n + 1) == holding(lists, tok, n) + if entry.contains(tok) {
            1nat
        } else {
            0nat
        } by {
            lemma_holding_prefix(lists, entry, tok, n);
        }
    }
    let mut k: usize = 0;
    while k < distinct.len()
        invariant
            k <= distinct@.len(),
            dv == rows(distinct@),
            next == lists.push(entry),
            n == lists.len(),
            n < usize::MAX,
            old_len <= toks@.len(),
            toks@.len() == counts@.len(),
            forall|j: int| 0 <= j < old_len ==> #[trigger] toks@[j]@ == old_toks[j],
            old_toks.len() == old_len,
            forall|a: int, b: int| 0 <= a < b < toks@.len() ==> toks@[a]@ != toks@[b]@,
            forall|a: int, b: int| 0 <= a < b < distinct@.len() ==> distinct@[a]@ != distinct@[b]@,
            forall|tok: Seq<char>| #[trigger] rows(distinct@).contains(tok) <==> entry.contains(tok),
            forall|tok: Seq<char>| #[trigger] old_toks.contains(tok) <==> holding(lists, tok, n) > 0,
            forall|tok: Seq<char>| #[trigger] holding(next, tok, n + 1) == holding(lists, tok, n) + if entry.contains(tok) {
                1nat
            } else {
                0nat
            },
            forall|j: int|
                0 <= j < counts@.len() ==> #[trigger] counts@[j] as nat == holding(lists, toks@[j]@, n) + if dv.take(k as int).contains(toks@[j]@) {
                    1nat
                } else {
                    0nat
                },
            forall|tok: Seq<char>| #[trigger] rows(toks@).contains(tok) <==> (old_toks.contains(tok) || dv.take(k as int).contains(tok)),
        decreases distinct.len() - k,
    {
        let tok = &distinct[k];
        let ghost seen = dv.take(k as int);
        assert(dv.take(k + 1) =~= seen.push(tok@));
        assert(dv[k as int] == tok@);
        assert(!seen.contains(tok@)) by {
            if seen.contains(tok@) {
                let m = choose|m: int| 0 <= m < seen.len() && #[trigger] seen[m] == tok@;
                assert(distinct@[m]@ != distinct@[k as int]@);
            }
        }
        let ghost bt = rows(toks@);
        let ghost before_toks = toks@;
        let ghost before_counts = counts@;
        proof {
            lemma_push_contains(seen, tok@);
            lemma_push_contains(bt, tok@);
        }
        match position_of(toks, tok) {
            Some(j) => {
                proof {
                    lemma_holding_bound(lists, tok@, n);
                }
                let c = counts[j] + 1;
                counts.set(j, c);
                assert forall|jj: int| 0 <= jj < counts@.len() implies #[trigger] counts@[jj] as nat
                    == holding(lists, toks@[jj]@, n) + if dv.take(k + 1).contains(toks@[jj]@) {
                    1nat
                } else {
                    0nat
                } by {
                    if jj != j {
                        assert(toks@[jj]@ != toks@[j as int]@ || jj == j);
                        assert(counts@[jj] == before_counts[jj]);
                    }
                }
                assert forall|t: Seq<char>| #[trigger] rows(toks@).contains(t) <==> (old_toks.contains(t)
                    || dv.take(k + 1).contains(t)) by {
                    if t == tok@ {
                        assert(rows(toks@)[j as int] == t);
                    }
                }
            },
            None => {
                let mut copy: Vec<char> = Vec::new();
                push_chars(&mut copy, tok.as_slice());
                toks.push(copy);
                counts.push(1);
                assert(rows(toks@) =~= bt.push(tok@));
                assert(!old_toks.contains(tok@));
                assert(holding(lists, tok@, n) == 0);
                assert forall|jj: int| 0 <= jj < counts@.len() implies #[trigger] counts@[jj] as nat
                    == holding(lists, toks@[jj]@, n) + if dv.take(k + 1).contains(toks@[jj]@) {
                    1nat
                } else {
                    0nat
                } by {
                    if jj < before_counts.len() {
                        assert(toks@[jj] == before_toks[jj]);
                        assert(bt[jj] == toks@[jj]@);
                        assert(toks@[jj]@ != tok@);
                    } else {
                        assert(toks@[jj]@ == tok@);
                    }
                }
                assert forall|a: int, b: int| 0 <= a < b < toks@.len() implies toks@[a]@ != toks@[b]@ by {
                    if b == before_toks.len() {
                        assert(bt[a] == toks@[a]@);
                    } else {
                        assert(toks@[a] == before_toks[a] && toks@[b] == before_toks[b]);
                    }
                }
            },
        }
        k = k + 1;
    }
    assert(dv.take(distinct@.len() as int) =~= dv);
}

proof fn lemma_holding_prefix(lists: Seq<Seq<Seq<char>>>, entry: Seq<Seq<char>>, tok: Seq<char>, n: int)
    requires
        0 <= n == lists.len(),
    ensures
        holding(lists.push(entry), tok, n + 1) == holding(lists, tok, n) + if entry.contains(tok) {
            1nat
        } else {
            0nat
        },
{
    lemma_holding_same(lists, lists.push(entry), tok, n);
}

proof fn lemma_holding_same(a: Seq<Seq<Seq<char>>>, b: Seq<Seq<Seq<char>>>, tok: Seq<char>, n: int)
    requires
        n <= a.len(),
        n <= b.len(),
        forall|i: int| 0 <= i < n ==> a[i] == b[i],
    ensures
        holding(a, tok, n) == holding(b, tok, n),
    decreases n,
{
    if n > 0 {
        lemma_holding_same(a, b, tok, n - 1);
    }
}

/// For each feature token, how many of the entries to learn `field` from
/// (those with `arity` slots, when given) hold it among their feature sets.
/// Each token is listed once, with its count; the tokens listed are exactly
/// those that some such entry holds.
pub fn token_entry_counts(dict: &[Toa], field: Field, arity: Option<usize>, flags: FeatureFlags) -> (r: Vec<
    (String, usize),
>)
    ensures
        forall|a: int, b: int| 0 <= a < b < r@.len() ==> r@[a].0@ != r@[b].0@,
        forall|j: int|
            0 <= j < r@.len() ==> #[trigger] r@[j].1 as nat == holding(
                counted_lists(dict@, field, arity, flags),
                r@[j].0@,
                counted_lists(dict@, field, arity, flags).len() as int,
            ),
        forall|tok: Seq<char>|
            #[trigger] count_names(r@).contains(tok) <==> holding(
                counted_lists(dict@, field, arity, flags),
                tok,
                counted_lists(dict@, field, arity, flags).len() as int,
            ) > 0,
{
    let examples = field_examples(dict, field);
    let ghost ev = entry_refs(examples@);
    let ghost target = counted_lists(dict@, field, arity, flags);
    let mut toks: Vec<Vec<char>> = Vec::new();
    let mut counts: Vec<usize> = Vec::new();
    let ghost mut lists: Seq<Seq<Seq<char>>> = Seq::empty();
    let mut i: usize = 0;
    while i < examples.len()
        invariant
            i <= examples@.len(),
            ev == entry_refs(examples@),
            ev == examples_upto(entries(dict@), field, dict@.len() as int),
            lists == counted_upto(ev, arity, i as int).map_values(
                |t: ToaView| entry_tokens(t, field, flags),
            ),
            lists.len() <= i,
            toks@.len() == counts@.len(),
            forall|a: int, b: int| 0 <= a < b < toks@.len() ==> toks@[a]@ != toks@[b]@,
            forall|j: int|
                0 <= j < counts@.len() ==> #[trigger] counts@[j] as nat == holding(
                    lists,
                    toks@[j]@,
                    lists.len() as int,
                ),
            forall|tok: Seq<char>| #[trigger] rows(toks@).contains(tok) <==> holding(lists, tok, lists.len() as int) > 0,
        decreases examples.len() - i,
    {
        let toa = examples[i];
        let ghost t = ev[i as int];
        assert(t == toa@);
        let fits = match arity {
            None => true,
            Some(a) => primary_arity(toa.body.as_str()).0 == a,
        };
        if fits {
            let sets = field_feature_tokens(toa, field, flags);
            let all = flat_tokens(&sets);
            let distinct = distinct_rows(&all);
            let ghost entry = entry_tokens(t, field, flags);
            assert(rows(all@) == entry);
            add_entry(&mut toks, &mut counts, &distinct, Ghost(lists), Ghost(entry));
            proof {
                assert(counted_upto(ev, arity, i + 1) == counted_upto(ev, arity, i as int).push(t));
                assert(counted_upto(ev, arity, i + 1).map_values(|t: ToaView| entry_tokens(t, field, flags))
                    =~= lists.push(entry));
                lists = lists.push(entry);
            }
        } else {
            assert(counted_upto(ev, arity, i + 1) == counted_upto(ev, arity, i as int));
        }
        i = i + 1;
    }
    assert(lists == target);
    let mut out: Vec<(String, usize)> = Vec::new();
    let mut j: usize = 0;
    while j < toks.len()
        invariant
            j <= toks@.len(),
            toks@.len() == counts@.len(),
            out@.len() == j,
            forall|a: int| 0 <= a < j ==> (#[trigger] out@[a]).0@ == toks@[a]@ && out@[a].1 == counts@[a],
        decreases toks.len() - j,
    {
        out.push((string_of(toks[j].as_slice()), counts[j]));
        j = j + 1;
    }
    proof {
        assert(count_names(out@) =~= rows(toks@));
    }
    out
}

} // verus!
