//! The bookkeeping of a cross-validation round: which examples train, and
//! the numbers given to labels in the order they are first seen.

use crate::text::{chars_of, str_eq, string_of};
use vstd::prelude::*;

verus! {

/// The indices below `n` that `excluded` does not hold, in increasing order.
pub open spec fn indices_outside(n: nat, excluded: Seq<usize>) -> Seq<int> {
    Seq::new(n, |i: int| i).filter(|i: int| !excluded.contains(i as usize))
}

/// The indices below `n` that `excluded` does not hold, in increasing
/// order: the training examples of a fold whose test examples are
/// `excluded`.
pub fn complement_indices(n: usize, excluded: &Vec<usize>) -> (r: Vec<usize>)
    ensures
        r@.map_values(|i: usize| i as int) == indices_outside(n as nat, excluded@),
{
    let mut marked: Vec<bool> = Vec::new();
    let mut i: usize = 0;
    while i < n
        invariant
            i <= n,
            marked@.len() == i,
            forall|j: int| 0 <= j < i ==> !(#[trigger] marked@[j]),
        decreases n - i,
    {
        marked.push(false);
        i = i + 1;
    }
    let mut k: usize = 0;
    while k < excluded.len()
        invariant
            k <= excluded@.len(),
            marked@.len() == n,
            forall|j: int| 0 <= j < n ==> (#[trigger] marked@[j] <==> excluded@.take(k as int).contains(j as usize)),
        decreases excluded.len() - k,
    {
        let e = excluded[k];
        proof {
            assert(excluded@.take(k + 1) =~= excluded@.take(k as int).push(e));
            assert forall|j: int| #![trigger marked@[j]] 0 <= j < n implies (excluded@.take(k + 1).contains(j as usize) <==> (excluded@.take(k as int).contains(j as usize) || e == j as usize)) by {
                if excluded@.take(k + 1).contains(j as usize) {
                    let t = choose|t: int| 0 <= t < k + 1 && #[trigger] excluded@.take(k + 1)[t] == j as usize;
                    if t < k {
                        assert(excluded@.take(k as int)[t] == j as usize);
                    }
                }
                if excluded@.take(k as int).contains(j as usize) {
                    let t = choose|t: int| 0 <= t < k && #[trigger] excluded@.take(k as int)[t] == j as usize;
                    assert(excluded@.take(k + 1)[t] == j as usize);
                }
                if e == j as usize {
                    assert(excluded@.take(k + 1)[k as int] == j as usize);
                }
            }
        }
        let ghost prev = marked@;
        if e < n {
            marked.set(e, true);
        }
        proof {
            assert forall|j: int| #![trigger marked@[j]] 0 <= j < n implies (marked@[j] <==> excluded@.take(k + 1).contains(j as usize)) by {
                assert(prev[j] <==> excluded@.take(k as int).contains(j as usize));
                if j != e as int {
                    assert(marked@[j] == prev[j]);
                }
            }
        }
        k = k + 1;
    }
    assert(excluded@.take(excluded@.len() as int) =~= excluded@);
    let ghost all = Seq::new(n as nat, |i: int| i);
    let ghost keep = |i: int| !excluded@.contains(i as usize);
    let mut out: Vec<usize> = Vec::new();
    let mut i: usize = 0;
    while i < n
        invariant
            i <= n,
            marked@.len() == n,
            all == Seq::new(n as nat, |i: int| i),
            keep == (|i: int| !excluded@.contains(i as usize)),
            forall|j: int| 0 <= j < n ==> (#[trigger] marked@[j] <==> excluded@.contains(j as usize)),
            out@.map_values(|v: usize| v as int) == all.take(i as int).filter(keep),
        decreases n - i,
    {
        proof {
            reveal_with_fuel(Seq::filter, 1);
            assert(all.take(i + 1).drop_last() =~= all.take(i as int));
        }
        let ghost before = out@.map_values(|v: usize| v as int);
        if !marked[i] {
            out.push(i);
            assert(out@.map_values(|v: usize| v as int) =~= before.push(i as int));
        }
        i = i + 1;
    }
    assert(all.take(n as int) =~= all);
    out
}

/// The number of `name` among the names seen so far, and the names after
/// it: its position where it was seen before, else the next number, with
/// the name added at the end.
pub open spec fn numbered(names: Seq<Seq<char>>, name: Seq<char>) -> (Seq<Seq<char>>, int) {
    if names.contains(name) {
        (names, names.index_of(name))
    } else {
        (names.push(name), names.len() as int)
    }
}

/// The number of `name`, given the names seen so far in the order they
/// were first seen; a new name is added at the end.
pub fn number_name(names: &mut Vec<String>, name: &str) -> (r: usize)
    requires
        old(names)@.map_values(|s: String| s@).no_duplicates(),
    ensures
        final(names)@.map_values(|s: String| s@).no_duplicates(),
        (final(names)@.map_values(|s: String| s@), r as int) == numbered(
            old(names)@.map_values(|s: String| s@),
            name@,
        ),
{
    let ghost before = names@.map_values(|s: String| s@);
    let mut i: usize = 0;
    while i < names.len()
        invariant
            i <= names@.len(),
            names@ == old(names)@,
            before == names@.map_values(|s: String| s@),
            before.no_duplicates(),
            forall|j: int| 0 <= j < i ==> before[j] != name@,
        decreases names.len() - i,
    {
        if str_eq(names[i].as_str(), name) {
            proof {
                assert(before[i as int] == name@);
                assert(before.contains(name@));
                let k = before.index_of(name@);
                assert(0 <= k < before.len() && before[k] == name@);
                assert(k == i as int);
            }
            return i;
        }
        i = i + 1;
    }
    let added = string_of(chars_of(name).as_slice());
    names.push(added);
    proof {
        assert(!before.contains(name@));
        assert(names@.map_values(|s: String| s@) =~= before.push(name@));
        let after = before.push(name@);
        assert forall|a: int, b: int| 0 <= a < after.len() && 0 <= b < after.len() && a != b implies after[a] != after[b] by {
            if a < before.len() && b < before.len() {
                assert(before[a] != before[b]);
            } else if a < before.len() {
                assert(before[a] != name@);
            } else {
                assert(before[b] != name@);
            }
        }
    }
    names.len() - 1
}

} // verus!
