//! Cleaning up the dictionary: dropping rejected entries, flagging suspicious
//! spellings, and keeping one entry of each group of duplicates.

use crate::collation::{is_stable_sort, is_stable_sorting, sort_entries, views};
use crate::text::{
    chars_of, contains_str, ends_with_str, has_infix, has_prefix, has_suffix, is_text_after,
    lowercase, prefix_of, starts_with_str, string_of, text_after, to_lowercase,
};
use crate::toadua::{needs_warning, Toa, ToaView};
use indexmap::IndexMap;
use vstd::prelude::*;

verus! {

/// What makes two entries duplicates of each other.
#[derive(Hash, Eq, PartialEq)]
pub struct EntryKey {
    head: String,
    body: String,
    scope: String,
    user: String,
}

/// The headword, body, scope and author that identify an entry.
pub type KeyView = (Seq<char>, Seq<char>, Seq<char>, Seq<char>);

impl View for EntryKey {
    type V = KeyView;

    closed spec fn view(&self) -> KeyView {
        (self.head@, self.body@, self.scope@, self.user@)
    }
}

/// The key of an entry.
pub open spec fn key_of(t: ToaView) -> KeyView {
    (t.head, t.body, t.scope, t.user)
}

impl EntryKey {
    /// The key of an entry.
    pub fn from_toa(toa: &Toa) -> (r: EntryKey)
        ensures
            r@ == key_of(toa@),
    {
        EntryKey {
            head: toa.head.clone(),
            body: toa.body.clone(),
            scope: toa.scope.clone(),
            user: toa.user.clone(),
        }
    }
}

#[verifier::external_type_specification]
#[verifier::external_body]
#[verifier::reject_recursive_types(K)]
#[verifier::reject_recursive_types(V)]
#[verifier::reject_recursive_types(S)]
pub struct ExIndexMap<K, V, S>(IndexMap<K, V, S>);

/// The groups an index map holds, in insertion order: each key with the
/// indices filed under it.
pub uninterp spec fn filed_groups(m: IndexMap<EntryKey, Vec<usize>>) -> Seq<(KeyView, Seq<usize>)>;

/// The first group of `gs` with key `k`, or `gs.len()` when there is none.
pub open spec fn group_index(gs: Seq<(KeyView, Seq<usize>)>, k: KeyView, j: int) -> int
    decreases gs.len() - j,
{
    if j >= gs.len() || j < 0 {
        gs.len() as int
    } else if gs[j].0 == k {
        j
    } else {
        group_index(gs, k, j + 1)
    }
}

/// `gs` with index `i` filed under key `k`: appended to the group of `k`, or
/// as a new last group.
pub open spec fn file_index(gs: Seq<(KeyView, Seq<usize>)>, k: KeyView, i: usize) -> Seq<
    (KeyView, Seq<usize>),
> {
    let j = group_index(gs, k, 0);
    if j < gs.len() {
        gs.update(j, (k, gs[j].1.push(i)))
    } else {
        gs.push((k, seq![i]))
    }
}

/// The groups of equal keys among `keys`, in order of first occurrence, each
/// with the positions where its key occurs.
pub open spec fn groups_of(keys: Seq<KeyView>) -> Seq<(KeyView, Seq<usize>)>
    decreases keys.len(),
{
    if keys.len() == 0 {
        Seq::empty()
    } else {
        file_index(groups_of(keys.drop_last()), keys.last(), (keys.len() - 1) as usize)
    }
}

/// `IndexMap::new`.
#[verifier::external_body]
fn new_groups() -> (m: IndexMap<EntryKey, Vec<usize>>)
    ensures
        filed_groups(m) == Seq::<(KeyView, Seq<usize>)>::empty(),
{
    IndexMap::new()
}

/// `m.entry(key).or_default().push(i)`: the index map finds the entry whose
/// key equals `key` (the derived equality of the four fields), or appends a
/// new entry with an empty list, and `i` is pushed onto its list.
#[verifier::external_body]
fn file_under(m: &mut IndexMap<EntryKey, Vec<usize>>, key: EntryKey, i: usize)
    ensures
        filed_groups(*final(m)) == file_index(filed_groups(*old(m)), key@, i),
{
    m.entry(key).or_default().push(i);
}

/// The index lists of `m`, in insertion order (`IndexMap::values`).
#[verifier::external_body]
fn group_lists(m: &IndexMap<EntryKey, Vec<usize>>) -> (r: Vec<Vec<usize>>)
    ensures
        r@.map_values(|g: Vec<usize>| g@) == filed_groups(*m).map_values(
            |e: (KeyView, Seq<usize>)| e.1,
        ),
{
    m.values().cloned().collect()
}

/// Whether a note on the entry calls it a duplicate, in any case.
pub open spec fn noted_duplicate(t: ToaView) -> bool {
    exists|k: int|
        0 <= k < t.notes.len() && has_infix(lowercase(#[trigger] t.notes[k].content), "duplicate"@)
}

/// The highest score among the entries at the first `n` of `idx`.
pub open spec fn best_score(es: Seq<ToaView>, idx: Seq<usize>, n: int) -> i32
    decreases n,
{
    if n <= 1 {
        es[idx[0] as int].score
    } else {
        let rest = best_score(es, idx, n - 1);
        let s = es[idx[n - 1] as int].score;
        if s > rest {
            s
        } else {
            rest
        }
    }
}

/// Among the first `n` of `idx`, the last one whose entry has the greatest
/// date.
pub open spec fn latest(es: Seq<ToaView>, idx: Seq<usize>, n: int) -> usize
    decreases n,
{
    if n <= 1 {
        idx[0]
    } else {
        let a = latest(es, idx, n - 1);
        let x = idx[n - 1];
        if text_after(es[a as int].date, es[x as int].date, 0) {
            a
        } else {
            x
        }
    }
}

/// Which of a group of duplicates to keep: prefer entries that no note calls
/// a duplicate; among those without notes, when there are several, the best
/// scored and then the latest; otherwise the first.
pub open spec fn keeper(es: Seq<ToaView>, dups: Seq<usize>) -> usize {
    let unmarked = dups.filter(|i: usize| !noted_duplicate(es[i as int]));
    let candidates = if unmarked.len() == 0 {
        dups
    } else {
        unmarked
    };
    let bare = candidates.filter(|i: usize| es[i as int].notes.len() == 0);
    if bare.len() > 1 {
        let best = best_score(es, bare, bare.len() as int);
        let same = bare.filter(|i: usize| es[i as int].score == best);
        if same.len() > 1 {
            latest(es, same, same.len() as int)
        } else {
            same[0]
        }
    } else {
        candidates[0]
    }
}

proof fn lemma_best_attained(es: Seq<ToaView>, idx: Seq<usize>, n: int) -> (w: int)
    requires
        1 <= n <= idx.len(),
    ensures
        0 <= w < n,
        es[idx[w] as int].score == best_score(es, idx, n),
    decreases n,
{
    if n <= 1 {
        0
    } else {
        let w = lemma_best_attained(es, idx, n - 1);
        if es[idx[n - 1] as int].score > best_score(es, idx, n - 1) {
            n - 1
        } else {
            w
        }
    }
}

fn duplicate_noted(t: &Toa) -> (r: bool)
    ensures
        r == noted_duplicate(t@),
{
    let mut k: usize = 0;
    while k < t.notes.len()
        invariant
            k <= t.notes@.len(),
            forall|j: int|
                0 <= j < k ==> !has_infix(lowercase(#[trigger] t@.notes[j].content), "duplicate"@),
        decreases t.notes.len() - k,
    {
        let lower = to_lowercase(t.notes[k].content.as_str());
        if contains_str(&lower, "duplicate") {
            assert(has_infix(lowercase(t@.notes[k as int].content), "duplicate"@));
            return true;
        }
        k = k + 1;
    }
    false
}

/// Chooses which of a group of duplicate entries to keep.
pub fn choose_keeper(entries: &[Toa], duplicates: &[usize]) -> (r: usize)
    requires
        duplicates@.len() > 0,
        forall|i: int| 0 <= i < duplicates@.len() ==> #[trigger] duplicates@[i] < entries@.len(),
    ensures
        r == keeper(views(entries@), duplicates@),
        r < entries@.len(),
{
    let ghost es = views(entries@);
    let ghost unmarked_pred = |i: usize| !noted_duplicate(es[i as int]);
    let mut unmarked: Vec<usize> = Vec::new();
    let mut i: usize = 0;
    while i < duplicates.len()
        invariant
            i <= duplicates@.len(),
            es == views(entries@),
            forall|j: int| 0 <= j < duplicates@.len() ==> #[trigger] duplicates@[j] < entries@.len(),
            unmarked_pred == (|i: usize| !noted_duplicate(es[i as int])),
            unmarked@ == duplicates@.take(i as int).filter(unmarked_pred),
            forall|j: int| 0 <= j < unmarked@.len() ==> #[trigger] unmarked@[j] < entries@.len(),
        decreases duplicates.len() - i,
    {
        let idx = duplicates[i];
        proof {
            reveal_with_fuel(Seq::filter, 1);
            assert(duplicates@.take(i + 1).drop_last() =~= duplicates@.take(i as int));
        }
        if !duplicate_noted(&entries[idx]) {
            unmarked.push(idx);
        }
        i = i + 1;
    }
    assert(duplicates@.take(duplicates@.len() as int) =~= duplicates@);
    proof {
        broadcast use vstd::seq_lib::group_filter_ensures;
    }
    let candidates: &[usize] = if unmarked.len() == 0 {
        duplicates
    } else {
        unmarked.as_slice()
    };
    assert(forall|j: int| 0 <= j < candidates@.len() ==> #[trigger] candidates@[j] < entries@.len());

    let ghost bare_pred = |i: usize| es[i as int].notes.len() == 0;
    let mut bare: Vec<usize> = Vec::new();
    let mut i: usize = 0;
    while i < candidates.len()
        invariant
            i <= candidates@.len(),
            es == views(entries@),
            forall|j: int| 0 <= j < candidates@.len() ==> #[trigger] candidates@[j] < entries@.len(),
            bare_pred == (|i: usize| es[i as int].notes.len() == 0),
            bare@ == candidates@.take(i as int).filter(bare_pred),
            forall|j: int| 0 <= j < bare@.len() ==> #[trigger] bare@[j] < entries@.len(),
        decreases candidates.len() - i,
    {
        let idx = candidates[i];
        proof {
            reveal_with_fuel(Seq::filter, 1);
            assert(candidates@.take(i + 1).drop_last() =~= candidates@.take(i as int));
        }
        if entries[idx].notes.len() == 0 {
            bare.push(idx);
        }
        i = i + 1;
    }
    assert(candidates@.take(candidates@.len() as int) =~= candidates@);
    proof {
        broadcast use vstd::seq_lib::group_filter_ensures;
    }
    if bare.len() > 1 {
        let mut best = entries[bare[0]].score;
        let mut i: usize = 1;
        while i < bare.len()
            invariant
                1 <= i <= bare@.len(),
                es == views(entries@),
                forall|j: int| 0 <= j < bare@.len() ==> #[trigger] bare@[j] < entries@.len(),
                best == best_score(es, bare@, i as int),
            decreases bare.len() - i,
        {
            let s = entries[bare[i]].score;
            if s > best {
                best = s;
            }
            i = i + 1;
        }
        let ghost same_pred = |i: usize| es[i as int].score == best;
        let mut same: Vec<usize> = Vec::new();
        let mut i: usize = 0;
        while i < bare.len()
            invariant
                i <= bare@.len(),
                es == views(entries@),
                forall|j: int| 0 <= j < bare@.len() ==> #[trigger] bare@[j] < entries@.len(),
                same_pred == (|i: usize| es[i as int].score == best),
                same@ == bare@.take(i as int).filter(same_pred),
                forall|j: int| 0 <= j < same@.len() ==> #[trigger] same@[j] < entries@.len(),
            decreases bare.len() - i,
        {
            let idx = bare[i];
            proof {
                reveal_with_fuel(Seq::filter, 1);
                assert(bare@.take(i + 1).drop_last() =~= bare@.take(i as int));
            }
            if entries[idx].score == best {
                same.push(idx);
            }
            i = i + 1;
        }
        assert(bare@.take(bare@.len() as int) =~= bare@);
        proof {
            broadcast use vstd::seq_lib::group_filter_ensures;
            let w = lemma_best_attained(es, bare@, bare@.len() as int);
            assert(same_pred(bare@[w]));
            assert(same@.contains(bare@[w]));
        }
        if same.len() > 1 {
            let mut chosen = same[0];
            let mut i: usize = 1;
            while i < same.len()
                invariant
                    1 <= i <= same@.len(),
                    es == views(entries@),
                    forall|j: int| 0 <= j < same@.len() ==> #[trigger] same@[j] < entries@.len(),
                    chosen == latest(es, same@, i as int),
                    chosen < entries@.len(),
                decreases same.len() - i,
            {
                let x = same[i];
                let a_date = chars_of(entries[chosen].date.as_str());
                let x_date = chars_of(entries[x].date.as_str());
                if !is_text_after(&a_date, &x_date) {
                    chosen = x;
                }
                i = i + 1;
            }
            return chosen;
        }
        return same[0];
    }
    candidates[0]
}

/// Whether the dictionary keeps an entry: it is not voted down and not from
/// the import of 21 September 2025.
pub open spec fn kept(t: ToaView) -> bool {
    t.score > -2 && !has_prefix(t.date, "2025-09-21T1"@)
}

/// A scope without the `-arch` suffix of archived entries.
pub open spec fn current_scope(scope: Seq<char>) -> Seq<char> {
    if has_suffix(scope, "-arch"@) {
        scope.subrange(0, scope.len() - "-arch"@.len())
    } else {
        scope
    }
}

/// An entry with its scope made current and its warning flag set.
pub open spec fn prepared(t: ToaView) -> ToaView {
    let u = ToaView { scope: current_scope(t.scope), ..t };
    ToaView { warn: needs_warning(u), ..u }
}

/// The entries the dictionary keeps, prepared.
pub open spec fn prepare_all(es: Seq<ToaView>) -> Seq<ToaView> {
    es.filter(|t: ToaView| kept(t)).map_values(|t: ToaView| prepared(t))
}

/// The entry kept from a group of duplicates.
pub open spec fn group_keeper(es: Seq<ToaView>, group: Seq<usize>) -> usize {
    if group.len() == 1 {
        group[0]
    } else {
        keeper(es, group)
    }
}

/// One entry of each group of duplicates, in order of first occurrence.
pub open spec fn deduplicated(es: Seq<ToaView>) -> Seq<ToaView> {
    groups_of(es.map_values(|t: ToaView| key_of(t))).map_values(
        |g: (KeyView, Seq<usize>)| es[group_keeper(es, g.1) as int],
    )
}

/// Every group holds at least one index, and only indices below `n`.
pub open spec fn groups_wf(gs: Seq<(KeyView, Seq<usize>)>, n: int) -> bool {
    forall|j: int|
        0 <= j < gs.len() ==> (#[trigger] gs[j]).1.len() > 0 && forall|m: int|
            0 <= m < gs[j].1.len() ==> gs[j].1[m] < n
}

proof fn lemma_group_index(gs: Seq<(KeyView, Seq<usize>)>, k: KeyView, j: int)
    requires
        0 <= j,
    ensures
        j <= group_index(gs, k, j) <= gs.len() || (j > gs.len() && group_index(gs, k, j)
            == gs.len()),
        group_index(gs, k, j) < gs.len() ==> gs[group_index(gs, k, j)].0 == k,
    decreases gs.len() - j,
{
    if j < gs.len() && gs[j].0 != k {
        lemma_group_index(gs, k, j + 1);
    }
}

proof fn lemma_groups_wf(keys: Seq<KeyView>)
    ensures
        groups_wf(groups_of(keys), keys.len() as int),
    decreases keys.len(),
{
    if keys.len() > 0 {
        let init = keys.drop_last();
        lemma_groups_wf(init);
        let gs = groups_of(init);
        lemma_group_index(gs, keys.last(), 0);
        let j = group_index(gs, keys.last(), 0);
        let next = groups_of(keys);
        assert forall|x: int| 0 <= x < next.len() implies (#[trigger] next[x]).1.len() > 0
            && forall|m: int| 0 <= m < next[x].1.len() ==> next[x].1[m] < keys.len() by {
            if x < gs.len() && x != j {
                assert(next[x] == gs[x]);
            }
        }
    }
}

/// Prepares the entries that Toadua returned and keeps one of each group of
/// duplicates, sorted in dictionary order.
pub fn dictify(entries: Vec<Toa>) -> (r: Vec<Toa>)
    ensures
        exists|s: Seq<ToaView>|
            is_stable_sort(prepare_all(views(entries@)), s) && is_stable_sort(
                deduplicated(s),
                views(r@),
            ),
{
    let ghost src = views(entries@);
    let ghost keep = |t: ToaView| kept(t);
    let ghost prep = |t: ToaView| prepared(t);
    let mut staged: Vec<Toa> = Vec::new();
    let mut i: usize = 0;
    while i < entries.len()
        invariant
            i <= entries@.len(),
            src == views(entries@),
            keep == (|t: ToaView| kept(t)),
            prep == (|t: ToaView| prepared(t)),
            views(staged@) == src.take(i as int).filter(keep).map_values(prep),
        decreases entries.len() - i,
    {
        let t = &entries[i];
        let date = chars_of(t.date.as_str());
        proof {
            reveal_with_fuel(Seq::filter, 1);
            assert(src.take(i + 1).drop_last() =~= src.take(i as int));
            assert(src[i as int] == t@);
        }
        if t.score > -2 && !starts_with_str(&date, "2025-09-21T1") {
            let mut u = t.clone();
            let scope = chars_of(u.scope.as_str());
            let suffix = chars_of("-arch");
            if ends_with_str(&scope, "-arch") {
                u.scope = string_of(&prefix_of(&scope, scope.len() - suffix.len()));
            }
            assert(u@ == ToaView { scope: current_scope(t@.scope), ..t@ });
            u.set_warning();
            let ghost before = views(staged@);
            staged.push(u);
            assert(views(staged@) =~= before.push(prepared(t@)));
        }
        i = i + 1;
    }
    assert(src.take(entries@.len() as int) =~= src);
    let sorted = sort_entries(staged);
    let ghost ss = views(sorted@);
    let ghost keys = ss.map_values(|t: ToaView| key_of(t));

    let mut groups = new_groups();
    let mut i: usize = 0;
    while i < sorted.len()
        invariant
            i <= sorted@.len(),
            ss == views(sorted@),
            keys == ss.map_values(|t: ToaView| key_of(t)),
            filed_groups(groups) == groups_of(keys.take(i as int)),
        decreases sorted.len() - i,
    {
        let key = EntryKey::from_toa(&sorted[i]);
        file_under(&mut groups, key, i);
        assert(keys.take(i + 1).drop_last() =~= keys.take(i as int));
        i = i + 1;
    }
    assert(keys.take(sorted@.len() as int) =~= keys);
    let lists = group_lists(&groups);
    let ghost gs = groups_of(keys);
    proof {
        lemma_groups_wf(keys);
    }
    let ghost dd = deduplicated(ss);
    assert(lists@.map_values(|l: Vec<usize>| l@).len() == lists@.len());
    assert(dd.len() == gs.len());
    assert(gs.map_values(|e: (KeyView, Seq<usize>)| e.1).len() == gs.len());
    assert(lists@.len() == gs.len());
    assert(keys.len() == ss.len());
    let mut out: Vec<Toa> = Vec::new();
    let mut g: usize = 0;
    while g < lists.len()
        invariant
            g <= lists@.len(),
            ss == views(sorted@),
            gs == groups_of(keys),
            keys == ss.map_values(|t: ToaView| key_of(t)),
            groups_wf(gs, keys.len() as int),
            keys.len() == ss.len(),
            ss.len() == sorted@.len(),
            lists@.map_values(|l: Vec<usize>| l@) == gs.map_values(
                |e: (KeyView, Seq<usize>)| e.1,
            ),
            dd == deduplicated(ss),
            dd.len() == gs.len(),
            lists@.len() == gs.len(),
            views(out@) == dd.take(g as int),
        decreases lists.len() - g,
    {
        let list = &lists[g];
        assert(lists@.map_values(|l: Vec<usize>| l@)[g as int] == list@);
        assert(gs.map_values(|e: (KeyView, Seq<usize>)| e.1)[g as int] == gs[g as int].1);
        assert(list@ == gs[g as int].1);
        assert(gs[g as int].1.len() > 0);
        let idx = if list.len() == 1 {
            list[0]
        } else {
            choose_keeper(sorted.as_slice(), list.as_slice())
        };
        assert(idx == group_keeper(ss, gs[g as int].1));
        assert(idx < ss.len());
        let kept_entry = sorted[idx].clone();
        assert(kept_entry@ == ss[idx as int]);
        let ghost before = views(out@);
        out.push(kept_entry);
        assert(views(out@) =~= before.push(ss[idx as int]));
        assert(dd[g as int] == ss[idx as int]);
        assert(views(out@) =~= dd.take(g + 1));
        g = g + 1;
    }
    assert(dd.take(lists@.len() as int) =~= dd);
    let r = sort_entries(out);
    assert(is_stable_sort(prepare_all(views(entries@)), ss) && is_stable_sort(
        deduplicated(ss),
        views(r@),
    ));
    r
}

proof fn lemma_latest_member(es: Seq<ToaView>, idx: Seq<usize>, n: int)
    requires
        1 <= n <= idx.len(),
    ensures
        idx.contains(latest(es, idx, n)),
    decreases n,
{
    if n <= 1 {
        assert(idx[0] == latest(es, idx, n));
    } else {
        lemma_latest_member(es, idx, n - 1);
        if latest(es, idx, n) == idx[n - 1] {
            assert(idx[n - 1] == latest(es, idx, n));
        }
    }
}

/// The entry kept from a group of duplicates is one of them.
proof fn lemma_keeper_member(es: Seq<ToaView>, dups: Seq<usize>)
    requires
        dups.len() > 0,
    ensures
        dups.contains(keeper(es, dups)),
        (exists|x: int| 0 <= x < dups.len() && !noted_duplicate(es[#[trigger] dups[x] as int]))
            ==> !noted_duplicate(es[keeper(es, dups) as int]),
{
    let pred = |i: usize| !noted_duplicate(es[i as int]);
    let unmarked = dups.filter(pred);
    let candidates = if unmarked.len() == 0 {
        dups
    } else {
        unmarked
    };
    if exists|x: int| 0 <= x < dups.len() && !noted_duplicate(es[#[trigger] dups[x] as int]) {
        let x = choose|x: int| 0 <= x < dups.len() && !noted_duplicate(es[#[trigger] dups[x] as int]);
        dups.lemma_filter_contains(pred, x);
        assert(unmarked.len() > 0);
    }
    assert(candidates.len() > 0);
    assert(candidates.contains(candidates[0]));
    assert forall|x: usize| candidates.contains(x) implies dups.contains(x) by {
        if unmarked.len() != 0 {
            dups.lemma_filter_contains_rev(|i: usize| !noted_duplicate(es[i as int]), x);
        }
    }
    let bare = candidates.filter(|i: usize| es[i as int].notes.len() == 0);
    if bare.len() > 1 {
        let best = best_score(es, bare, bare.len() as int);
        let w = lemma_best_attained(es, bare, bare.len() as int);
        let same = bare.filter(|i: usize| es[i as int].score == best);
        bare.lemma_filter_contains(|i: usize| es[i as int].score == best, w);
        assert(same.len() > 0);
        let r = if same.len() > 1 {
            latest(es, same, same.len() as int)
        } else {
            same[0]
        };
        if same.len() > 1 {
            lemma_latest_member(es, same, same.len() as int);
        } else {
            assert(same.contains(same[0]));
        }
        assert(same.contains(r));
        bare.lemma_filter_contains_rev(|i: usize| es[i as int].score == best, r);
        candidates.lemma_filter_contains_rev(|i: usize| es[i as int].notes.len() == 0, r);
        assert(keeper(es, dups) == r);
        assert(candidates.contains(r));
    } else {
        assert(keeper(es, dups) == candidates[0]);
    }
    let r = keeper(es, dups);
    assert(candidates.contains(r));
    if unmarked.len() > 0 {
        let j = choose|j: int| 0 <= j < unmarked.len() && unmarked[j] == r;
        dups.lemma_filter_pred(pred, j);
    }
}

proof fn lemma_best_bounds(es: Seq<ToaView>, idx: Seq<usize>, n: int, j: int)
    requires
        1 <= n <= idx.len(),
        0 <= j < n,
    ensures
        es[idx[j] as int].score <= best_score(es, idx, n),
    decreases n,
{
    if n > 1 && j < n - 1 {
        lemma_best_bounds(es, idx, n - 1, j);
    }
}

/// When at least two entries of a group have no notes, the entry kept has
/// no notes either, and no entry of the group without notes scores higher
/// than it.
pub proof fn law_keeper_best_scored(es: Seq<ToaView>, dups: Seq<usize>, a: int, b: int, x: int)
    requires
        0 <= a < dups.len(),
        0 <= b < dups.len(),
        0 <= x < dups.len(),
        dups[a] != dups[b],
        es[dups[a] as int].notes.len() == 0,
        es[dups[b] as int].notes.len() == 0,
        es[dups[x] as int].notes.len() == 0,
    ensures
        es[keeper(es, dups) as int].notes.len() == 0,
        es[dups[x] as int].score <= es[keeper(es, dups) as int].score,
{
    let pred = |i: usize| !noted_duplicate(es[i as int]);
    let unmarked = dups.filter(pred);
    assert(!noted_duplicate(es[dups[a] as int]));
    assert(!noted_duplicate(es[dups[x] as int]));
    dups.lemma_filter_contains(pred, a);
    dups.lemma_filter_contains(pred, b);
    dups.lemma_filter_contains(pred, x);
    let ua = choose|i: int| 0 <= i < unmarked.len() && unmarked[i] == dups[a];
    let ub = choose|i: int| 0 <= i < unmarked.len() && unmarked[i] == dups[b];
    let ux = choose|i: int| 0 <= i < unmarked.len() && unmarked[i] == dups[x];
    let bpred = |i: usize| es[i as int].notes.len() == 0;
    let bare = unmarked.filter(bpred);
    unmarked.lemma_filter_contains(bpred, ua);
    unmarked.lemma_filter_contains(bpred, ub);
    unmarked.lemma_filter_contains(bpred, ux);
    let ba = choose|i: int| 0 <= i < bare.len() && bare[i] == dups[a];
    let bb = choose|i: int| 0 <= i < bare.len() && bare[i] == dups[b];
    let bx = choose|i: int| 0 <= i < bare.len() && bare[i] == dups[x];
    assert(ba != bb);
    assert(bare.len() > 1);
    let best = best_score(es, bare, bare.len() as int);
    lemma_best_bounds(es, bare, bare.len() as int, bx);
    let w = lemma_best_attained(es, bare, bare.len() as int);
    let spred = |i: usize| es[i as int].score == best;
    let same = bare.filter(spred);
    bare.lemma_filter_contains(spred, w);
    assert(same.len() > 0);
    let r = if same.len() > 1 {
        latest(es, same, same.len() as int)
    } else {
        same[0]
    };
    if same.len() > 1 {
        lemma_latest_member(es, same, same.len() as int);
    } else {
        assert(same.contains(same[0]));
    }
    assert(keeper(es, dups) == r);
    let rs = choose|i: int| 0 <= i < same.len() && same[i] == r;
    bare.lemma_filter_pred(spred, rs);
    bare.lemma_filter_contains_rev(spred, r);
    let rb = choose|i: int| 0 <= i < bare.len() && bare[i] == r;
    unmarked.lemma_filter_pred(bpred, rb);
}

/// An entry that one of its notes, at any position and in any case, calls a
/// duplicate is not the one kept from its group when another entry of the
/// group has no note calling it so.
pub proof fn law_noted_duplicate_not_kept(es: Seq<ToaView>, dups: Seq<usize>, a: int, k: int, b: int)
    requires
        0 <= a < dups.len(),
        0 <= b < dups.len(),
        0 <= k < es[dups[a] as int].notes.len(),
        has_infix(lowercase(es[dups[a] as int].notes[k].content), "duplicate"@),
        forall|j: int|
            0 <= j < es[dups[b] as int].notes.len() ==> !has_infix(
                lowercase(#[trigger] es[dups[b] as int].notes[j].content),
                "duplicate"@,
            ),
    ensures
        keeper(es, dups) != dups[a],
{
    assert(!noted_duplicate(es[dups[b] as int]));
    lemma_keeper_member(es, dups);
    assert(noted_duplicate(es[dups[a] as int]));
}

proof fn lemma_group_index_first(gs: Seq<(KeyView, Seq<usize>)>, k: KeyView, j: int)
    requires
        0 <= j,
    ensures
        forall|m: int| j <= m < group_index(gs, k, j) && m < gs.len() ==> gs[m].0 != k,
    decreases gs.len() - j,
{
    if j < gs.len() && gs[j].0 != k {
        lemma_group_index_first(gs, k, j + 1);
    }
}

/// The groups of `keys` have distinct keys, and each holds positions of
/// entries with its key.
proof fn lemma_groups_keys(keys: Seq<KeyView>)
    requires
        keys.len() <= usize::MAX,
    ensures
        forall|a: int, b: int|
            0 <= a < b < groups_of(keys).len() ==> groups_of(keys)[a].0 != groups_of(keys)[b].0,
        forall|a: int, m: int|
            0 <= a < groups_of(keys).len() && 0 <= m < groups_of(keys)[a].1.len() ==> {
                &&& groups_of(keys)[a].1[m] < keys.len()
                &&& keys[groups_of(keys)[a].1[m] as int] == groups_of(keys)[a].0
            },
    decreases keys.len(),
{
    if keys.len() > 0 {
        let init = keys.drop_last();
        lemma_groups_keys(init);
        let gs = groups_of(init);
        let k = keys.last();
        lemma_group_index(gs, k, 0);
        lemma_group_index_first(gs, k, 0);
        let next = groups_of(keys);
        assert(next == file_index(gs, k, (keys.len() - 1) as usize));
        let j = group_index(gs, k, 0);
        assert forall|a: int, b: int| 0 <= a < b < next.len() implies next[a].0 != next[b].0 by {
            if j < gs.len() {
                assert(next[a].0 == gs[a].0 && next[b].0 == gs[b].0);
            } else if b == gs.len() {
                assert(next[a] == gs[a]);
            } else {
                assert(next[a] == gs[a] && next[b] == gs[b]);
            }
        }
        assert forall|a: int, m: int| 0 <= a < next.len() && 0 <= m < next[a].1.len() implies {
            &&& next[a].1[m] < keys.len()
            &&& keys[next[a].1[m] as int] == next[a].0
        } by {
            if a < gs.len() && (j >= gs.len() || a != j) {
                assert(next[a] == gs[a]);
                assert(keys[gs[a].1[m] as int] == init[gs[a].1[m] as int]);
            } else if a == j && j < gs.len() {
                assert(next[a] == (k, gs[j].1.push((keys.len() - 1) as usize)));
                if m < gs[a].1.len() {
                    assert(next[a].1[m] == gs[a].1[m]);
                    assert(keys[gs[a].1[m] as int] == init[gs[a].1[m] as int]);
                } else {
                    assert(next[a].1[m] == keys.len() - 1);
                }
            } else {
                assert(a == gs.len());
                assert(next[a] == (k, seq![(keys.len() - 1) as usize]));
                assert(next[a].1[m] == keys.len() - 1);
            }
        }
    }
}

/// Deduplication keeps no two entries with the same headword, definition,
/// scope and author.
pub proof fn law_deduplicated_keys_distinct(es: Seq<ToaView>)
    requires
        es.len() <= usize::MAX,
    ensures
        forall|i: int, j: int|
            0 <= i < j < deduplicated(es).len() ==> key_of(#[trigger] deduplicated(es)[i])
                != key_of(#[trigger] deduplicated(es)[j]),
{
    let keys = es.map_values(|t: ToaView| key_of(t));
    let gs = groups_of(keys);
    lemma_groups_keys(keys);
    lemma_groups_wf(keys);
    let dd = deduplicated(es);
    assert forall|a: int| 0 <= a < gs.len() implies key_of(#[trigger] dd[a]) == gs[a].0 by {
        let g = gs[a].1;
        assert(g.len() > 0);
        if g.len() != 1 {
            lemma_keeper_member(es, g);
        }
        assert(g.contains(group_keeper(es, g)));
        let m = choose|m: int| 0 <= m < g.len() && g[m] == group_keeper(es, g);
        assert(keys[g[m] as int] == gs[a].0);
    }
    assert forall|i: int, j: int| 0 <= i < j < dd.len() implies key_of(#[trigger] dd[i]) != key_of(
        #[trigger] dd[j],
    ) by {
        assert(key_of(dd[i]) == gs[i].0);
        assert(key_of(dd[j]) == gs[j].0);
    }
}

/// The dictionary holds no two entries with the same headword, definition,
/// scope and author: it is a sorting of the deduplicated entries.
pub proof fn law_dictionary_keys_distinct(es: Seq<ToaView>, out: Seq<ToaView>)
    requires
        es.len() <= usize::MAX,
        is_stable_sort(deduplicated(es), out),
    ensures
        forall|i: int, j: int|
            0 <= i < j < out.len() ==> key_of(#[trigger] out[i]) != key_of(#[trigger] out[j]),
{
    law_deduplicated_keys_distinct(es);
    let dd = deduplicated(es);
    let p = choose|p: Seq<int>| is_stable_sorting(dd, out, p);
    assert forall|i: int, j: int| 0 <= i < j < out.len() implies key_of(#[trigger] out[i]) != key_of(
        #[trigger] out[j],
    ) by {
        assert(out[i] == dd[p[i]] && out[j] == dd[p[j]]);
        assert(p[i] != p[j]);
        if p[i] < p[j] {
            assert(key_of(dd[p[i]]) != key_of(dd[p[j]]));
        } else {
            assert(key_of(dd[p[j]]) != key_of(dd[p[i]]));
        }
    }
}

} // verus!
