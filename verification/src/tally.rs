//! Counts of how often guessed metadata agrees with the annotated values:
//! overall, per annotated value, per frame arity and per distribution slot.

use crate::features::{labels_agree, labels_agree_spec, slot_agreement, slot_agreement_spec};
use crate::guess_metadata::Field;
use crate::text::{chars_of, str_eq, string_of};
use vstd::prelude::*;

verus! {

/// One for an agreement, zero otherwise.
pub open spec fn hit(b: bool) -> int {
    if b {
        1
    } else {
        0
    }
}

/// The number of `true` values in `s`.
pub open spec fn count_true(s: Seq<bool>) -> int
    decreases s.len(),
{
    if s.len() == 0 {
        0
    } else {
        count_true(s.drop_last()) + hit(s.last())
    }
}

/// Whether some row is kept under `key`.
pub open spec fn has_key<K>(rows: Seq<(K, int, int)>, key: K) -> bool {
    exists|j: int| 0 <= j < rows.len() && #[trigger] rows[j].0 == key
}

/// Whether no two rows share a key.
pub open spec fn distinct_keys<K>(rows: Seq<(K, int, int)>) -> bool {
    forall|i: int, j: int| 0 <= i < rows.len() && 0 <= j < rows.len() && i != j ==> #[trigger] rows[i].0 != #[trigger] rows[j].0
}

/// The rows (key, agreements, outcomes) after one more outcome under
/// `key`: its row counted up, or a new row at the end for a new key.
pub open spec fn counted<K>(rows: Seq<(K, int, int)>, key: K, agreed: bool) -> Seq<(K, int, int)> {
    if has_key(rows, key) {
        let j = choose|j: int| 0 <= j < rows.len() && #[trigger] rows[j].0 == key;
        rows.update(j, (key, rows[j].1 + hit(agreed), rows[j].2 + 1))
    } else {
        rows.push((key, hit(agreed), 1))
    }
}

/// The counts of slot `i`, zero for a slot not seen yet.
pub open spec fn slot_at(rows: Seq<(int, int)>, i: int) -> (int, int) {
    if 0 <= i < rows.len() {
        rows[i]
    } else {
        (0, 0)
    }
}

/// The slot rows (agreements, outcomes) after one more distribution, whose
/// slots agreed as `agree` says.
pub open spec fn slots_counted(rows: Seq<(int, int)>, agree: Seq<bool>) -> Seq<(int, int)> {
    let n = if rows.len() >= agree.len() {
        rows.len()
    } else {
        agree.len()
    };
    Seq::new(
        n,
        |i: int|
            if i < agree.len() {
                (slot_at(rows, i).0 + hit(agree[i]), slot_at(rows, i).1 + 1)
            } else {
                rows[i]
            },
    )
}

/// The rows kept per annotated value.
pub open spec fn class_rows(v: Seq<(String, usize, usize)>) -> Seq<(Seq<char>, int, int)> {
    v.map_values(|r: (String, usize, usize)| (r.0@, r.1 as int, r.2 as int))
}

/// The rows kept per frame arity.
pub open spec fn arity_rows(v: Seq<(usize, usize, usize)>) -> Seq<(int, int, int)> {
    v.map_values(|r: (usize, usize, usize)| (r.0 as int, r.1 as int, r.2 as int))
}

/// The rows kept per distribution slot.
pub open spec fn slot_rows(v: Seq<(usize, usize)>) -> Seq<(int, int)> {
    v.map_values(|r: (usize, usize)| (r.0 as int, r.1 as int))
}

/// Whether each row counts no more agreements than outcomes, and no more
/// outcomes than `total`.
pub open spec fn rows_bounded<K>(rows: Seq<(K, int, int)>, total: int) -> bool {
    forall|i: int| 0 <= i < rows.len() ==> 0 <= (#[trigger] rows[i]).1 <= rows[i].2 <= total
}

/// Agreement counts of guessed against annotated values.
pub struct Tally {
    /// Outcomes where the guess agreed.
    pub correct: usize,
    /// All outcomes.
    pub total: usize,
    /// Distribution slots that agreed.
    pub slot_correct: usize,
    /// All distribution slots.
    pub slot_total: usize,
    /// Per slot position: agreements and outcomes.
    pub per_slot: Vec<(usize, usize)>,
    /// Per frame arity, in order of first appearance: arity, agreements,
    /// outcomes.
    pub per_arity: Vec<(usize, usize, usize)>,
    /// Per annotated value, in order of first appearance: value,
    /// agreements, outcomes.
    pub per_class: Vec<(String, usize, usize)>,
}

impl Tally {
    /// Whether the counts are consistent: agreements never exceed outcomes,
    /// no row counts more outcomes than were recorded, and no key has two
    /// rows.
    pub open spec fn wf(&self) -> bool {
        &&& self.correct <= self.total
        &&& self.slot_correct <= self.slot_total
        &&& distinct_keys(class_rows(self.per_class@))
        &&& distinct_keys(arity_rows(self.per_arity@))
        &&& rows_bounded(class_rows(self.per_class@), self.total as int)
        &&& rows_bounded(arity_rows(self.per_arity@), self.total as int)
        &&& forall|i: int|
            0 <= i < self.per_slot@.len() ==> (#[trigger] self.per_slot@[i]).0 <= self.per_slot@[i].1
                <= self.total
    }

    /// An empty tally.
    pub fn new() -> (r: Tally)
        ensures
            r.wf(),
            r.correct == 0 && r.total == 0 && r.slot_correct == 0 && r.slot_total == 0,
            r.per_slot@.len() == 0 && r.per_arity@.len() == 0 && r.per_class@.len() == 0,
    {
        Tally {
            correct: 0,
            total: 0,
            slot_correct: 0,
            slot_total: 0,
            per_slot: Vec::new(),
            per_arity: Vec::new(),
            per_class: Vec::new(),
        }
    }

    /// Records one outcome of `field`: the annotated value `actual`, the
    /// guess `predicted`, and the arity of the entry's frame.  Every
    /// outcome counts overall and under its annotated value; a frame counts
    /// under its arity too, and a distribution slot by slot.
    pub fn record(&mut self, field: Field, actual: &str, predicted: &str, arity: usize)
        requires
            old(self).wf(),
            old(self).total < usize::MAX,
            field == Field::Distribution ==> old(self).slot_total + slot_agreement_spec(
                actual@,
                predicted@,
            ).len() <= usize::MAX,
        ensures
            final(self).wf(),
            final(self).correct == old(self).correct + hit(labels_agree_spec(field, predicted@, actual@)),
            final(self).total == old(self).total + 1,
            class_rows(final(self).per_class@) == counted(
                class_rows(old(self).per_class@),
                actual@,
                labels_agree_spec(field, predicted@, actual@),
            ),
            arity_rows(final(self).per_arity@) == (if field == Field::Frame {
                counted(arity_rows(old(self).per_arity@), arity as int, labels_agree_spec(field, predicted@, actual@))
            } else {
                arity_rows(old(self).per_arity@)
            }),
            slot_rows(final(self).per_slot@) == (if field == Field::Distribution {
                slots_counted(slot_rows(old(self).per_slot@), slot_agreement_spec(actual@, predicted@))
            } else {
                slot_rows(old(self).per_slot@)
            }),
            final(self).slot_correct == old(self).slot_correct + (if field == Field::Distribution {
                count_true(slot_agreement_spec(actual@, predicted@))
            } else {
                0
            }),
            final(self).slot_total == old(self).slot_total + (if field == Field::Distribution {
                slot_agreement_spec(actual@, predicted@).len() as int
            } else {
                0
            }),
    {
        let agreed = labels_agree(field, predicted, actual);
        let ghost total0 = self.total as int;
        if agreed {
            self.correct = self.correct + 1;
        }
        self.total = self.total + 1;
        count_class(&mut self.per_class, actual, agreed, Ghost(total0));
        if matches!(field, Field::Frame) {
            count_arity(&mut self.per_arity, arity, agreed, Ghost(total0));
        }
        if matches!(field, Field::Distribution) {
            let agree = slot_agreement(actual, predicted);
            let n = count_slots(&mut self.per_slot, &agree, Ghost(total0));
            proof {
                lemma_count_true_bounded(agree@);
            }
            self.slot_correct = self.slot_correct + n;
            self.slot_total = self.slot_total + agree.len();
        }
    }
}

proof fn lemma_count_true_bounded(s: Seq<bool>)
    ensures
        0 <= count_true(s) <= s.len(),
    decreases s.len(),
{
    if s.len() > 0 {
        lemma_count_true_bounded(s.drop_last());
    }
}

proof fn lemma_counted_rows<K>(rows: Seq<(K, int, int)>, i: int, key: K, agreed: bool, total: int)
    requires
        0 <= i < rows.len(),
        rows[i].0 == key,
        distinct_keys(rows),
        rows_bounded(rows, total),
    ensures
        has_key(rows, key),
        (choose|j: int| 0 <= j < rows.len() && #[trigger] rows[j].0 == key) == i,
        distinct_keys(rows.update(i, (key, rows[i].1 + hit(agreed), rows[i].2 + 1))),
        rows_bounded(rows.update(i, (key, rows[i].1 + hit(agreed), rows[i].2 + 1)), total + 1),
{
    let after = rows.update(i, (key, rows[i].1 + hit(agreed), rows[i].2 + 1));
    assert(rows[i].0 == key);
    let j = choose|j: int| 0 <= j < rows.len() && #[trigger] rows[j].0 == key;
    assert(0 <= j < rows.len() && rows[j].0 == key);
    if j != i {
        assert(rows[i].0 != rows[j].0);
    }
    assert forall|a: int, b: int| 0 <= a < after.len() && 0 <= b < after.len() && a != b implies #[trigger] after[a].0 != #[trigger] after[b].0 by {
        assert(after[a].0 == rows[a].0);
        assert(after[b].0 == rows[b].0);
        assert(rows[a].0 != rows[b].0);
    }
    assert forall|a: int| 0 <= a < after.len() implies 0 <= (#[trigger] after[a]).1 <= after[a].2 <= total + 1 by {
        assert(0 <= rows[a].1 <= rows[a].2 <= total);
    }
}

proof fn lemma_new_row<K>(rows: Seq<(K, int, int)>, key: K, agreed: bool, total: int)
    requires
        forall|j: int| 0 <= j < rows.len() ==> rows[j].0 != key,
        distinct_keys(rows),
        rows_bounded(rows, total),
        0 <= total,
    ensures
        !has_key(rows, key),
        distinct_keys(rows.push((key, hit(agreed), 1))),
        rows_bounded(rows.push((key, hit(agreed), 1)), total + 1),
{
    let after = rows.push((key, hit(agreed), 1));
    assert forall|a: int, b: int| 0 <= a < after.len() && 0 <= b < after.len() && a != b implies #[trigger] after[a].0 != #[trigger] after[b].0 by {
        if a < rows.len() && b < rows.len() {
            assert(rows[a].0 != rows[b].0);
        } else if a < rows.len() {
            assert(rows[a].0 != key);
        } else {
            assert(rows[b].0 != key);
        }
    }
    assert forall|a: int| 0 <= a < after.len() implies 0 <= (#[trigger] after[a]).1 <= after[a].2 <= total + 1 by {
        if a < rows.len() {
            assert(0 <= rows[a].1 <= rows[a].2 <= total);
        }
    }
}

/// Counts one more outcome under `key` in the rows per annotated value.
fn count_class(rows: &mut Vec<(String, usize, usize)>, key: &str, agreed: bool, total: Ghost<int>)
    requires
        distinct_keys(class_rows(old(rows)@)),
        rows_bounded(class_rows(old(rows)@), total@),
        0 <= total@ < usize::MAX,
    ensures
        distinct_keys(class_rows(final(rows)@)),
        rows_bounded(class_rows(final(rows)@), total@ + 1),
        class_rows(final(rows)@) == counted(class_rows(old(rows)@), key@, agreed),
{
    let ghost before = class_rows(rows@);
    let mut i: usize = 0;
    while i < rows.len()
        invariant
            i <= rows@.len(),
            before == class_rows(rows@),
            rows@ == old(rows)@,
            distinct_keys(before),
            rows_bounded(before, total@),
            0 <= total@ < usize::MAX,
            forall|j: int| 0 <= j < i ==> rows@[j].0@ != key@,
        decreases rows.len() - i,
    {
        if str_eq(rows[i].0.as_str(), key) {
            let (c, t) = (rows[i].1, rows[i].2);
            assert(before[i as int] == (rows@[i as int].0@, c as int, t as int));
            let name = string_of(chars_of(key).as_slice());
            let add: usize = if agreed {
                1
            } else {
                0
            };
            rows.set(i, (name, c + add, t + 1));
            proof {
                assert(class_rows(rows@) =~= before.update(i as int, (key@, before[i as int].1 + hit(agreed), before[i as int].2 + 1)));
                lemma_counted_rows(before, i as int, key@, agreed, total@);
                assert(counted(before, key@, agreed) == before.update(i as int, (key@, before[i as int].1 + hit(agreed), before[i as int].2 + 1)));
            }
            return;
        }
        i = i + 1;
    }
    let name = string_of(chars_of(key).as_slice());
    let add: usize = if agreed {
        1
    } else {
        0
    };
    rows.push((name, add, 1));
    proof {
        assert forall|j: int| 0 <= j < before.len() implies before[j].0 != key@ by {
            assert(before[j].0 == rows@[j].0@);
        }
        assert(class_rows(rows@) =~= before.push((key@, hit(agreed), 1)));
        lemma_new_row(before, key@, agreed, total@);
    }
}

/// Counts one more outcome under `key` in the rows per frame arity.
fn count_arity(rows: &mut Vec<(usize, usize, usize)>, key: usize, agreed: bool, total: Ghost<int>)
    requires
        distinct_keys(arity_rows(old(rows)@)),
        rows_bounded(arity_rows(old(rows)@), total@),
        0 <= total@ < usize::MAX,
    ensures
        distinct_keys(arity_rows(final(rows)@)),
        rows_bounded(arity_rows(final(rows)@), total@ + 1),
        arity_rows(final(rows)@) == counted(arity_rows(old(rows)@), key as int, agreed),
{
    let ghost before = arity_rows(rows@);
    let mut i: usize = 0;
    while i < rows.len()
        invariant
            i <= rows@.len(),
            before == arity_rows(rows@),
            rows@ == old(rows)@,
            distinct_keys(before),
            rows_bounded(before, total@),
            0 <= total@ < usize::MAX,
            forall|j: int| 0 <= j < i ==> rows@[j].0 != key,
        decreases rows.len() - i,
    {
        if rows[i].0 == key {
            let (c, t) = (rows[i].1, rows[i].2);
            assert(before[i as int] == (key as int, c as int, t as int));
            let add: usize = if agreed {
                1
            } else {
                0
            };
            rows.set(i, (key, c + add, t + 1));
            proof {
                assert(arity_rows(rows@) =~= before.update(i as int, (key as int, before[i as int].1 + hit(agreed), before[i as int].2 + 1)));
                lemma_counted_rows(before, i as int, key as int, agreed, total@);
                assert(counted(before, key as int, agreed) == before.update(i as int, (key as int, before[i as int].1 + hit(agreed), before[i as int].2 + 1)));
            }
            return;
        }
        i = i + 1;
    }
    let add: usize = if agreed {
        1
    } else {
        0
    };
    rows.push((key, add, 1));
    proof {
        assert forall|j: int| 0 <= j < before.len() implies before[j].0 != key as int by {
            assert(before[j].0 == rows@[j].0 as int);
        }
        assert(arity_rows(rows@) =~= before.push((key as int, hit(agreed), 1)));
        lemma_new_row(before, key as int, agreed, total@);
    }
}

/// Counts one more distribution, slot by slot, and returns how many of its
/// slots agreed.
fn count_slots(rows: &mut Vec<(usize, usize)>, agree: &Vec<bool>, total: Ghost<int>) -> (n: usize)
    requires
        forall|i: int| 0 <= i < old(rows)@.len() ==> (#[trigger] old(rows)@[i]).0 <= old(rows)@[i].1 <= total@,
        0 <= total@ < usize::MAX,
    ensures
        forall|i: int| 0 <= i < final(rows)@.len() ==> (#[trigger] final(rows)@[i]).0 <= final(rows)@[i].1 <= total@ + 1,
        slot_rows(final(rows)@) == slots_counted(slot_rows(old(rows)@), agree@),
        n == count_true(agree@),
{
    let ghost before = slot_rows(rows@);
    let ghost old_rows = rows@;
    let mut n: usize = 0;
    let mut i: usize = 0;
    while i < agree.len()
        invariant
            i <= agree@.len(),
            before == slot_rows(old_rows),
            0 <= total@ < usize::MAX,
            forall|k: int| 0 <= k < old_rows.len() ==> (#[trigger] old_rows[k]).0 <= old_rows[k].1 <= total@,
            rows@.len() == (if old_rows.len() >= i { old_rows.len() } else { i as nat }),
            forall|k: int| 0 <= k < i ==> #[trigger] slot_rows(rows@)[k] == (slot_at(before, k).0 + hit(agree@[k]), slot_at(before, k).1 + 1),
            forall|k: int| i <= k < old_rows.len() ==> #[trigger] rows@[k] == old_rows[k],
            forall|k: int| 0 <= k < rows@.len() ==> (#[trigger] rows@[k]).0 <= rows@[k].1 <= total@ + 1,
            n == count_true(agree@.take(i as int)),
            n <= i,
        decreases agree.len() - i,
    {
        let add: usize = if agree[i] {
            1
        } else {
            0
        };
        let ghost prev = rows@;
        if i < rows.len() {
            let (c, t) = rows[i];
            assert(i < old_rows.len());
            rows.set(i, (c + add, t + 1));
        } else {
            rows.push((add, 1));
        }
        proof {
            assert forall|k: int| 0 <= k < rows@.len() implies (#[trigger] rows@[k]).0 <= rows@[k].1 <= total@ + 1 by {
                if k != i {
                    assert(rows@[k] == prev[k]);
                }
            }
            assert(agree@.take(i + 1).drop_last() =~= agree@.take(i as int));
            assert forall|k: int| 0 <= k < i + 1 implies #[trigger] slot_rows(rows@)[k] == (slot_at(before, k).0 + hit(agree@[k]), slot_at(before, k).1 + 1) by {
                if k < i {
                    assert(rows@[k] == prev[k]);
                    assert(slot_rows(prev)[k] == slot_rows(rows@)[k]);
                }
            }
        }
        n = n + add;
        i = i + 1;
    }
    proof {
        assert(agree@.take(agree@.len() as int) =~= agree@);
        assert(slot_rows(rows@) =~= slots_counted(before, agree@));
    }
    n
}

} // verus!
