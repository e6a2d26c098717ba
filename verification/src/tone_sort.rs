//! The dictionary ordered by tone keys: each entry is keyed by the letters
//! of its headword with the tones moved out, the tones, where they stood,
//! its score (highest first), scope, date and definition.

use crate::collation::int_order;
use crate::data::{tone_key, tones};
use crate::order_laws::{
    lemma_seq_antisymmetric, lemma_seq_reflexive, lemma_seq_transitive, reversed, seq_order,
};
use crate::patterns::{bytes_regex_is_match, regex_is_match};
use crate::text::{
    chars_of, contains_char, contains_str, has_infix, has_prefix, seq_len, starts_with_str,
};
use crate::toadua::{marked_textspeak, textspeak_in, Toa, ToaView};
use crate::collation::views;
use std::cmp::Ordering;
use vstd::prelude::*;
use vstd::utf8::encode_utf8;

verus! {

/// Spellings of a plain-letter headword that call for a warning.
pub open spec fn loose_cluster(letters: Seq<char>) -> bool {
    ||| has_infix(letters, "ae"@)
    ||| has_infix(letters, "au"@)
    ||| has_infix(letters, "ou"@)
    ||| has_infix(letters, "nhi"@)
    ||| has_infix(letters, "vi"@)
    ||| has_infix(letters, "vu"@)
    ||| has_infix(letters, "aiq"@)
    ||| has_infix(letters, "aoq"@)
    ||| has_infix(letters, "eiq"@)
    ||| has_infix(letters, "oiq"@)
}

/// A plain-letter text made of raku, spaces and punctuation.
pub const PLAIN_RAKU: &'static str = "^((^|[mpbfntdczsrljvkg'h ]|[ncs]ʰ)[aeiou]?([aeo]i|ao|[aeiou][qm]?)|[ .,?!()])+$";

/// The characters a headword may be written with.
pub const PLAIN_HEAD_CHARS: &'static str = "aáäâạbcdeéëêẹfghıíïîịjklmnoóöôọpqrstuúüûụꝡz'AÁÄÂẠBCDEÉËÊẸFGHIÍÏÎỊJKLMNOÓÖÔỌPQRSTUÚÜÛỤꝠZ .,?!-\u{0323}()«»‹›\u{0301}\u{0308}\u{0302}";

/// Whether a headword holds a character it may not be written with.
pub open spec fn strange_char(head: Seq<char>) -> bool {
    exists|i: int| 0 <= i < head.len() && !PLAIN_HEAD_CHARS@.contains(#[trigger] head[i])
}

/// Whether an entry with the plain letters `letters` deserves a warning:
/// a loose cluster, letters not made of raku, a strange character or an
/// old author, unless it is marked as textspeak.
pub open spec fn plain_warn(t: ToaView, letters: Seq<char>) -> bool {
    &&& {
        ||| loose_cluster(letters)
        ||| regex_is_match(PLAIN_RAKU@, false, encode_utf8(letters)) != Some(true)
        ||| strange_char(t.head)
        ||| has_prefix(t.user, "old"@)
    }
    &&& !marked_textspeak(t)
}

/// The letters of a headword's tone key (empty without one).
pub open spec fn key_letters(head: Seq<char>) -> Seq<char> {
    match tone_key(head) {
        Some(k) => k.0,
        None => Seq::empty(),
    }
}

/// Whether an entry stays in the dictionary: its score is at least -2.
pub open spec fn scored_enough(t: ToaView) -> bool {
    t.score >= -2
}

/// Whether every entry among the first `k` that stays has a tone key.
pub open spec fn keys_exist_upto(ts: Seq<ToaView>, k: int) -> bool {
    forall|i: int| 0 <= i < k && scored_enough(#[trigger] ts[i]) ==> tone_key(ts[i].head) is Some
}

/// An entry that stays, with its warning set from its tone key.
pub open spec fn tone_entry(t: ToaView) -> ToaView {
    ToaView { warn: plain_warn(t, key_letters(t.head)), ..t }
}

/// The entries among the first `k` that stay, each with its warning set.
pub open spec fn tone_entries_upto(ts: Seq<ToaView>, k: int) -> Seq<ToaView>
    decreases k,
{
    if k <= 0 {
        Seq::empty()
    } else if scored_enough(ts[k - 1]) {
        tone_entries_upto(ts, k - 1).push(tone_entry(ts[k - 1]))
    } else {
        tone_entries_upto(ts, k - 1)
    }
}

/// The code points of a text (their order is that of the UTF-8 bytes).
pub open spec fn codes(s: Seq<char>) -> Seq<int> {
    s.map_values(|c: char| c as int)
}

/// Numbers as integers.
pub open spec fn nums(s: Seq<usize>) -> Seq<int> {
    s.map_values(|n: usize| n as int)
}

/// A position as an integer.
pub open spec fn idx(i: usize) -> int {
    i as int
}

/// The component of the sort key that a score gives: highest first.
pub open spec fn score_rank(score: i32) -> Seq<int> {
    seq![-(score as int)]
}

/// The sort key of an entry: its tone key, its score negated, its scope,
/// date and definition.
pub open spec fn sort_key(t: ToaView) -> Seq<Seq<int>> {
    let k = tone_key(t.head)->0;
    seq![
        codes(k.0),
        nums(k.1),
        nums(k.2),
        score_rank(t.score),
        codes(t.scope),
        codes(t.date),
        codes(t.body),
    ]
}

/// Lexicographic order of two keys from component `i` on.
pub open spec fn tuple_order(a: Seq<Seq<int>>, b: Seq<Seq<int>>, i: int) -> Ordering
    decreases a.len() - i,
{
    if i < 0 || i >= a.len() || i >= b.len() {
        Ordering::Equal
    } else if seq_order(a[i], b[i], 0) != Ordering::Equal {
        seq_order(a[i], b[i], 0)
    } else {
        tuple_order(a, b, i + 1)
    }
}

/// The order of two entries by their sort keys.
#[verifier::opaque]
pub open spec fn entry_order(x: ToaView, y: ToaView) -> Ordering {
    tuple_order(sort_key(x), sort_key(y), 0)
}

/// Whether `out` is `input` stably sorted by sort key, `p` telling where
/// each entry came from.
pub open spec fn is_key_sorting(input: Seq<ToaView>, out: Seq<ToaView>, p: Seq<int>) -> bool {
    &&& p.len() == input.len()
    &&& out.len() == input.len()
    &&& forall|i: int| 0 <= i < p.len() ==> 0 <= #[trigger] p[i] < input.len()
    &&& forall|i: int| 0 <= i < p.len() ==> #[trigger] out[i] == input[p[i]]
    &&& forall|i: int, j: int| 0 <= i < j < p.len() ==> p[i] != p[j]
    &&& forall|i: int, j: int|
        0 <= i < j < out.len() ==> entry_order(out[i], out[j]) != Ordering::Greater
    &&& forall|i: int, j: int|
        0 <= i < j < out.len() && entry_order(out[i], out[j]) == Ordering::Equal ==> p[i] < p[j]
}

/// Whether `out` is `input` stably sorted by sort key.
pub open spec fn is_key_sort(input: Seq<ToaView>, out: Seq<ToaView>) -> bool {
    exists|p: Seq<int>| #[trigger] is_key_sorting(input, out, p)
}

proof fn lemma_tuple_antisymmetric(a: Seq<Seq<int>>, b: Seq<Seq<int>>, i: int)
    ensures
        tuple_order(a, b, i) == reversed(tuple_order(b, a, i)),
    decreases a.len() - i,
{
    if 0 <= i < a.len() && i < b.len() {
        lemma_seq_antisymmetric(a[i], b[i], 0);
        if seq_order(a[i], b[i], 0) == Ordering::Equal {
            lemma_tuple_antisymmetric(a, b, i + 1);
        }
    }
}

proof fn lemma_tuple_transitive(a: Seq<Seq<int>>, b: Seq<Seq<int>>, c: Seq<Seq<int>>, i: int)
    requires
        a.len() == b.len() && b.len() == c.len(),
        tuple_order(a, b, i) != Ordering::Greater,
        tuple_order(b, c, i) != Ordering::Greater,
    ensures
        tuple_order(a, c, i) != Ordering::Greater,
    decreases a.len() - i,
{
    if 0 <= i < a.len() {
        lemma_seq_antisymmetric(a[i], b[i], 0);
        lemma_seq_antisymmetric(b[i], c[i], 0);
        lemma_seq_transitive(a[i], b[i], c[i], 0);
        if seq_order(a[i], b[i], 0) == Ordering::Equal && seq_order(b[i], c[i], 0)
            == Ordering::Equal {
            lemma_tuple_transitive(a, b, c, i + 1);
            lemma_seq_equal_is_same(a[i], b[i], 0);
            lemma_seq_equal_is_same(b[i], c[i], 0);
            assert(a[i] =~= c[i]);
            lemma_seq_reflexive(a[i], 0);
        }
    }
}

pub(crate) proof fn lemma_seq_equal_is_same(x: Seq<int>, y: Seq<int>, i: int)
    requires
        0 <= i <= x.len(),
        i <= y.len(),
        seq_order(x, y, i) == Ordering::Equal,
    ensures
        x.len() == y.len(),
        forall|j: int| i <= j < x.len() ==> x[j] == y[j],
    decreases x.len() - i,
{
    if i < x.len() && i < y.len() {
        lemma_seq_equal_is_same(x, y, i + 1);
    }
}

/// Entry order is transitive.
proof fn lemma_entry_transitive(x: ToaView, y: ToaView, z: ToaView)
    requires
        entry_order(x, y) != Ordering::Greater,
        entry_order(y, z) != Ordering::Greater,
    ensures
        entry_order(x, z) != Ordering::Greater,
{
    reveal(entry_order);
    lemma_tuple_transitive(sort_key(x), sort_key(y), sort_key(z), 0);
}

/// Entry order read from the other side is reversed.
proof fn lemma_entry_antisymmetric(x: ToaView, y: ToaView)
    ensures
        entry_order(x, y) == reversed(entry_order(y, x)),
{
    reveal(entry_order);
    lemma_tuple_antisymmetric(sort_key(x), sort_key(y), 0);
}

pub(crate) fn is_greater(o: Ordering) -> (r: bool)
    ensures
        r == (o == Ordering::Greater),
{
    match o {
        Ordering::Greater => true,
        _ => false,
    }
}

pub(crate) fn is_equal(o: Ordering) -> (r: bool)
    ensures
        r == (o == Ordering::Equal),
{
    match o {
        Ordering::Equal => true,
        _ => false,
    }
}

pub(crate) fn order_of_chars(a: &[char], b: &[char]) -> (r: Ordering)
    ensures
        r == seq_order(codes(a@), codes(b@), 0),
{
    let ghost ca = codes(a@);
    let ghost cb = codes(b@);
    let mut i: usize = 0;
    while i < a.len() && i < b.len()
        invariant
            i <= a@.len(),
            i <= b@.len(),
            ca == codes(a@),
            cb == codes(b@),
            seq_order(ca, cb, idx(i)) == seq_order(ca, cb, 0),
        decreases a.len() - i,
    {
        if a[i] != b[i] {
            assert(ca[idx(i)] != cb[idx(i)]);
            if a[i] < b[i] {
                assert(ca[idx(i)] < cb[idx(i)]);
                return Ordering::Less;
            } else {
                assert(ca[idx(i)] > cb[idx(i)]);
                return Ordering::Greater;
            }
        }
        assert(ca[idx(i)] == cb[idx(i)]);
        i = i + 1;
    }
    if a.len() < b.len() {
        Ordering::Less
    } else if a.len() == b.len() {
        Ordering::Equal
    } else {
        Ordering::Greater
    }
}

fn order_of_numbers(a: &[usize], b: &[usize]) -> (r: Ordering)
    ensures
        r == seq_order(nums(a@), nums(b@), 0),
{
    let ghost na = nums(a@);
    let ghost nb = nums(b@);
    let mut i: usize = 0;
    while i < a.len() && i < b.len()
        invariant
            i <= a@.len(),
            i <= b@.len(),
            na == nums(a@),
            nb == nums(b@),
            seq_order(na, nb, idx(i)) == seq_order(na, nb, 0),
        decreases a.len() - i,
    {
        if a[i] != b[i] {
            if a[i] < b[i] {
                return Ordering::Less;
            } else {
                return Ordering::Greater;
            }
        }
        i = i + 1;
    }
    if a.len() < b.len() {
        Ordering::Less
    } else if a.len() == b.len() {
        Ordering::Equal
    } else {
        Ordering::Greater
    }
}

/// The parts of an entry's sort key that come from its tone key.
struct KeyParts {
    letters: Vec<char>,
    tones: Vec<usize>,
    places: Vec<usize>,
}

spec fn parts_match(p: KeyParts, t: ToaView) -> bool {
    &&& tone_key(t.head) is Some
    &&& tone_key(t.head) matches Some(k) && p.letters@ == k.0 && p.tones@ == k.1 && p.places@
        == k.2
}

proof fn lemma_score_rank(a: i32)
    ensures
        score_rank(a).len() == 1,
        score_rank(a)[0] == -(a as int),
{
}

fn score_order(a: i32, b: i32) -> (r: Ordering)
    ensures
        r == seq_order(score_rank(a), score_rank(b), 0),
{
    proof {
        lemma_score_rank(a);
        lemma_score_rank(b);
        reveal_with_fuel(seq_order, 2);
    }
    if a > b {
        Ordering::Less
    } else if a == b {
        Ordering::Equal
    } else {
        Ordering::Greater
    }
}

proof fn lemma_key_parts(t: ToaView, p: KeyParts)
    requires
        parts_match(p, t),
    ensures
        sort_key(t).len() == 7,
        sort_key(t)[0] == codes(p.letters@),
        sort_key(t)[1] == nums(p.tones@),
        sort_key(t)[2] == nums(p.places@),
        sort_key(t)[3] == score_rank(t.score),
        sort_key(t)[4] == codes(t.scope),
        sort_key(t)[5] == codes(t.date),
        sort_key(t)[6] == codes(t.body),
{
}

fn compare_entries(x: &Toa, px: &KeyParts, y: &Toa, py: &KeyParts) -> (r: Ordering)
    requires
        parts_match(*px, x@),
        parts_match(*py, y@),
    ensures
        r == entry_order(x@, y@),
{
    let ghost kx = sort_key(x@);
    let ghost ky = sort_key(y@);
    proof {
        reveal(entry_order);
        lemma_key_parts(x@, *px);
        lemma_key_parts(y@, *py);
    }
    let o = order_of_chars(px.letters.as_slice(), py.letters.as_slice());
    if !is_equal(o) {
        return o;
    }
    assert(tuple_order(kx, ky, 0) == tuple_order(kx, ky, 1));
    let o = order_of_numbers(px.tones.as_slice(), py.tones.as_slice());
    if !is_equal(o) {
        return o;
    }
    assert(tuple_order(kx, ky, 0) == tuple_order(kx, ky, 2));
    let o = order_of_numbers(px.places.as_slice(), py.places.as_slice());
    if !is_equal(o) {
        return o;
    }
    assert(tuple_order(kx, ky, 0) == tuple_order(kx, ky, 3));
    let o = score_order(x.score, y.score);
    if !is_equal(o) {
        return o;
    }
    assert(tuple_order(kx, ky, 0) == tuple_order(kx, ky, 4));
    let o = order_of_chars(chars_of(x.scope.as_str()).as_slice(), chars_of(y.scope.as_str()).as_slice());
    if !is_equal(o) {
        return o;
    }
    assert(tuple_order(kx, ky, 0) == tuple_order(kx, ky, 5));
    let o = order_of_chars(chars_of(x.date.as_str()).as_slice(), chars_of(y.date.as_str()).as_slice());
    if !is_equal(o) {
        return o;
    }
    assert(tuple_order(kx, ky, 0) == tuple_order(kx, ky, 6));
    let o = order_of_chars(chars_of(x.body.as_str()).as_slice(), chars_of(y.body.as_str()).as_slice());
    assert(tuple_order(kx, ky, 7) == Ordering::Equal);
    o
}

fn loose_cluster_in(letters: &[char]) -> (r: bool)
    ensures
        r == loose_cluster(letters@),
{
    contains_str(letters, "ae") || contains_str(letters, "au") || contains_str(letters, "ou")
        || contains_str(letters, "nhi") || contains_str(letters, "vi") || contains_str(letters, "vu")
        || contains_str(letters, "aiq") || contains_str(letters, "aoq") || contains_str(letters, "eiq")
        || contains_str(letters, "oiq")
}

fn strange_char_in(head: &str) -> (r: bool)
    ensures
        r == strange_char(head@),
{
    let cs = chars_of(head);
    let allowed = chars_of(PLAIN_HEAD_CHARS);
    let mut i: usize = 0;
    while i < cs.len()
        invariant
            i <= cs@.len(),
            cs@ == head@,
            allowed@ == PLAIN_HEAD_CHARS@,
            forall|j: int| 0 <= j < i ==> PLAIN_HEAD_CHARS@.contains(#[trigger] head@[j]),
        decreases cs.len() - i,
    {
        if !contains_char(allowed.as_slice(), cs[i]) {
            assert(!PLAIN_HEAD_CHARS@.contains(head@[idx(i)]));
            return true;
        }
        i = i + 1;
    }
    false
}

fn warn_for(t: &Toa, letters: &Vec<char>) -> (r: bool)
    ensures
        r == plain_warn(t@, letters@),
{
    let text = crate::text::string_of(letters.as_slice());
    let raku = match bytes_regex_is_match(PLAIN_RAKU, false, text.as_str().as_bytes()) {
        Some(b) => b,
        None => false,
    };
    let user = chars_of(t.user.as_str());
    let suspicious = loose_cluster_in(letters.as_slice()) || !raku || strange_char_in(t.head.as_str())
        || starts_with_str(user.as_slice(), "old");
    suspicious && !textspeak_in(t)
}

/// Whether `order` lists the positions `0..n` of `input` once each, stably
/// sorted by entry order.
pub open spec fn ordered_positions(input: Seq<ToaView>, order: Seq<usize>, n: int) -> bool {
    &&& order.len() == n
    &&& forall|a: int| 0 <= a < order.len() ==> #[trigger] order[a] < n
    &&& forall|a: int, b: int| 0 <= a < b < order.len() ==> order[a] != order[b]
    &&& forall|a: int, b: int|
        0 <= a < b < order.len() ==> entry_order(
            input[idx(#[trigger] order[a])],
            input[idx(#[trigger] order[b])],
        ) != Ordering::Greater
    &&& forall|a: int, b: int|
        0 <= a < b < order.len() && entry_order(
            input[idx(#[trigger] order[a])],
            input[idx(#[trigger] order[b])],
        ) == Ordering::Equal ==> order[a] < order[b]
}

proof fn lemma_insert(input: Seq<ToaView>, before: Seq<usize>, j: int, n: usize)
    requires
        ordered_positions(input, before, idx(n)),
        idx(n) < input.len(),
        0 <= j <= before.len(),
        j > 0 ==> entry_order(input[idx(before[j - 1])], input[idx(n)]) != Ordering::Greater,
        forall|m: int|
            j <= m < before.len() ==> entry_order(input[idx(#[trigger] before[m])], input[idx(n)])
                == Ordering::Greater,
    ensures
        ordered_positions(input, before.insert(j, n), idx(n) + 1),
{
    let after = before.insert(j, n);
    let x = input[idx(n)];
    assert forall|a: int, b: int| 0 <= a < b < after.len() implies entry_order(
        input[idx(#[trigger] after[a])],
        input[idx(#[trigger] after[b])],
    ) != Ordering::Greater && (entry_order(input[idx(after[a])], input[idx(after[b])])
        == Ordering::Equal ==> after[a] < after[b]) && after[a] != after[b] by {
        if b < j {
            assert(after[a] == before[a] && after[b] == before[b]);
        } else if b == j {
            assert(after[a] == before[a] && after[b] == n);
            if a < j - 1 {
                lemma_entry_transitive(input[idx(before[a])], input[idx(before[j - 1])], x);
            }
        } else if a == j {
            assert(after[a] == n && after[b] == before[b - 1]);
            lemma_entry_antisymmetric(input[idx(before[b - 1])], x);
        } else if a < j {
            assert(after[a] == before[a] && after[b] == before[b - 1]);
        } else {
            assert(after[a] == before[a - 1] && after[b] == before[b - 1]);
        }
    }
    assert forall|a: int| 0 <= a < after.len() implies #[trigger] after[a] < idx(n) + 1 by {
        if a < j {
            assert(after[a] == before[a]);
        } else if a > j {
            assert(after[a] == before[a - 1]);
        }
    }
}

/// The positions of the staged entries, stably sorted by entry order.
fn sorted_positions(staged: &Vec<Toa>, parts: &Vec<KeyParts>) -> (r: Vec<usize>)
    requires
        parts@.len() == staged@.len(),
        forall|k: int| 0 <= k < staged@.len() ==> parts_match(#[trigger] parts@[k], staged@[k]@),
    ensures
        ordered_positions(views(staged@), r@, seq_len(staged@)),
{
    let ghost input = views(staged@);
    let mut order: Vec<usize> = Vec::new();
    let mut n: usize = 0;
    while n < staged.len()
        invariant
            n <= staged@.len(),
            input == views(staged@),
            parts@.len() == staged@.len(),
            forall|k: int| 0 <= k < staged@.len() ==> parts_match(#[trigger] parts@[k], staged@[k]@),
            ordered_positions(input, order@, idx(n)),
        decreases staged.len() - n,
    {
        let mut j: usize = order.len();
        while j > 0 && is_greater(
            compare_entries(&staged[order[j - 1]], &parts[order[j - 1]], &staged[n], &parts[n]),
        )
            invariant
                j <= order@.len(),
                n < staged@.len(),
                input == views(staged@),
                parts@.len() == staged@.len(),
                forall|k: int|
                    0 <= k < staged@.len() ==> parts_match(#[trigger] parts@[k], staged@[k]@),
                ordered_positions(input, order@, idx(n)),
                forall|m: int|
                    j <= m < order@.len() ==> entry_order(input[idx(#[trigger] order@[m])], input[idx(n)])
                        == Ordering::Greater,
            decreases j,
        {
            j = j - 1;
        }
        let ghost before = order@;
        proof {
            lemma_insert(input, before, idx(j), n);
        }
        order.insert(j, n);
        n = n + 1;
    }
    order
}

/// The entries that stay, with their warnings set and their key parts;
/// `None` when one of them has no tone key.
fn stage_entries(entries: &Vec<Toa>) -> (r: Option<(Vec<Toa>, Vec<KeyParts>)>)
    ensures
        r is Some == keys_exist_upto(views(entries@), seq_len(entries@)),
        r matches Some((staged, parts)) ==> {
            &&& views(staged@) == tone_entries_upto(views(entries@), seq_len(entries@))
            &&& parts@.len() == staged@.len()
            &&& forall|k: int|
                0 <= k < staged@.len() ==> parts_match(#[trigger] parts@[k], staged@[k]@)
        },
{
    let ghost ts = views(entries@);
    let mut staged: Vec<Toa> = Vec::new();
    let mut parts: Vec<KeyParts> = Vec::new();
    let mut i: usize = 0;
    while i < entries.len()
        invariant
            i <= entries@.len(),
            ts == views(entries@),
            keys_exist_upto(ts, idx(i)),
            views(staged@) == tone_entries_upto(ts, idx(i)),
            parts@.len() == staged@.len(),
            forall|k: int| 0 <= k < staged@.len() ==> parts_match(#[trigger] parts@[k], staged@[k]@),
        decreases entries.len() - i,
    {
        let t = &entries[i];
        assert(ts[idx(i)] == t@);
        if t.score >= -2 {
            match tones(t.head.as_str()) {
                None => {
                    assert(!keys_exist_upto(ts, seq_len(entries@)));
                    return None;
                },
                Some((key, tone_list, places)) => {
                    let letters = chars_of(key.as_str());
                    let mut u = t.clone();
                    u.warn = warn_for(t, &letters);
                    assert(u@ == tone_entry(t@));
                    let ghost before = views(staged@);
                    staged.push(u);
                    parts.push(KeyParts { letters, tones: tone_list, places });
                    assert(views(staged@) =~= before.push(tone_entry(t@)));
                },
            }
        }
        i = i + 1;
    }
    Some((staged, parts))
}

/// The staged entries in the given order.
fn pick_in_order(staged: &Vec<Toa>, order: &Vec<usize>) -> (r: Vec<Toa>)
    requires
        forall|a: int| 0 <= a < order@.len() ==> #[trigger] order@[a] < staged@.len(),
    ensures
        r@.len() == order@.len(),
        forall|a: int| 0 <= a < order@.len() ==> (#[trigger] r@[a])@ == staged@[idx(order@[a])]@,
{
    let mut out: Vec<Toa> = Vec::new();
    let mut k: usize = 0;
    while k < order.len()
        invariant
            k <= order@.len(),
            forall|a: int| 0 <= a < order@.len() ==> #[trigger] order@[a] < staged@.len(),
            out@.len() == k,
            forall|a: int| 0 <= a < k ==> (#[trigger] out@[a])@ == staged@[idx(order@[a])]@,
        decreases order.len() - k,
    {
        out.push(staged[order[k]].clone());
        k = k + 1;
    }
    out
}

/// The entries with a score of at least -2, each with its warning set from
/// its tone key, in the order of their sort keys (stably): by tone key,
/// then highest score first, then scope, date and definition.  `None` when
/// some such entry's headword has no tone key.
pub fn tone_sorted_entries(entries: Vec<Toa>) -> (r: Option<Vec<Toa>>)
    ensures
        r is Some == keys_exist_upto(views(entries@), seq_len(entries@)),
        r is Some ==> is_key_sort(
            tone_entries_upto(views(entries@), seq_len(entries@)),
            views(r->0@),
        ),
{
    let staged_parts = stage_entries(&entries);
    let (staged, parts) = match staged_parts {
        None => {
            return None;
        },
        Some(sp) => sp,
    };
    let ghost input = views(staged@);
    assert(input == tone_entries_upto(views(entries@), seq_len(entries@)));
    let order = sorted_positions(&staged, &parts);
    let out = pick_in_order(&staged, &order);
    proof {
        let p = order@.map_values(|x: usize| idx(x));
        let ov = views(out@);
        assert forall|i: int| 0 <= i < p.len() implies #[trigger] ov[i] == input[p[i]] by {
            assert(out@[i]@ == staged@[idx(order@[i])]@);
        }
        assert(is_key_sorting(input, ov, p));
        assert(is_key_sort(tone_entries_upto(views(entries@), seq_len(entries@)), views(out@)));
    }
    Some(out)
}

} // verus!
