//! Tags from the Toakao dictionary, attached to entries by headword.

use crate::toadua::{opt_view, Toa, ToaView};
use std::collections::HashMap;
use vstd::prelude::*;

verus! {

/// A Toakao entry: a lemma and its space-separated tags, if any.
pub struct ToakaoEntry {
    pub lemma: String,
    pub tags: Option<String>,
}

/// No tags for any lemma.
pub open spec fn no_tags() -> Map<Seq<char>, Seq<char>> {
    Map::empty()
}

/// The tags a map holds for each lemma.
pub uninterp spec fn tag_contents(m: HashMap<String, String>) -> Map<Seq<char>, Seq<char>>;

/// `HashMap::new`: an empty map.
#[verifier::external_body]
fn new_tag_map() -> (m: HashMap<String, String>)
    ensures
        tag_contents(m) == no_tags(),
{
    HashMap::new()
}

/// `HashMap::insert`: the map afterwards holds `tags` for `lemma`, replacing
/// what it held for an equal string.
#[verifier::external_body]
fn insert_tags(m: &mut HashMap<String, String>, lemma: String, tags: String)
    ensures
        tag_contents(*final(m)) == tag_contents(*old(m)).insert(lemma@, tags@),
{
    m.insert(lemma, tags);
}

/// `HashMap::get` followed by `Option::cloned`: the tags held for `lemma`.
#[verifier::external_body]
fn tags_for(m: &HashMap<String, String>, lemma: &String) -> (r: Option<String>)
    ensures
        opt_view(r) == (if tag_contents(*m).contains_key(lemma@) {
            Some(tag_contents(*m)[lemma@])
        } else {
            None
        }),
{
    m.get(lemma).cloned()
}

/// The tags of the first `n` entries, later entries winning over earlier ones
/// for the same lemma; entries without tags, or with empty tags, add nothing.
pub open spec fn tags_upto(es: Seq<ToakaoEntry>, n: int) -> Map<Seq<char>, Seq<char>>
    decreases n,
{
    if n <= 0 {
        Map::empty()
    } else {
        let m = tags_upto(es, n - 1);
        let e = es[n - 1];
        match e.tags {
            Some(t) => if t@.len() > 0 {
                m.insert(e.lemma@, t@)
            } else {
                m
            },
            None => m,
        }
    }
}

/// The tags of each lemma of Toakao.
pub fn tag_map(entries: Vec<ToakaoEntry>) -> (r: HashMap<String, String>)
    ensures
        tag_contents(r) == tags_upto(entries@, entries@.len() as int),
{
    let mut m = new_tag_map();
    let mut i: usize = 0;
    while i < entries.len()
        invariant
            i <= entries@.len(),
            tag_contents(m) == tags_upto(entries@, i as int),
        decreases entries.len() - i,
    {
        let e = &entries[i];
        match &e.tags {
            Some(t) => {
                if !t.as_str().is_empty() {
                    insert_tags(&mut m, e.lemma.clone(), t.clone());
                }
            },
            None => {},
        }
        i = i + 1;
    }
    m
}

/// The entry with the tags that `tags` holds for its headword.
pub open spec fn tagged(t: ToaView, tags: Map<Seq<char>, Seq<char>>) -> ToaView {
    ToaView {
        tags: if tags.contains_key(t.head) {
            Some(tags[t.head])
        } else {
            None
        },
        ..t
    }
}

/// Gives each entry the tags that Toakao has for its headword.
pub fn attach_tags(dict: &mut Vec<Toa>, tags: &HashMap<String, String>)
    ensures
        final(dict)@.len() == old(dict)@.len(),
        forall|i: int|
            0 <= i < old(dict)@.len() ==> (#[trigger] final(dict)@[i])@ == tagged(
                old(dict)@[i]@,
                tag_contents(*tags),
            ),
{
    let mut i: usize = 0;
    while i < dict.len()
        invariant
            i <= dict@.len(),
            dict@.len() == old(dict)@.len(),
            forall|j: int|
                0 <= j < i ==> (#[trigger] dict@[j])@ == tagged(old(dict)@[j]@, tag_contents(*tags)),
            forall|j: int| i <= j < dict@.len() ==> #[trigger] dict@[j] == old(dict)@[j],
        decreases dict.len() - i,
    {
        let mut t = dict[i].clone();
        let found = tags_for(tags, &t.head);
        t.tags = found;
        dict.set(i, t);
        i = i + 1;
    }
}

} // verus!
