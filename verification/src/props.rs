//! The flat property namespace.
//!
//! A `PropertyMap` collects dotted string keys and their string values. Its
//! mathematical view is a `Map<Seq<char>, Seq<char>>`; on repeated insertion
//! of a key, the later value wins, which is what the merge precedence of the
//! two remote sources relies on.

use crate::order::str_eq;
use vstd::prelude::*;

verus! {

/// The view of an entry sequence: later entries win on key collision.
pub open spec fn assoc_view(s: Seq<(String, String)>) -> Map<Seq<char>, Seq<char>>
    decreases s.len(),
{
    if s.len() == 0 {
        Map::empty()
    } else {
        assoc_view(s.drop_last()).insert(s.last().0@, s.last().1@)
    }
}

/// A flat mapping from dotted keys to property values.
#[derive(Debug)]
pub struct PropertyMap {
    entries: Vec<(String, String)>,
}

impl View for PropertyMap {
    type V = Map<Seq<char>, Seq<char>>;

    closed spec fn view(&self) -> Map<Seq<char>, Seq<char>> {
        assoc_view(self.entries@)
    }
}

/// A key is in the view exactly when some entry holds it.
proof fn lemma_assoc_view_dom(s: Seq<(String, String)>, k: Seq<char>)
    ensures
        assoc_view(s).contains_key(k) <==> exists|i: int| 0 <= i < s.len() && s[i].0@ == k,
    decreases s.len(),
{
    if s.len() > 0 {
        lemma_assoc_view_dom(s.drop_last(), k);
        if assoc_view(s).contains_key(k) && s.last().0@ != k {
            let i = choose|i: int| 0 <= i < s.drop_last().len() && s.drop_last()[i].0@ == k;
            assert(s[i].0@ == k);
        }
        if exists|i: int| 0 <= i < s.len() && s[i].0@ == k {
            let i = choose|i: int| 0 <= i < s.len() && s[i].0@ == k;
            if i < s.len() - 1 {
                assert(s.drop_last()[i].0@ == k);
            }
        }
    }
}

/// If no entry at or after position `i` holds key `k`, the lookup of `k`
/// is decided by the prefix before `i`.
proof fn lemma_assoc_view_prefix(s: Seq<(String, String)>, i: int, k: Seq<char>)
    requires
        0 <= i <= s.len(),
        forall|j: int| i <= j < s.len() ==> s[j].0@ != k,
    ensures
        assoc_view(s).contains_key(k) == assoc_view(s.take(i)).contains_key(k),
        assoc_view(s).contains_key(k) ==> assoc_view(s)[k] == assoc_view(s.take(i))[k],
    decreases s.len() - i,
{
    if i < s.len() {
        assert(s.take(i + 1).drop_last() =~= s.take(i));
        assert(s.take(i + 1).last() == s[i]);
        lemma_assoc_view_prefix(s, i + 1, k);
    } else {
        assert(s.take(i) =~= s);
    }
}

impl PropertyMap {
    /// An empty property map.
    pub fn new() -> (r: PropertyMap)
        ensures
            r@ == Map::<Seq<char>, Seq<char>>::empty(),
    {
        PropertyMap { entries: Vec::new() }
    }

    /// Inserts a key/value pair; a later insertion of the same key wins.
    pub fn insert(&mut self, key: String, value: String)
        ensures
            final(self)@ == old(self)@.insert(key@, value@),
    {
        let ghost k = key@;
        let ghost v = value@;
        let ghost before = self.entries@;
        self.entries.push((key, value));
        proof {
            assert(self.entries@.drop_last() =~= before);
            assert(self.entries@.last().0@ == k);
            assert(self.entries@.last().1@ == v);
        }
    }

    /// Looks the key up; the latest inserted value for it is returned.
    pub fn get(&self, key: &str) -> (r: Option<&String>)
        ensures
            match r {
                Some(v) => self@.contains_key(key@) && v@ == self@[key@],
                None => !self@.contains_key(key@),
            },
    {
        let mut i: usize = self.entries.len();
        while i > 0
            invariant
                i <= self.entries.len(),
                forall|j: int| i <= j < self.entries@.len() ==> self.entries@[j].0@ != key@,
            decreases i,
        {
            i = i - 1;
            if str_eq(self.entries[i].0.as_str(), key) {
                proof {
                    lemma_assoc_view_prefix(self.entries@, i + 1, key@);
                    assert(self.entries@.take(i + 1).drop_last() =~= self.entries@.take(i as int));
                    assert(self.entries@.take(i + 1).last() == self.entries@[i as int]);
                }
                return Some(&self.entries[i].1);
            }
        }
        proof {
            lemma_assoc_view_prefix(self.entries@, 0, key@);
            assert(self.entries@.take(0) =~= Seq::<(String, String)>::empty());
        }
        None
    }

    /// True when the key is present.
    pub fn contains_key(&self, key: &str) -> (r: bool)
        ensures
            r == self@.contains_key(key@),
    {
        self.get(key).is_some()
    }

    /// Appends every entry of `other`, so that `other`'s value wins wherever
    /// both maps hold a key.
    pub fn insert_all(&mut self, other: &PropertyMap)
        ensures
            final(self)@ == old(self)@.union_prefer_right(other@),
    {
        let ghost dest0 = self.entries@;
        let ghost src = other.entries@;
        let mut j: usize = 0;
        while j < other.entries.len()
            invariant
                j <= src.len(),
                other.entries@ == src,
                self.entries@ == dest0 + src.take(j as int),
            decreases src.len() - j,
        {
            let pair = (other.entries[j].0.clone(), other.entries[j].1.clone());
            self.entries.push(pair);
            proof {
                assert(self.entries@ =~= dest0 + src.take(j + 1));
            }
            j = j + 1;
        }
        proof {
            assert(src.take(src.len() as int) =~= src);
            lemma_assoc_view_concat(dest0, src);
        }
    }

    /// The sequence of keys as inserted, latest last.
    pub closed spec fn key_seq(&self) -> Seq<Seq<char>> {
        self.entries@.map_values(|p: (String, String)| p.0@)
    }

    /// The number of entries held (collided keys count each insertion).
    pub fn entry_count(&self) -> (n: usize)
        ensures
            n == self.key_seq().len(),
    {
        self.entries.len()
    }

    /// The key of the entry at `i`, as inserted.
    pub fn key_at(&self, i: usize) -> (k: &String)
        requires
            i < self.key_seq().len(),
        ensures
            k@ == self.key_seq()[i as int],
    {
        &self.entries[i].0
    }

    /// Every key of an entry is in the view's domain.
    pub proof fn lemma_keys_in_dom(&self)
        ensures
            forall|i: int|
                0 <= i < self.key_seq().len() ==> self@.contains_key(#[trigger] self.key_seq()[i]),
            forall|k: Seq<char>| self@.contains_key(k) ==> self.key_seq().contains(k),
    {
        assert forall|i: int| 0 <= i < self.key_seq().len() implies self@.contains_key(
            #[trigger] self.key_seq()[i],
        ) by {
            lemma_assoc_view_dom(self.entries@, self.key_seq()[i]);
        }
        assert forall|k: Seq<char>| self@.contains_key(k) implies self.key_seq().contains(k) by {
            lemma_assoc_view_dom(self.entries@, k);
            let i = choose|i: int| 0 <= i < self.entries@.len() && self.entries@[i].0@ == k;
            assert(self.key_seq()[i] == k);
        }
    }
}

/// Concatenating entry sequences unions their views, preferring the right.
proof fn lemma_assoc_view_concat(a: Seq<(String, String)>, b: Seq<(String, String)>)
    ensures
        assoc_view(a + b) == assoc_view(a).union_prefer_right(assoc_view(b)),
    decreases b.len(),
{
    if b.len() == 0 {
        assert(a + b =~= a);
        assert(assoc_view(a).union_prefer_right(assoc_view(b)) =~= assoc_view(a));
    } else {
        lemma_assoc_view_concat(a, b.drop_last());
        assert((a + b).drop_last() =~= a + b.drop_last());
        assert((a + b).last() == b.last());
        assert(assoc_view(a).union_prefer_right(
            assoc_view(b.drop_last()).insert(b.last().0@, b.last().1@),
        ) =~= assoc_view(a).union_prefer_right(assoc_view(b.drop_last())).insert(
            b.last().0@,
            b.last().1@,
        ));
    }
}

/// The merged view of a sequence of property maps: an entry of a later map
/// wins over an earlier one.
pub open spec fn merged_view(ms: Seq<PropertyMap>) -> Map<Seq<char>, Seq<char>>
    decreases ms.len(),
{
    if ms.len() == 0 {
        Map::empty()
    } else {
        merged_view(ms.drop_last()).union_prefer_right(ms.last()@)
    }
}

/// Merges the given maps into one; on key collision the value of the
/// latest map in the sequence wins.
pub fn merge_properties(properties: Vec<PropertyMap>) -> (merged: PropertyMap)
    ensures
        merged@ == merged_view(properties@),
{
    let mut merged = PropertyMap::new();
    let mut i: usize = 0;
    while i < properties.len()
        invariant
            i <= properties@.len(),
            merged@ == merged_view(properties@.take(i as int)),
        decreases properties@.len() - i,
    {
        merged.insert_all(&properties[i]);
        proof {
            assert(properties@.take(i + 1).drop_last() =~= properties@.take(i as int));
            assert(properties@.take(i + 1).last() == properties@[i as int]);
        }
        i = i + 1;
    }
    proof {
        assert(properties@.take(properties@.len() as int) =~= properties@);
    }
    merged
}

/// On a key that two merged maps share, the later map's value is the one
/// the merge returns; an earlier map never shadows a later one.
pub proof fn lemma_merge_prefers_later(
    earlier: Map<Seq<char>, Seq<char>>,
    later: Map<Seq<char>, Seq<char>>,
    k: Seq<char>,
)
    requires
        later.contains_key(k),
    ensures
        earlier.union_prefer_right(later).contains_key(k),
        earlier.union_prefer_right(later)[k] == later[k],
{
}

} // verus!
