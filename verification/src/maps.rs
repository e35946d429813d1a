//! Association tables keyed by Git object identifiers.
//!
//! The cross-commit memoization tables (directory, POM and source-subtree
//! memos) and the commit table are all maps from an object identifier to a
//! cached record. They are kept as association vectors with pairwise
//! distinct keys and abstracted as `Map<u64, _>`.

use vstd::prelude::*;

verus! {

/// The mathematical map described by an association list, later entries
/// taking precedence.
pub open spec fn assoc_map<V: View>(s: Seq<(u64, V)>) -> Map<u64, V::V>
    decreases s.len(),
{
    if s.len() == 0 {
        Map::empty()
    } else {
        assoc_map(s.drop_last()).insert(s.last().0, s.last().1@)
    }
}

/// All keys of the association list are pairwise distinct.
pub open spec fn distinct_keys<V: View>(s: Seq<(u64, V)>) -> bool {
    forall|i: int, j: int| 0 <= i < j < s.len() ==> s[i].0 != s[j].0
}

/// Under distinct keys, each entry of the list is reflected in the map.
pub proof fn lemma_assoc_map_index<V: View>(s: Seq<(u64, V)>, i: int)
    requires
        distinct_keys(s),
        0 <= i < s.len(),
    ensures
        assoc_map(s).contains_key(s[i].0),
        assoc_map(s)[s[i].0] == s[i].1@,
    decreases s.len(),
{
    if i < s.len() - 1 {
        assert(distinct_keys(s.drop_last())) by {
            assert(forall|x: int, y: int|
                0 <= x < y < s.drop_last().len() ==> s.drop_last()[x].0 != s.drop_last()[y].0);
        }
        lemma_assoc_map_index(s.drop_last(), i);
        assert(s.last().0 != s[i].0);
    }
}

/// A key held by no entry of the list is absent from the map.
pub proof fn lemma_assoc_map_absent<V: View>(s: Seq<(u64, V)>, k: u64)
    requires
        forall|i: int| 0 <= i < s.len() ==> s[i].0 != k,
    ensures
        !assoc_map(s).contains_key(k),
    decreases s.len(),
{
    if s.len() > 0 {
        lemma_assoc_map_absent(s.drop_last(), k);
    }
}

/// Association table from object identifiers to cached records.
pub struct OidMap<V> {
    entries: Vec<(u64, V)>,
}

impl<V: View> View for OidMap<V> {
    type V = Map<u64, V::V>;

    closed spec fn view(&self) -> Map<u64, V::V> {
        assoc_map(self.entries@)
    }
}

impl<V: View> OidMap<V> {
    /// The table's keys are pairwise distinct.
    pub closed spec fn wf(&self) -> bool {
        distinct_keys(self.entries@)
    }

    /// An empty table.
    pub fn new() -> (r: OidMap<V>)
        ensures
            r.wf(),
            r@ == Map::<u64, V::V>::empty(),
    {
        OidMap { entries: Vec::new() }
    }

    /// Look a key up.
    pub fn get(&self, k: u64) -> (r: Option<&V>)
        requires
            self.wf(),
        ensures
            match r {
                Some(v) => self@.contains_key(k) && self@[k] == v@,
                None => !self@.contains_key(k),
            },
    {
        let mut i: usize = 0;
        while i < self.entries.len()
            invariant
                self.wf(),
                i <= self.entries@.len(),
                forall|j: int| 0 <= j < i ==> self.entries@[j].0 != k,
            decreases self.entries@.len() - i,
        {
            if self.entries[i].0 == k {
                proof {
                    lemma_assoc_map_index(self.entries@, i as int);
                }
                return Some(&self.entries[i].1);
            }
            i = i + 1;
        }
        proof {
            lemma_assoc_map_absent(self.entries@, k);
        }
        None
    }

    /// Whether a key is present.
    pub fn contains_key(&self, k: u64) -> (r: bool)
        requires
            self.wf(),
        ensures
            r == self@.contains_key(k),
    {
        self.get(k).is_some()
    }

    /// Insert a binding, replacing any previous one for the same key.
    pub fn insert(&mut self, k: u64, v: V)
        requires
            old(self).wf(),
        ensures
            final(self).wf(),
            final(self)@ == old(self)@.insert(k, v@),
    {
        let ghost old_entries = old(self).entries@;
        let mut i: usize = 0;
        while i < self.entries.len()
            invariant
                self.entries@ == old_entries,
                old(self).entries@ == old_entries,
                distinct_keys(old_entries),
                i <= old_entries.len(),
                forall|j: int| 0 <= j < i ==> old_entries[j].0 != k,
            decreases old_entries.len() - i,
        {
            if self.entries[i].0 == k {
                proof {
                    lemma_assoc_overwrite(old_entries, i as int, k, v);
                }
                self.entries.set(i, (k, v));
                proof {
                    assert(self.entries@ == old_entries.update(i as int, (k, v)));
                    assert(assoc_map(self.entries@) == assoc_map(old_entries).insert(k, v@));
                }
                return ;
            }
            i = i + 1;
        }
        self.entries.push((k, v));
        proof {
            assert(self.entries@.drop_last() =~= old_entries);
        }
    }
}

/// Updating the one entry that holds a key rewrites exactly that key's value.
proof fn lemma_assoc_overwrite<V: View>(s: Seq<(u64, V)>, i: int, k: u64, v: V)
    requires
        distinct_keys(s),
        0 <= i < s.len(),
        s[i].0 == k,
        forall|j: int| 0 <= j < i ==> s[j].0 != k,
    ensures
        distinct_keys(s.update(i, (k, v))),
        assoc_map(s.update(i, (k, v))) == assoc_map(s).insert(k, v@),
    decreases s.len(),
{
    let t = s.update(i, (k, v));
    if i == s.len() - 1 {
        assert(t.drop_last() =~= s.drop_last());
        assert(t.last() == (k, v));
        assert(assoc_map(t) =~= assoc_map(s).insert(k, v@));
    } else {
        assert(distinct_keys(s.drop_last()));
        lemma_assoc_overwrite(s.drop_last(), i, k, v);
        assert(t.drop_last() =~= s.drop_last().update(i, (k, v)));
        assert(t.last() == s.last());
        assert(s.last().0 != k);
        assert(assoc_map(t) == assoc_map(t.drop_last()).insert(t.last().0, t.last().1@));
        assert(assoc_map(t) =~= assoc_map(s).insert(k, v@));
    }
}

} // verus!
