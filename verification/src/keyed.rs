//! Maps and sets keyed by Mod ID, kept in string order.

use vstd::prelude::*;
use crate::text::{seq_less, text_less, same_text, lemma_seq_less_irreflexive,
    lemma_seq_less_transitive, lemma_seq_less_total, lemma_seq_less_asymmetric};

verus! {

/// Keys in strictly increasing string order; hence each key occurs once.
pub open spec fn keys_sorted<V>(s: Seq<(Seq<char>, V)>) -> bool {
    forall|i: int, j: int| 0 <= i < j < s.len() ==> seq_less(#[trigger] s[i].0, #[trigger] s[j].0)
}

/// Whether some entry has `key`.
pub open spec fn has_key<V>(s: Seq<(Seq<char>, V)>, key: Seq<char>) -> bool {
    exists|i: int| 0 <= i < s.len() && #[trigger] s[i].0 == key
}

/// The value stored under `key`, when there is one.
pub open spec fn value_for<V>(s: Seq<(Seq<char>, V)>, key: Seq<char>) -> V {
    s[choose|i: int| 0 <= i < s.len() && #[trigger] s[i].0 == key].1
}

/// Sorted keys name at most one entry each.
pub proof fn lemma_unique_key<V>(s: Seq<(Seq<char>, V)>, i: int, j: int)
    requires
        keys_sorted(s),
        0 <= i < s.len(),
        0 <= j < s.len(),
        s[i].0 == s[j].0,
    ensures
        i == j,
{
    if i < j {
        lemma_seq_less_irreflexive(s[i].0);
    } else if j < i {
        lemma_seq_less_irreflexive(s[i].0);
    }
}

/// The value of the entry at `i` is the value for its key.
pub proof fn lemma_value_at<V>(s: Seq<(Seq<char>, V)>, i: int)
    requires
        keys_sorted(s),
        0 <= i < s.len(),
    ensures
        has_key(s, s[i].0),
        value_for(s, s[i].0) == s[i].1,
{
    let k = choose|k: int| 0 <= k < s.len() && #[trigger] s[k].0 == s[i].0;
    lemma_unique_key(s, i, k);
}

/// Values that can be copied exactly.
pub trait Duplicate: Sized {
    fn duplicate(&self) -> (r: Self)
        ensures
            r == *self,
    ;
}

impl Duplicate for usize {
    fn duplicate(&self) -> (r: usize) {
        *self
    }
}

impl Duplicate for () {
    fn duplicate(&self) -> (r: ()) {
        ()
    }
}

/// A map from Mod ID to `V`, in ID order. Each ID occurs once.
pub struct IdMap<V> {
    entries: Vec<(String, V)>,
}

impl<V> IdMap<V> {
    #[verifier::type_invariant]
    closed spec fn sorted(self) -> bool {
        keys_sorted(self.spec_entries())
    }

    /// The entries as (ID, value) pairs, in ID order.
    pub closed spec fn spec_entries(&self) -> Seq<(Seq<char>, V)> {
        self.entries@.map_values(|e: (String, V)| (e.0@, e.1))
    }

    /// An empty map.
    pub fn new() -> (r: IdMap<V>)
        ensures
            r.spec_entries().len() == 0,
    {
        IdMap { entries: Vec::new() }
    }

    /// The keys are sorted and hence unique.
    pub fn sorted_fact(&self)
        ensures
            keys_sorted(self.spec_entries()),
    {
        proof {
            use_type_invariant(self);
        }
    }

    /// Appends an entry whose key follows every key present.
    pub fn push_last(&mut self, key: String, value: V)
        requires
            forall|i: int| 0 <= i < old(self).spec_entries().len() ==> seq_less(#[trigger] old(self).spec_entries()[i].0, key@),
        ensures
            final(self).spec_entries() == old(self).spec_entries().push((key@, value)),
    {
        proof {
            use_type_invariant(&*self);
        }
        let ghost before = self.spec_entries();
        let mut entries: Vec<(String, V)> = Vec::new();
        std::mem::swap(&mut entries, &mut self.entries);
        entries.push((key, value));
        proof {
            let after = entries@.map_values(|e: (String, V)| (e.0@, e.1));
            assert(after =~= before.push((key@, value)));
            assert forall|i: int, j: int| 0 <= i < j < after.len() implies seq_less(#[trigger] after[i].0, #[trigger] after[j].0) by {
                if j == after.len() - 1 {
                    assert(after[i] == before[i]);
                } else {
                    assert(after[i] == before[i] && after[j] == before[j]);
                }
            }
        }
        self.entries = entries;
    }

    /// The number of entries.
    pub fn len(&self) -> (r: usize)
        ensures
            r == self.spec_entries().len(),
    {
        self.entries.len()
    }

    /// The ID of entry `i`.
    pub fn key_at(&self, i: usize) -> (r: &String)
        requires
            i < self.spec_entries().len(),
        ensures
            r@ == self.spec_entries()[i as int].0,
    {
        &self.entries[i].0
    }

    /// The value of entry `i`.
    pub fn value_at(&self, i: usize) -> (r: &V)
        requires
            i < self.spec_entries().len(),
        ensures
            *r == self.spec_entries()[i as int].1,
    {
        &self.entries[i].1
    }

    /// The index of the entry for `key`.
    pub fn find(&self, key: &str) -> (r: Option<usize>)
        ensures
            r matches Some(i) ==> i < self.spec_entries().len() && self.spec_entries()[i as int].0
                == key@,
            r is None ==> !has_key(self.spec_entries(), key@),
            r is Some == has_key(self.spec_entries(), key@),
    {
        let mut i: usize = 0;
        while i < self.entries.len()
            invariant
                i <= self.spec_entries().len(),
                forall|j: int| 0 <= j < i ==> self.spec_entries()[j].0 != key@,
            decreases self.entries.len() - i,
        {
            if same_text(self.entries[i].0.as_str(), key) {
                proof {
                    assert(self.spec_entries()[i as int].0 == key@);
                }
                return Some(i);
            }
            i = i + 1;
        }
        None
    }

    /// Whether `key` has an entry.
    pub fn contains(&self, key: &str) -> (r: bool)
        ensures
            r == has_key(self.spec_entries(), key@),
    {
        self.find(key).is_some()
    }

    /// The value for `key`.
    pub fn get(&self, key: &str) -> (r: Option<&V>)
        ensures
            r is Some == has_key(self.spec_entries(), key@),
            r matches Some(v) ==> *v == value_for(self.spec_entries(), key@),
    {
        match self.find(key) {
            Some(i) => {
                proof {
                    use_type_invariant(self);
                    lemma_value_at(self.spec_entries(), i as int);
                }
                Some(&self.entries[i].1)
            },
            None => None,
        }
    }

    /// Sets the value for `key`, replacing an existing one.
    pub fn insert(&mut self, key: String, value: V)
        ensures
            keys_sorted(final(self).spec_entries()),
            has_key(final(self).spec_entries(), key@),
            value_for(final(self).spec_entries(), key@) == value,
            forall|k: Seq<char>| k != key@ ==> (has_key(final(self).spec_entries(), k) == has_key(
                old(self).spec_entries(),
                k,
            )),
            forall|k: Seq<char>|
                k != key@ && has_key(old(self).spec_entries(), k) ==> value_for(
                    final(self).spec_entries(),
                    k,
                ) == value_for(old(self).spec_entries(), k),
            final(self).spec_entries().len() <= old(self).spec_entries().len() + 1,
            has_key(old(self).spec_entries(), key@) ==> final(self).spec_entries().len() == old(
                self,
            ).spec_entries().len(),
    {
        proof {
            use_type_invariant(&*self);
        }
        let ghost before = self.spec_entries();
        let mut i: usize = 0;
        while i < self.entries.len() && text_less(self.entries[i].0.as_str(), key.as_str())
            invariant
                i <= self.spec_entries().len(),
                self.spec_entries() == before,
                keys_sorted(before),
                forall|j: int| 0 <= j < i ==> seq_less(before[j].0, key@),
            decreases self.entries.len() - i,
        {
            i = i + 1;
        }
        if i < self.entries.len() && same_text(self.entries[i].0.as_str(), key.as_str()) {
            let ghost key_view = key@;
            let ghost value_copy = value;
            let mut entries: Vec<(String, V)> = Vec::new();
            std::mem::swap(&mut entries, &mut self.entries);
            entries.set(i, (key, value));
            proof {
                let after = entries@.map_values(|e: (String, V)| (e.0@, e.1));
                assert(after =~= before.update(i as int, (key_view, value_copy)));
                assert(keys_sorted(after)) by {
                    assert forall|a: int, b: int| 0 <= a < b < after.len() implies seq_less(
                        #[trigger] after[a].0,
                        #[trigger] after[b].0,
                    ) by {
                        assert(after[a].0 == before[a].0);
                        assert(after[b].0 == before[b].0);
                    }
                }
            }
            self.entries = entries;
            proof {
                let after = self.spec_entries();
                assert(after =~= before.update(i as int, (key_view, value_copy)));
                assert(keys_sorted(after)) by {
                    assert forall|a: int, b: int| 0 <= a < b < after.len() implies seq_less(
                        #[trigger] after[a].0,
                        #[trigger] after[b].0,
                    ) by {
                        assert(after[a].0 == before[a].0);
                        assert(after[b].0 == before[b].0);
                    }
                }
                lemma_value_at(after, i as int);
                assert forall|k: Seq<char>| k != key_view implies has_key(after, k) == has_key(
                    before,
                    k,
                ) by {
                    if has_key(after, k) {
                        let a = choose|a: int| 0 <= a < after.len() && #[trigger] after[a].0 == k;
                        assert(before[a].0 == k);
                    }
                    if has_key(before, k) {
                        let a = choose|a: int| 0 <= a < before.len() && #[trigger] before[a].0 == k;
                        assert(after[a].0 == k);
                    }
                }
                assert forall|k: Seq<char>| k != key_view && has_key(before, k) implies value_for(
                    after,
                    k,
                ) == value_for(before, k) by {
                    let a = choose|a: int| 0 <= a < before.len() && #[trigger] before[a].0 == k;
                    lemma_value_at(before, a);
                    assert(a != i);
                    assert(after[a] == before[a]);
                    lemma_value_at(after, a);
                }
            }
        } else {
            let ghost key_view = key@;
            let ghost value_copy = value;
            proof {
                // Every later key is strictly greater than `key`.
                assert forall|j: int| i <= j < before.len() implies seq_less(key_view, before[j].0) by {
                    if j == i {
                        if !seq_less(key_view, before[j].0) {
                            if key_view == before[j].0 {
                            } else {
                                lemma_seq_less_total(key_view, before[j].0);
                            }
                        }
                    } else {
                        if !seq_less(key_view, before[i as int].0) {
                            lemma_seq_less_total(key_view, before[i as int].0);
                        }
                        lemma_seq_less_transitive(key_view, before[i as int].0, before[j].0);
                    }
                }
            }
            let mut entries: Vec<(String, V)> = Vec::new();
            std::mem::swap(&mut entries, &mut self.entries);
            entries.insert(i, (key, value));
            proof {
                let after = entries@.map_values(|e: (String, V)| (e.0@, e.1));
                assert(after =~= before.insert(i as int, (key_view, value_copy)));
                assert(keys_sorted(after)) by {
                    assert forall|a: int, b: int| 0 <= a < b < after.len() implies seq_less(
                        #[trigger] after[a].0,
                        #[trigger] after[b].0,
                    ) by {
                        if b < i {
                        } else if b == i {
                        } else if a == i {
                        } else if a < i {
                            assert(after[b].0 == before[b - 1].0);
                            lemma_seq_less_transitive(before[a].0, key_view, before[b - 1].0);
                        } else {
                            assert(after[a].0 == before[a - 1].0);
                            assert(after[b].0 == before[b - 1].0);
                        }
                    }
                }
            }
            self.entries = entries;
            proof {
                let after = self.spec_entries();
                assert(after =~= before.insert(i as int, (key_view, value_copy)));
                assert(keys_sorted(after)) by {
                    assert forall|a: int, b: int| 0 <= a < b < after.len() implies seq_less(
                        #[trigger] after[a].0,
                        #[trigger] after[b].0,
                    ) by {
                        if b < i {
                        } else if b == i {
                        } else if a == i {
                        } else if a < i {
                            assert(after[b].0 == before[b - 1].0);
                            lemma_seq_less_transitive(before[a].0, key_view, before[b - 1].0);
                        } else {
                            assert(after[a].0 == before[a - 1].0);
                            assert(after[b].0 == before[b - 1].0);
                        }
                    }
                }
                lemma_value_at(after, i as int);
                assert forall|k: Seq<char>| k != key_view implies has_key(after, k) == has_key(
                    before,
                    k,
                ) by {
                    if has_key(after, k) {
                        let a = choose|a: int| 0 <= a < after.len() && #[trigger] after[a].0 == k;
                        if a < i {
                            assert(before[a].0 == k);
                        } else {
                            assert(a != i);
                            assert(before[a - 1].0 == k);
                        }
                    }
                    if has_key(before, k) {
                        let a = choose|a: int| 0 <= a < before.len() && #[trigger] before[a].0 == k;
                        if a < i {
                            assert(after[a].0 == k);
                        } else {
                            assert(after[a + 1].0 == k);
                        }
                    }
                }
                assert forall|k: Seq<char>| k != key_view && has_key(before, k) implies value_for(
                    after,
                    k,
                ) == value_for(before, k) by {
                    let a = choose|a: int| 0 <= a < before.len() && #[trigger] before[a].0 == k;
                    lemma_value_at(before, a);
                    if a < i {
                        assert(after[a] == before[a]);
                        lemma_value_at(after, a);
                    } else {
                        assert(after[a + 1] == before[a]);
                        lemma_value_at(after, a + 1);
                    }
                }
                if has_key(before, key_view) {
                    let a = choose|a: int| 0 <= a < before.len() && #[trigger] before[a].0 == key_view;
                    if a < i {
                        lemma_seq_less_irreflexive(key_view);
                    } else {
                        lemma_seq_less_irreflexive(key_view);
                    }
                }
            }
        }
    }
}

impl<V: Duplicate> IdMap<V> {
    /// A copy with the same entries.
    pub fn duplicate(&self) -> (r: IdMap<V>)
        ensures
            r.spec_entries() == self.spec_entries(),
    {
        proof {
            use_type_invariant(self);
        }
        let mut entries: Vec<(String, V)> = Vec::new();
        let mut i: usize = 0;
        while i < self.entries.len()
            invariant
                i <= self.entries@.len(),
                entries@.len() == i,
                forall|j: int| 0 <= j < i ==> (#[trigger] entries@[j]).0@ == self.entries@[j].0@ && entries@[j].1 == self.entries@[j].1,
            decreases self.entries.len() - i,
        {
            let key = self.entries[i].0.clone();
            let value = self.entries[i].1.duplicate();
            entries.push((key, value));
            i = i + 1;
        }
        proof {
            assert(entries@.map_values(|e: (String, V)| (e.0@, e.1)) =~= self.spec_entries());
        }
        IdMap { entries }
    }
}

/// A set of Mod IDs, in ID order.
pub struct IdSet {
    pub map: IdMap<()>,
}

impl View for IdSet {
    type V = Set<Seq<char>>;

    open spec fn view(&self) -> Set<Seq<char>> {
        Set::new(|x: Seq<char>| self.has(x))
    }
}

impl IdSet {
    /// The IDs, in order.
    pub open spec fn spec_ids(&self) -> Seq<Seq<char>> {
        self.map.spec_entries().map_values(|e: (Seq<char>, ())| e.0)
    }

    /// Whether `id` is a member.
    pub open spec fn has(&self, id: Seq<char>) -> bool {
        has_key(self.map.spec_entries(), id)
    }

    /// An empty set.
    pub fn new() -> (r: IdSet)
        ensures
            forall|id: Seq<char>| !r.has(id),
            r.map.spec_entries().len() == 0,
    {
        IdSet { map: IdMap::new() }
    }

    /// Adds `id`.
    pub fn insert(&mut self, id: String)
        ensures
            final(self).has(id@),
            forall|k: Seq<char>| k != id@ ==> final(self).has(k) == old(self).has(k),
    {
        self.map.insert(id, ());
    }

    /// Whether `id` is a member.
    pub fn contains(&self, id: &str) -> (r: bool)
        ensures
            r == self.has(id@),
    {
        self.map.contains(id)
    }

    /// The number of members.
    pub fn len(&self) -> (r: usize)
        ensures
            r == self.map.spec_entries().len(),
    {
        self.map.len()
    }

    /// The member at position `i`.
    pub fn id_at(&self, i: usize) -> (r: &String)
        requires
            i < self.map.spec_entries().len(),
        ensures
            r@ == self.map.spec_entries()[i as int].0,
    {
        self.map.key_at(i)
    }
}

} // verus!
