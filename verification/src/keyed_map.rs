//! Maps keyed by values that are identified by integers.
//!
//! The entries are kept in insertion order, and no identity occurs twice.
use crate::multiset::Member;
use crate::util::{repeated_size, DataSized, Information};
use vstd::prelude::*;

verus! {

/// No identity occurs twice among the entries.
pub open spec fn ids_distinct<K: Member, V>(s: Seq<(K, V)>) -> bool {
    forall|i: int, j: int| 0 <= i < j < s.len() ==> s[i].0.id() != s[j].0.id()
}

/// The map that the entries denote.
pub open spec fn entries_map<K: Member, V>(s: Seq<(K, V)>) -> Map<int, V>
    decreases s.len(),
{
    if s.len() == 0 {
        Map::empty()
    } else {
        entries_map(s.drop_last()).insert(s.last().0.id(), s.last().1)
    }
}

pub proof fn lemma_entries_map_index<K: Member, V>(s: Seq<(K, V)>, i: int)
    requires
        ids_distinct(s),
        0 <= i < s.len(),
    ensures
        entries_map(s).contains_key(s[i].0.id()),
        entries_map(s)[s[i].0.id()] == s[i].1,
    decreases s.len(),
{
    if i < s.len() - 1 {
        lemma_entries_map_index(s.drop_last(), i);
    }
}

pub proof fn lemma_entries_map_dom<K: Member, V>(s: Seq<(K, V)>, id: int)
    ensures
        entries_map(s).contains_key(id) <==> exists|i: int| 0 <= i < s.len() && #[trigger] s[i].0.id() == id,
    decreases s.len(),
{
    if s.len() > 0 {
        lemma_entries_map_dom(s.drop_last(), id);
        if entries_map(s.drop_last()).contains_key(id) {
            let i = choose|i: int| 0 <= i < s.drop_last().len() && #[trigger] s.drop_last()[i].0.id() == id;
            assert(s[i].0.id() == id);
        }
        if exists|i: int| 0 <= i < s.len() && #[trigger] s[i].0.id() == id {
            let i = choose|i: int| 0 <= i < s.len() && #[trigger] s[i].0.id() == id;
            if i < s.len() - 1 {
                assert(s.drop_last()[i].0.id() == id);
            }
        }
    }
}

proof fn lemma_entries_map_update<K: Member, V>(s: Seq<(K, V)>, i: int, v: V)
    requires
        ids_distinct(s),
        0 <= i < s.len(),
    ensures
        entries_map(s.update(i, (s[i].0, v))) == entries_map(s).insert(s[i].0.id(), v),
    decreases s.len(),
{
    let t = s.update(i, (s[i].0, v));
    if i == s.len() - 1 {
        assert(t.drop_last() =~= s.drop_last());
        lemma_entries_map_dom(s.drop_last(), s[i].0.id());
        assert(entries_map(t) =~= entries_map(s).insert(s[i].0.id(), v));
    } else {
        assert(t.drop_last() =~= s.drop_last().update(i, (s[i].0, v)));
        lemma_entries_map_update(s.drop_last(), i, v);
        assert(entries_map(t) =~= entries_map(s).insert(s[i].0.id(), v));
    }
}

proof fn lemma_entries_map_remove<K: Member, V>(s: Seq<(K, V)>, i: int)
    requires
        ids_distinct(s),
        0 <= i < s.len(),
    ensures
        entries_map(s.remove(i)) == entries_map(s).remove(s[i].0.id()),
        ids_distinct(s.remove(i)),
    decreases s.len(),
{
    let t = s.remove(i);
    if i == s.len() - 1 {
        assert(t =~= s.drop_last());
        lemma_entries_map_dom(s.drop_last(), s[i].0.id());
        assert(entries_map(t) =~= entries_map(s).remove(s[i].0.id()));
    } else {
        assert(t.drop_last() =~= s.drop_last().remove(i));
        lemma_entries_map_remove(s.drop_last(), i);
        assert(t.last() == s.last());
        assert(entries_map(t) =~= entries_map(s).remove(s[i].0.id()));
    }
}

/// A map from values identified by integers to values.
#[derive(Debug)]
pub struct KeyedMap<K: Member, V> {
    entries: Vec<(K, V)>,
}

impl<K: Member, V> KeyedMap<K, V> {
    #[verifier::type_invariant]
    closed spec fn distinct(&self) -> bool {
        ids_distinct(self.entries@)
    }

    /// The entries, in insertion order.
    pub closed spec fn entries(&self) -> Seq<(K, V)> {
        self.entries@
    }
}

impl<K: Member, V> View for KeyedMap<K, V> {
    type V = Map<int, V>;

    open spec fn view(&self) -> Map<int, V> {
        entries_map(self.entries())
    }
}

/// The index of the entry whose key is identified like `key`, if any.
fn find_key<K: Member, V>(entries: &Vec<(K, V)>, key: &K) -> (r: Option<usize>)
    ensures
        match r {
            Some(i) => i < entries@.len() && entries@[i as int].0.id() == key.id(),
            None => !entries_map(entries@).contains_key(key.id()),
        },
{
    let mut i: usize = 0;
    while i < entries.len()
        invariant
            i <= entries@.len(),
            forall|j: int| 0 <= j < i ==> entries@[j].0.id() != key.id(),
        decreases entries@.len() - i,
    {
        if entries[i].0.same(key) {
            return Some(i);
        }
        i += 1;
    }
    proof {
        lemma_entries_map_dom(entries@, key.id());
    }
    None
}

impl<K: Member, V> KeyedMap<K, V> {
    pub fn new() -> (r: Self)
        ensures
            r@ == Map::<int, V>::empty(),
            r.entries().len() == 0,
    {
        KeyedMap { entries: Vec::new() }
    }

    /// The number of entries.
    pub fn len(&self) -> (r: usize)
        ensures
            r == self.entries().len(),
            ids_distinct(self.entries()),
    {
        proof {
            use_type_invariant(self);
        }
        self.entries.len()
    }

    /// The key of the `i`-th entry.
    pub fn key_at(&self, i: usize) -> (r: &K)
        requires
            i < self.entries().len(),
        ensures
            *r == self.entries()[i as int].0,
            self@.contains_key(r.id()),
            self@[r.id()] == self.entries()[i as int].1,
    {
        proof {
            use_type_invariant(self);
            lemma_entries_map_index(self.entries@, i as int);
        }
        &self.entries[i].0
    }

    /// The value of the `i`-th entry.
    pub fn value_at(&self, i: usize) -> (r: &V)
        requires
            i < self.entries().len(),
        ensures
            *r == self.entries()[i as int].1,
    {
        &self.entries[i].1
    }

    /// The index of the entry for `key`, if there is one.
    pub fn index_of(&self, key: &K) -> (r: Option<usize>)
        ensures
            match r {
                Some(i) => i < self.entries().len() && self.entries()[i as int].0.id() == key.id()
                    && self@.contains_key(key.id()) && self@[key.id()] == self.entries()[i as int].1,
                None => !self@.contains_key(key.id()),
            },
    {
        proof {
            use_type_invariant(self);
        }
        let r = find_key(&self.entries, key);
        proof {
            if let Some(i) = r {
                lemma_entries_map_index(self.entries@, i as int);
            }
        }
        r
    }

    /// The value for `key`, if there is one.
    pub fn get(&self, key: &K) -> (r: Option<&V>)
        ensures
            match r {
                Some(v) => self@.contains_key(key.id()) && *v == self@[key.id()],
                None => !self@.contains_key(key.id()),
            },
    {
        match self.index_of(key) {
            Some(i) => Some(&self.entries[i].1),
            None => None,
        }
    }

    /// Whether `key` has a value.
    pub fn contains_key(&self, key: &K) -> (r: bool)
        ensures
            r == self@.contains_key(key.id()),
    {
        self.index_of(key).is_some()
    }

    /// Replaces the value of the `i`-th entry, handing back the old one.
    pub fn replace_at(&mut self, i: usize, value: V) -> (r: V)
        requires
            i < old(self).entries().len(),
        ensures
            r == old(self).entries()[i as int].1,
            final(self).entries() == old(self).entries().update(
                i as int,
                (old(self).entries()[i as int].0, value),
            ),
            final(self)@ == old(self)@.insert(old(self).entries()[i as int].0.id(), value),
    {
        proof {
            use_type_invariant(&*self);
        }
        let ghost s = self.entries@;
        let mut entries: Vec<(K, V)> = Vec::new();
        std::mem::swap(&mut entries, &mut self.entries);
        let (key, old_value) = entries.remove(i);
        entries.insert(i, (key, value));
        proof {
            assert(entries@ =~= s.update(i as int, (s[i as int].0, value)));
            lemma_entries_map_update(s, i as int, value);
        }
        self.entries = entries;
        old_value
    }

    /// Maps `key` to `value`, replacing an earlier value for it.
    pub fn insert(&mut self, key: K, value: V)
        ensures
            final(self)@ == old(self)@.insert(key.id(), value),
            old(self)@.contains_key(key.id()) ==> final(self).entries().len() == old(self).entries().len(),
            !old(self)@.contains_key(key.id()) ==> final(self).entries().len() == old(self).entries().len()
                + 1,
    {
        proof {
            use_type_invariant(&*self);
        }
        match find_key(&self.entries, &key) {
            Some(i) => {
                proof {
                    lemma_entries_map_index(self.entries@, i as int);
                }
                let _ = self.replace_at(i, value);
            },
            None => {
                let ghost s = self.entries@;
                proof {
                    lemma_entries_map_dom(s, key.id());
                }
                let mut entries: Vec<(K, V)> = Vec::new();
                std::mem::swap(&mut entries, &mut self.entries);
                entries.push((key, value));
                assert(entries@.drop_last() =~= s);
                assert(entries@.len() == s.len() + 1);
                self.entries = entries;
            },
        }
    }

    /// Removes the value for `key`, handing it back if there was one.
    pub fn remove(&mut self, key: &K) -> (r: Option<V>)
        ensures
            final(self)@ == old(self)@.remove(key.id()),
            match r {
                Some(v) => old(self)@.contains_key(key.id()) && v == old(self)@[key.id()],
                None => !old(self)@.contains_key(key.id()),
            },
    {
        proof {
            use_type_invariant(&*self);
        }
        let ghost s = self.entries@;
        let mut entries: Vec<(K, V)> = Vec::new();
        std::mem::swap(&mut entries, &mut self.entries);
        let r = match find_key(&entries, key) {
            Some(i) => {
                proof {
                    lemma_entries_map_index(s, i as int);
                    lemma_entries_map_remove(s, i as int);
                }
                let (_, v) = entries.remove(i);
                Some(v)
            },
            None => {
                assert(entries_map(s).remove(key.id()) =~= entries_map(s));
                None
            },
        };
        self.entries = entries;
        r
    }
}

/// The size counted for a map whose entries are all assumed to be the size of
/// its first entry.
pub open spec fn assumed_map_size<K: Member + DataSized, V: DataSized>(s: Seq<(K, V)>) -> nat {
    if s.len() == 0 {
        0
    } else {
        s.len() * (s[0].0.spec_size() + s[0].1.spec_size())
    }
}

/// The sizes of all the keys and values of the entries.
pub open spec fn entries_size<K: Member + DataSized, V: DataSized>(s: Seq<(K, V)>) -> nat
    decreases s.len(),
{
    if s.len() == 0 {
        0
    } else {
        entries_size(s.drop_last()) + s.last().0.spec_size() + s.last().1.spec_size()
    }
}

proof fn lemma_entries_size_prefix<K: Member + DataSized, V: DataSized>(s: Seq<(K, V)>, i: int)
    requires
        0 <= i <= s.len(),
    ensures
        entries_size(s.subrange(0, i)) <= entries_size(s),
    decreases s.len() - i,
{
    if i < s.len() {
        lemma_entries_size_prefix(s, i + 1);
        assert(s.subrange(0, i + 1).drop_last() =~= s.subrange(0, i));
    } else {
        assert(s.subrange(0, i) =~= s);
    }
}

/// The number of entries of `map` times the size of its first entry.
pub fn assume_data_size_for_map<K: Member + DataSized, V: DataSized>(map: &KeyedMap<K, V>) -> (r: Information)
    requires
        assumed_map_size(map.entries()) <= u64::MAX,
    ensures
        r@ == assumed_map_size(map.entries()),
{
    if map.entries.len() == 0 {
        return Information::zero();
    }
    let ghost s = map.entries@;
    proof {
        assert(s[0].0.spec_size() + s[0].1.spec_size() <= assumed_map_size(s)) by (nonlinear_arith)
            requires
                s.len() >= 1,
                assumed_map_size(s) == s.len() * (s[0].0.spec_size() + s[0].1.spec_size()),
        ;
    }
    let first = map.entries[0].0.size().plus(map.entries[0].1.size());
    repeated_size(map.entries.len(), first)
}

impl<K: Member + DataSized, V: DataSized> KeyedMap<K, V> {
    /// The sizes of all the keys and values.
    pub fn total_size(&self) -> (r: Information)
        requires
            entries_size(self.entries()) <= u64::MAX,
        ensures
            r@ == entries_size(self.entries()),
    {
        let ghost s = self.entries@;
        let mut total = Information::zero();
        let mut i: usize = 0;
        while i < self.entries.len()
            invariant
                s == self.entries@,
                i <= s.len(),
                entries_size(s) <= u64::MAX,
                total@ == entries_size(s.subrange(0, i as int)),
            decreases s.len() - i,
        {
            proof {
                lemma_entries_size_prefix(s, i + 1);
                assert(s.subrange(0, i + 1).drop_last() =~= s.subrange(0, i as int));
            }
            total = total.plus(self.entries[i].0.size()).plus(self.entries[i].1.size());
            i += 1;
        }
        assert(s.subrange(0, s.len() as int) =~= s);
        total
    }
}

} // verus!
