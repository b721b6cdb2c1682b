//! Maps keyed by package identifier.
//!
//! The entries are kept in insertion order, and no identifier occurs twice.
use crate::log::PackageId;
use vstd::prelude::*;

verus! {

/// No identifier occurs twice among the entries.
pub open spec fn keys_distinct<V>(s: Seq<(PackageId, V)>) -> bool {
    forall|i: int, j: int| 0 <= i < j < s.len() ==> s[i].0@ != s[j].0@
}

/// The map that the entries denote.
pub open spec fn entries_map<V>(s: Seq<(PackageId, V)>) -> Map<Seq<char>, V>
    decreases s.len(),
{
    if s.len() == 0 {
        Map::empty()
    } else {
        entries_map(s.drop_last()).insert(s.last().0@, s.last().1)
    }
}

pub proof fn lemma_entries_map_index<V>(s: Seq<(PackageId, V)>, i: int)
    requires
        keys_distinct(s),
        0 <= i < s.len(),
    ensures
        entries_map(s).contains_key(s[i].0@),
        entries_map(s)[s[i].0@] == s[i].1,
    decreases s.len(),
{
    if i < s.len() - 1 {
        lemma_entries_map_index(s.drop_last(), i);
    }
}

pub proof fn lemma_entries_map_dom<V>(s: Seq<(PackageId, V)>, k: Seq<char>)
    ensures
        entries_map(s).contains_key(k) <==> exists|i: int| 0 <= i < s.len() && #[trigger] s[i].0@ == k,
    decreases s.len(),
{
    if s.len() > 0 {
        lemma_entries_map_dom(s.drop_last(), k);
        if entries_map(s.drop_last()).contains_key(k) {
            let i = choose|i: int| 0 <= i < s.drop_last().len() && #[trigger] s.drop_last()[i].0@ == k;
            assert(s[i].0@ == k);
        }
        if exists|i: int| 0 <= i < s.len() && #[trigger] s[i].0@ == k {
            let i = choose|i: int| 0 <= i < s.len() && #[trigger] s[i].0@ == k;
            if i < s.len() - 1 {
                assert(s.drop_last()[i].0@ == k);
            }
        }
    }
}

pub proof fn lemma_entries_map_len<V>(s: Seq<(PackageId, V)>)
    requires
        keys_distinct(s),
    ensures
        entries_map(s).dom().finite(),
        entries_map(s).dom().len() == s.len(),
    decreases s.len(),
{
    if s.len() > 0 {
        lemma_entries_map_len(s.drop_last());
        lemma_entries_map_dom(s.drop_last(), s.last().0@);
        if entries_map(s.drop_last()).contains_key(s.last().0@) {
            let i = choose|i: int|
                0 <= i < s.drop_last().len() && #[trigger] s.drop_last()[i].0@ == s.last().0@;
            assert(s[i].0@ == s[s.len() - 1].0@);
        }
    }
}

/// The map of the first `i + 1` entries adds the `i`-th entry to the map of
/// the first `i`.
pub proof fn lemma_entries_map_prefix<V>(s: Seq<(PackageId, V)>, i: int)
    requires
        0 <= i < s.len(),
    ensures
        entries_map(s.subrange(0, i + 1)) == entries_map(s.subrange(0, i)).insert(s[i].0@, s[i].1),
        entries_map(s.subrange(0, s.len() as int)) == entries_map(s),
{
    assert(s.subrange(0, i + 1).drop_last() =~= s.subrange(0, i));
    assert(s.subrange(0, s.len() as int) =~= s);
}

pub proof fn lemma_entries_map_update<V>(s: Seq<(PackageId, V)>, i: int, v: V)
    requires
        keys_distinct(s),
        0 <= i < s.len(),
    ensures
        entries_map(s.update(i, (s[i].0, v))) == entries_map(s).insert(s[i].0@, v),
    decreases s.len(),
{
    let t = s.update(i, (s[i].0, v));
    if i == s.len() - 1 {
        assert(t.drop_last() =~= s.drop_last());
        lemma_entries_map_dom(s.drop_last(), s[i].0@);
        assert(entries_map(t) =~= entries_map(s).insert(s[i].0@, v));
    } else {
        assert(t.drop_last() =~= s.drop_last().update(i, (s[i].0, v)));
        lemma_entries_map_update(s.drop_last(), i, v);
        assert(entries_map(t) =~= entries_map(s).insert(s[i].0@, v));
    }
}

/// A map from package identifiers to values.
#[derive(Debug)]
pub struct PackageMap<V> {
    entries: Vec<(PackageId, V)>,
}

impl<V> PackageMap<V> {
    #[verifier::type_invariant]
    closed spec fn distinct(&self) -> bool {
        keys_distinct(self.entries@)
    }

    /// The entries, in insertion order.
    pub closed spec fn entries(&self) -> Seq<(PackageId, V)> {
        self.entries@
    }
}

impl<V> View for PackageMap<V> {
    type V = Map<Seq<char>, V>;

    open spec fn view(&self) -> Map<Seq<char>, V> {
        entries_map(self.entries())
    }
}

impl<V: Copy> Default for PackageMap<V> {
    fn default() -> (r: Self)
        ensures
            r@ == Map::<Seq<char>, V>::empty(),
            r.entries().len() == 0,
    {
        PackageMap::new()
    }
}

impl<V: Copy> PackageMap<V> {
    pub fn new() -> (r: Self)
        ensures
            r@ == Map::<Seq<char>, V>::empty(),
            r.entries().len() == 0,
    {
        PackageMap { entries: Vec::new() }
    }

    /// The number of entries.
    pub fn len(&self) -> (r: usize)
        ensures
            r == self.entries().len(),
            keys_distinct(self.entries()),
            r == self@.dom().len(),
            self@.dom().finite(),
    {
        proof {
            use_type_invariant(self);
            lemma_entries_map_len(self.entries@);
        }
        self.entries.len()
    }

    /// The key of the `i`-th entry.
    pub fn key_at(&self, i: usize) -> (r: &PackageId)
        requires
            i < self.entries().len(),
        ensures
            *r == self.entries()[i as int].0,
            self@.contains_key(r@),
            self@[r@] == self.entries()[i as int].1,
            !entries_map(self.entries().subrange(0, i as int)).contains_key(r@),
    {
        proof {
            use_type_invariant(self);
            lemma_entries_map_index(self.entries@, i as int);
            let p = self.entries@.subrange(0, i as int);
            lemma_entries_map_dom(p, self.entries@[i as int].0@);
            if entries_map(p).contains_key(self.entries@[i as int].0@) {
                let j = choose|j: int| 0 <= j < p.len() && #[trigger] p[j].0@ == self.entries@[i as int].0@;
                assert(p[j] == self.entries@[j]);
            }
        }
        &self.entries[i].0
    }

    /// The value of the `i`-th entry.
    pub fn value_at(&self, i: usize) -> (r: V)
        requires
            i < self.entries().len(),
        ensures
            r == self.entries()[i as int].1,
            self@[self.entries()[i as int].0@] == r,
    {
        proof {
            use_type_invariant(self);
            lemma_entries_map_index(self.entries@, i as int);
        }
        self.entries[i].1
    }

    /// The index of `key`, if it is present.
    pub fn find(&self, key: &PackageId) -> (r: Option<usize>)
        ensures
            match r {
                Some(i) => i < self.entries().len() && self.entries()[i as int].0@ == key@,
                None => !self@.contains_key(key@),
            },
    {
        proof {
            use_type_invariant(self);
        }
        let mut i: usize = 0;
        while i < self.entries.len()
            invariant
                i <= self.entries@.len(),
                forall|j: int| 0 <= j < i ==> self.entries@[j].0@ != key@,
            decreases self.entries@.len() - i,
        {
            if self.entries[i].0.same(key) {
                return Some(i);
            }
            i += 1;
        }
        proof {
            lemma_entries_map_dom(self.entries@, key@);
        }
        None
    }

    /// The value for `key`, if it is present.
    pub fn get(&self, key: &PackageId) -> (r: Option<V>)
        ensures
            r == (if self@.contains_key(key@) {
                Some(self@[key@])
            } else {
                None::<V>
            }),
    {
        proof {
            use_type_invariant(self);
        }
        match self.find(key) {
            Some(i) => {
                proof {
                    lemma_entries_map_index(self.entries@, i as int);
                }
                Some(self.entries[i].1)
            },
            None => None,
        }
    }

    /// Whether `key` is present.
    pub fn contains_key(&self, key: &PackageId) -> (r: bool)
        ensures
            r == self@.contains_key(key@),
    {
        proof {
            use_type_invariant(self);
        }
        match self.find(key) {
            Some(i) => {
                proof {
                    lemma_entries_map_index(self.entries@, i as int);
                }
                true
            },
            None => false,
        }
    }

    /// Maps `key` to `value`, replacing an earlier value for it.
    pub fn insert(&mut self, key: PackageId, value: V)
        ensures
            final(self)@ == old(self)@.insert(key@, value),
            old(self)@.contains_key(key@) ==> final(self).entries().len() == old(self).entries().len(),
            !old(self)@.contains_key(key@) ==> final(self).entries() == old(self).entries().push(
                (key, value),
            ),
            keys_distinct(final(self).entries()),
    {
        proof {
            use_type_invariant(&*self);
        }
        match self.find(&key) {
            Some(i) => {
                proof {
                    lemma_entries_map_index(self.entries@, i as int);
                }
                self.set_value(i, value);
            },
            None => {
                let ghost s = self.entries@;
                proof {
                    lemma_entries_map_dom(s, key@);
                    assert(keys_distinct(s.push((key, value))));
                    assert(s.push((key, value)).drop_last() =~= s);
                }
                let mut entries: Vec<(PackageId, V)> = Vec::new();
                std::mem::swap(&mut entries, &mut self.entries);
                entries.push((key, value));
                assert(entries@ == s.push((key, value)));
                self.entries = entries;
            },
        }
        proof {
            use_type_invariant(&*self);
        }
    }

    /// A copy of this map.
    pub fn duplicate(&self) -> (r: Self)
        ensures
            r.entries() == self.entries(),
            r@ == self@,
    {
        proof {
            use_type_invariant(self);
        }
        let mut entries: Vec<(PackageId, V)> = Vec::new();
        let mut i: usize = 0;
        while i < self.entries.len()
            invariant
                i <= self.entries@.len(),
                entries@ == self.entries@.subrange(0, i as int),
            decreases self.entries@.len() - i,
        {
            entries.push((self.entries[i].0.duplicate(), self.entries[i].1));
            i += 1;
            assert(entries@ =~= self.entries@.subrange(0, i as int));
        }
        assert(entries@ =~= self.entries@);
        PackageMap { entries }
    }

    /// Replaces the value of the `i`-th entry.
    pub fn set_value(&mut self, i: usize, value: V)
        requires
            i < old(self).entries().len(),
        ensures
            final(self).entries() == old(self).entries().update(
                i as int,
                (old(self).entries()[i as int].0, value),
            ),
            final(self)@ == old(self)@.insert(old(self).entries()[i as int].0@, value),
    {
        proof {
            use_type_invariant(&*self);
            lemma_entries_map_update(self.entries@, i as int, value);
        }
        let ghost s = self.entries@;
        let mut entries: Vec<(PackageId, V)> = Vec::new();
        std::mem::swap(&mut entries, &mut self.entries);
        entries[i].1 = value;
        assert(entries@ =~= s.update(i as int, (s[i as int].0, value)));
        self.entries = entries;
    }
}

} // verus!
