//! Multisets: how many times each member occurs.
use crate::bigint::{equals, BigInt};
use crate::primitives::Prime;
use crate::util::{repeated_size, DataSized, Information};
use vstd::arithmetic::power::pow;
use vstd::prelude::*;

verus! {

/// A value that can be counted in a multiset, identified by an integer.
pub trait Member: Sized {
    /// The integer that identifies the value.
    spec fn id(&self) -> int;

    /// Whether the two values have the same identity.
    fn same(&self, other: &Self) -> (r: bool)
        ensures
            r == (self.id() == other.id()),
    ;

    /// A copy of the value.
    fn duplicate(&self) -> (r: Self)
        ensures
            r.id() == self.id(),
    ;
}

impl Member for Prime {
    open spec fn id(&self) -> int {
        self.value()
    }

    fn same(&self, other: &Self) -> (r: bool) {
        Prime::same(self, other)
    }

    fn duplicate(&self) -> (r: Self) {
        self.clone()
    }
}

impl Member for BigInt {
    open spec fn id(&self) -> int {
        self@
    }

    fn same(&self, other: &Self) -> (r: bool) {
        equals(self, other)
    }

    fn duplicate(&self) -> (r: Self) {
        self.clone()
    }
}

/// The counts that a list of entries denotes.
pub open spec fn counts<T: Member>(s: Seq<(T, u32)>) -> Map<int, nat>
    decreases s.len(),
{
    if s.len() == 0 {
        Map::empty()
    } else {
        counts(s.drop_last()).insert(s.last().0.id(), s.last().1 as nat)
    }
}

/// The product of each member's identity raised to its count.
pub open spec fn entries_product<T: Member>(s: Seq<(T, u32)>) -> int
    decreases s.len(),
{
    if s.len() == 0 {
        1
    } else {
        entries_product(s.drop_last()) * pow(s.last().0.id(), s.last().1 as nat)
    }
}

/// The product splits into the factor of one entry and that of the others.
pub proof fn lemma_product_remove<T: Member>(s: Seq<(T, u32)>, i: int)
    requires
        0 <= i < s.len(),
    ensures
        entries_product(s) == pow(s[i].0.id(), s[i].1 as nat) * entries_product(s.remove(i)),
    decreases s.len(),
{
    if i == s.len() - 1 {
        assert(s.remove(i) =~= s.drop_last());
        assert(entries_product(s) == entries_product(s.drop_last()) * pow(s.last().0.id(), s.last().1 as nat));
        assert(pow(s[i].0.id(), s[i].1 as nat) * entries_product(s.drop_last()) == entries_product(s.drop_last()) * pow(s[i].0.id(), s[i].1 as nat)) by (nonlinear_arith);
    } else {
        lemma_product_remove(s.drop_last(), i);
        assert(s.remove(i).drop_last() =~= s.drop_last().remove(i));
        assert(s.remove(i).last() == s.last());
        let a = pow(s[i].0.id(), s[i].1 as nat);
        let b = entries_product(s.drop_last().remove(i));
        let c = pow(s.last().0.id(), s.last().1 as nat);
        assert((a * b) * c == a * (b * c)) by (nonlinear_arith);
    }
}

/// The product of a multiset is divisible by each member's power.
pub proof fn lemma_product_divisible<T: Member>(s: Seq<(T, u32)>, i: int)
    requires
        0 <= i < s.len(),
        s[i].0.id() > 0,
    ensures
        pow(s[i].0.id(), s[i].1 as nat) > 0,
        entries_product(s) % pow(s[i].0.id(), s[i].1 as nat) == 0,
        entries_product(s) / pow(s[i].0.id(), s[i].1 as nat) == entries_product(s.remove(i)),
{
    let p = pow(s[i].0.id(), s[i].1 as nat);
    vstd::arithmetic::power::lemma_pow_positive(s[i].0.id(), s[i].1 as nat);
    lemma_product_remove(s, i);
    let r = entries_product(s.remove(i));
    assert(entries_product(s) == r * p) by (nonlinear_arith)
        requires
            entries_product(s) == p * r,
    ;
    vstd::arithmetic::div_mod::lemma_mod_multiples_basic(r, p);
    vstd::arithmetic::div_mod::lemma_div_multiples_vanish(r, p);
}

/// No member occurs twice, and every count is positive.
pub open spec fn well_formed<T: Member>(s: Seq<(T, u32)>) -> bool {
    &&& forall|i: int, j: int| 0 <= i < j < s.len() ==> s[i].0.id() != s[j].0.id()
    &&& forall|i: int| 0 <= i < s.len() ==> #[trigger] s[i].1 > 0
}

/// The count of `id` in a map of counts, zero where it is absent.
pub open spec fn count_of(m: Map<int, nat>, id: int) -> nat {
    if m.contains_key(id) {
        m[id]
    } else {
        0
    }
}

/// The counts with `id` counted `c` times (and absent where `c` is zero).
pub open spec fn with_count(m: Map<int, nat>, id: int, c: nat) -> Map<int, nat> {
    if c == 0 {
        m.remove(id)
    } else {
        m.insert(id, c)
    }
}

/// Every member of `b` occurs in `a` at least as often.
/// Every member of `a` occurs in it at least as often as in `b`.
pub open spec fn covers(a: Map<int, nat>, b: Map<int, nat>) -> bool {
    forall|id: int| #[trigger] a.contains_key(id) ==> a[id] >= count_of(b, id)
}

pub open spec fn superset(a: Map<int, nat>, b: Map<int, nat>) -> bool {
    forall|id: int| #[trigger] b.contains_key(id) ==> count_of(a, id) >= b[id]
}

/// A member that occurs fewer times in `a` than in `b` keeps `a` from
/// being a superset of `b`.
pub proof fn lemma_fewer_not_superset(a: Map<int, nat>, b: Map<int, nat>, id: int)
    requires
        b.contains_key(id),
        count_of(a, id) < b[id],
    ensures
        !superset(a, b),
{
}

/// Where every member of `b` occurs in `a` at least as often, `a` is a
/// superset of `b`.
pub proof fn lemma_counts_cover_superset(a: Map<int, nat>, b: Map<int, nat>)
    requires
        forall|id: int| #[trigger] b.contains_key(id) ==> count_of(a, id) >= b[id],
    ensures
        superset(a, b),
{
}

pub proof fn lemma_counts_index<T: Member>(s: Seq<(T, u32)>, i: int)
    requires
        well_formed(s),
        0 <= i < s.len(),
    ensures
        counts(s).contains_key(s[i].0.id()),
        counts(s)[s[i].0.id()] == s[i].1,
    decreases s.len(),
{
    if i < s.len() - 1 {
        lemma_counts_index(s.drop_last(), i);
    }
}

pub proof fn lemma_counts_dom<T: Member>(s: Seq<(T, u32)>, id: int)
    ensures
        counts(s).contains_key(id) <==> exists|i: int| 0 <= i < s.len() && #[trigger] s[i].0.id() == id,
    decreases s.len(),
{
    if s.len() > 0 {
        lemma_counts_dom(s.drop_last(), id);
        if counts(s.drop_last()).contains_key(id) {
            let i = choose|i: int| 0 <= i < s.drop_last().len() && #[trigger] s.drop_last()[i].0.id() == id;
            assert(s[i].0.id() == id);
        }
        if exists|i: int| 0 <= i < s.len() && #[trigger] s[i].0.id() == id {
            let i = choose|i: int| 0 <= i < s.len() && #[trigger] s[i].0.id() == id;
            if i < s.len() - 1 {
                assert(s.drop_last()[i].0.id() == id);
            }
        }
    }
}

proof fn lemma_counts_update<T: Member>(s: Seq<(T, u32)>, i: int, c: u32)
    requires
        well_formed(s),
        0 <= i < s.len(),
    ensures
        counts(s.update(i, (s[i].0, c))) == counts(s).insert(s[i].0.id(), c as nat),
    decreases s.len(),
{
    let t = s.update(i, (s[i].0, c));
    if i == s.len() - 1 {
        assert(t.drop_last() =~= s.drop_last());
        lemma_counts_dom(s.drop_last(), s[i].0.id());
        assert(counts(t) =~= counts(s).insert(s[i].0.id(), c as nat));
    } else {
        assert(t.drop_last() =~= s.drop_last().update(i, (s[i].0, c)));
        lemma_counts_update(s.drop_last(), i, c);
        assert(counts(t) =~= counts(s).insert(s[i].0.id(), c as nat));
    }
}

proof fn lemma_counts_remove<T: Member>(s: Seq<(T, u32)>, i: int)
    requires
        well_formed(s),
        0 <= i < s.len(),
    ensures
        counts(s.remove(i)) == counts(s).remove(s[i].0.id()),
        well_formed(s.remove(i)),
    decreases s.len(),
{
    let t = s.remove(i);
    if i == s.len() - 1 {
        assert(t =~= s.drop_last());
        lemma_counts_dom(s.drop_last(), s[i].0.id());
        assert(counts(t) =~= counts(s).remove(s[i].0.id()));
    } else {
        assert(t.drop_last() =~= s.drop_last().remove(i));
        lemma_counts_remove(s.drop_last(), i);
        assert(t.last() == s.last());
        assert(counts(t) =~= counts(s).remove(s[i].0.id()));
    }
}

/// A multiset: each member with the number of times it occurs.
#[derive(Debug)]
pub struct MultiSet<T: Member> {
    entries: Vec<(T, u32)>,
}

impl<T: Member> MultiSet<T> {
    #[verifier::type_invariant]
    closed spec fn wf(&self) -> bool {
        well_formed(self.entries@)
    }

    /// The members with their counts, in the order they are stored.
    pub closed spec fn entries(&self) -> Seq<(T, u32)> {
        self.entries@
    }

    /// The product of each member raised to its count.
    pub closed spec fn product(&self) -> int {
        entries_product(self.entries@)
    }
}

impl<T: Member> View for MultiSet<T> {
    type V = Map<int, nat>;

    open spec fn view(&self) -> Map<int, nat> {
        counts(self.entries())
    }
}

impl<T: Member> Default for MultiSet<T> {
    fn default() -> (r: Self)
        ensures
            r@ == Map::<int, nat>::empty(),
            r.product() == 1,
            r.entries().len() == 0,
    {
        MultiSet { entries: Vec::new() }
    }
}

/// The index of the entry for `member`, if there is one.
fn find_entry<T: Member>(entries: &Vec<(T, u32)>, member: &T) -> (r: Option<usize>)
    ensures
        match r {
            Some(i) => i < entries@.len() && entries@[i as int].0.id() == member.id(),
            None => !counts(entries@).contains_key(member.id()),
        },
{
    let mut i: usize = 0;
    while i < entries.len()
        invariant
            i <= entries@.len(),
            forall|j: int| 0 <= j < i ==> entries@[j].0.id() != member.id(),
        decreases entries@.len() - i,
    {
        if entries[i].0.same(member) {
            return Some(i);
        }
        i += 1;
    }
    proof {
        lemma_counts_dom(entries@, member.id());
    }
    None
}

impl<T: Member> MultiSet<T> {
    /// Adds one occurrence of `member`.
    pub fn insert(&mut self, member: T)
        requires
            count_of(old(self)@, member.id()) < u32::MAX,
        ensures
            final(self)@ == old(self)@.insert(member.id(), count_of(old(self)@, member.id()) + 1),
            final(self).product() == old(self).product() * member.id(),
    {
        proof {
            use_type_invariant(&*self);
        }
        let ghost s = self.entries@;
        let ghost id = member.id();
        let mut entries: Vec<(T, u32)> = Vec::new();
        std::mem::swap(&mut entries, &mut self.entries);
        match find_entry(&entries, &member) {
            Some(i) => {
                proof {
                    lemma_counts_index(s, i as int);
                }
                let c = entries[i].1;
                let (m, _) = entries.remove(i);
                entries.insert(i, (m, c + 1));
                proof {
                    let t = s.update(i as int, (s[i as int].0, (c + 1) as u32));
                    assert(entries@ =~= t);
                    lemma_counts_update(s, i as int, (c + 1) as u32);
                    lemma_product_remove(s, i as int);
                    lemma_product_remove(t, i as int);
                    assert(t.remove(i as int) =~= s.remove(i as int));
                    vstd::arithmetic::power::lemma_pow_adds(id, c as nat, 1);
                    vstd::arithmetic::power::lemma_pow1(id);
                    let r = entries_product(s.remove(i as int));
                    let pc = pow(id, c as nat);
                    assert(pow(id, (c + 1) as nat) * r == (pc * r) * id) by (nonlinear_arith)
                        requires
                            pow(id, (c + 1) as nat) == pc * id,
                    ;
                }
            },
            None => {
                proof {
                    lemma_counts_dom(s, member.id());
                }
                entries.push((member, 1));
                assert(entries@.drop_last() =~= s);
                proof {
                    vstd::arithmetic::power::lemma_pow1(id);
                }
            },
        }
        self.entries = entries;
    }

    /// How many times `member` occurs.
    pub fn get(&self, member: &T) -> (r: u32)
        ensures
            r == count_of(self@, member.id()),
            self@.contains_key(member.id()) <==> r > 0,
            r > 0 && member.id() > 0 ==> pow(member.id(), r as nat) > 0 && self.product() % pow(
                member.id(),
                r as nat,
            ) == 0,
    {
        proof {
            use_type_invariant(self);
        }
        match find_entry(&self.entries, member) {
            Some(i) => {
                proof {
                    lemma_counts_index(self.entries@, i as int);
                    if member.id() > 0 {
                        lemma_product_divisible(self.entries@, i as int);
                    }
                }
                self.entries[i].1
            },
            None => 0,
        }
    }

    /// Removes one occurrence of `member`; whether it occurred.
    pub fn remove(&mut self, member: &T) -> (r: bool)
        ensures
            r == old(self)@.contains_key(member.id()),
            final(self)@ == with_count(
                old(self)@,
                member.id(),
                (if r {
                    (count_of(old(self)@, member.id()) - 1) as nat
                } else {
                    0
                }),
            ),
    {
        proof {
            use_type_invariant(&*self);
        }
        let ghost s = self.entries@;
        let mut entries: Vec<(T, u32)> = Vec::new();
        std::mem::swap(&mut entries, &mut self.entries);
        let r = match find_entry(&entries, member) {
            Some(i) => {
                proof {
                    lemma_counts_index(s, i as int);
                }
                let c = entries[i].1;
                let (m, _) = entries.remove(i);
                if c > 1 {
                    entries.insert(i, (m, c - 1));
                    proof {
                        assert(entries@ =~= s.update(i as int, (s[i as int].0, (c - 1) as u32)));
                        lemma_counts_update(s, i as int, (c - 1) as u32);
                    }
                } else {
                    proof {
                        lemma_counts_remove(s, i as int);
                    }
                }
                true
            },
            None => {
                assert(old(self)@.remove(member.id()) =~= old(self)@);
                false
            },
        };
        self.entries = entries;
        r
    }

    /// Removes every occurrence of `member`; how many there were, if any.
    pub fn clear(&mut self, member: &T) -> (r: Option<u32>)
        ensures
            final(self)@ == old(self)@.remove(member.id()),
            r == (if old(self)@.contains_key(member.id()) {
                Some(old(self)@[member.id()] as u32)
            } else {
                None::<u32>
            }),
    {
        proof {
            use_type_invariant(&*self);
        }
        let ghost s = self.entries@;
        let mut entries: Vec<(T, u32)> = Vec::new();
        std::mem::swap(&mut entries, &mut self.entries);
        let r = match find_entry(&entries, member) {
            Some(i) => {
                proof {
                    lemma_counts_index(s, i as int);
                    lemma_counts_remove(s, i as int);
                }
                let (_, c) = entries.remove(i);
                Some(c)
            },
            None => {
                assert(old(self)@.remove(member.id()) =~= old(self)@);
                None
            },
        };
        self.entries = entries;
        r
    }

    /// Each member with its count, every member once.
    pub fn iter(&self) -> (r: Vec<(T, u32)>)
        ensures
            r@.len() == self@.dom().len(),
            counts(r@) == self@,
            well_formed(r@),
            forall|i: int| 0 <= i < r@.len() ==> #[trigger] r@[i].0.id() == self.entries()[i].0.id()
                && r@[i].1 == self.entries()[i].1,
            r@.len() == self.entries().len(),
            entries_product(r@) == self.product(),
            forall|id: int| #[trigger] self@.contains_key(id) ==> self@[id] > 0,
    {
        proof {
            use_type_invariant(self);
            lemma_counts_len(self.entries@);
        }
        let mut r: Vec<(T, u32)> = Vec::new();
        let mut i: usize = 0;
        while i < self.entries.len()
            invariant
                i <= self.entries@.len(),
                well_formed(self.entries@),
                r@.len() == i,
                forall|j: int| 0 <= j < i ==> #[trigger] r@[j].0.id() == self.entries@[j].0.id()
                    && r@[j].1 == self.entries@[j].1,
            decreases self.entries@.len() - i,
        {
            r.push((self.entries[i].0.duplicate(), self.entries[i].1));
            i += 1;
        }
        proof {
            lemma_counts_same_ids(r@, self.entries@);
            assert forall|id: int| #[trigger] self@.contains_key(id) implies self@[id] > 0 by {
                lemma_counts_dom(self.entries@, id);
                let j = choose|j: int| 0 <= j < self.entries@.len() && #[trigger] self.entries@[j].0.id() == id;
                lemma_counts_index(self.entries@, j);
            }
        }
        r
    }

    /// Whether every member of `other` occurs here at least as often.
    pub fn is_superset(&self, other: &Self) -> (r: bool)
        ensures
            r == superset(self@, other@),
            r <==> forall|id: int| #[trigger] other@.contains_key(id) ==> count_of(self@, id) >= other@[id],
    {
        proof {
            use_type_invariant(other);
        }
        let mut i: usize = 0;
        while i < other.entries.len()
            invariant
                i <= other.entries@.len(),
                well_formed(other.entries@),
                forall|j: int|
                    0 <= j < i ==> count_of(self@, #[trigger] other.entries@[j].0.id())
                        >= other.entries@[j].1,
            decreases other.entries@.len() - i,
        {
            let have = self.get(&other.entries[i].0);
            if have < other.entries[i].1 {
                proof {
                    lemma_counts_index(other.entries@, i as int);
                }
                return false;
            }
            i += 1;
        }
        proof {
            assert forall|id: int| #[trigger] other@.contains_key(id) implies count_of(self@, id)
                >= other@[id] by {
                lemma_counts_dom(other.entries@, id);
                let j = choose|j: int| 0 <= j < other.entries@.len() && #[trigger] other.entries@[j].0.id() == id;
                lemma_counts_index(other.entries@, j);
            }
        }
        true
    }

    /// Each member with how many more times it occurs here than in `other`;
    /// each member must occur here at least as often as in `other`, and
    /// what occurs only in `other` is ignored.
    pub fn difference(&self, other: &Self) -> (r: Vec<(T, u32)>)
        requires
            covers(self@, other@),
        ensures
            r@.len() == self.entries().len(),
            forall|i: int|
                0 <= i < r@.len() ==> #[trigger] r@[i].0.id() == self.entries()[i].0.id() && r@[i].1
                    == self.entries()[i].1 - count_of(other@, self.entries()[i].0.id()),
    {
        proof {
            use_type_invariant(self);
        }
        let mut r: Vec<(T, u32)> = Vec::new();
        let mut i: usize = 0;
        while i < self.entries.len()
            invariant
                i <= self.entries@.len(),
                well_formed(self.entries@),
                covers(self@, other@),
                self@ == counts(self.entries@),
                r@.len() == i,
                forall|j: int|
                    0 <= j < i ==> #[trigger] r@[j].0.id() == self.entries@[j].0.id() && r@[j].1
                        == self.entries@[j].1 - count_of(other@, self.entries@[j].0.id()),
            decreases self.entries@.len() - i,
        {
            let theirs = other.get(&self.entries[i].0);
            proof {
                lemma_counts_index(self.entries@, i as int);
            }
            let diff = self.entries[i].1 - theirs;
            r.push((self.entries[i].0.duplicate(), diff));
            i += 1;
        }
        r
    }

    /// The number of distinct members.
    pub fn len(&self) -> (r: usize)
        ensures
            r == self@.dom().len(),
    {
        proof {
            use_type_invariant(self);
            lemma_counts_len(self.entries@);
        }
        self.entries.len()
    }

    /// The multiset of the values, each counted as often as it occurs.
    pub fn from(values: Vec<T>) -> (r: Self)
        requires
            values@.len() < u32::MAX,
        ensures
            forall|id: int| #[trigger] count_of(r@, id) == occurrences(values@, id),
    {
        let mut multiset: MultiSet<T> = MultiSet::default();
        let mut i: usize = 0;
        while i < values.len()
            invariant
                i <= values@.len(),
                values@.len() < u32::MAX,
                forall|id: int| #[trigger] count_of(multiset@, id) == occurrences(values@.subrange(0, i as int), id),
            decreases values@.len() - i,
        {
            let ghost before = multiset@;
            let ghost prefix = values@.subrange(0, i as int);
            proof {
                lemma_occurrences_bound(prefix, values@[i as int].id());
            }
            multiset.insert(values[i].duplicate());
            proof {
                assert(values@.subrange(0, i + 1).drop_last() =~= prefix);
                assert forall|id: int| #[trigger] count_of(multiset@, id) == occurrences(values@.subrange(0, i + 1), id) by {
                    assert(count_of(before, id) == occurrences(prefix, id));
                }
            }
            i += 1;
        }
        assert(values@.subrange(0, values@.len() as int) =~= values@);
        multiset
    }
}

/// How many values of `s` have identity `id`.
pub open spec fn occurrences<T: Member>(s: Seq<T>, id: int) -> nat
    decreases s.len(),
{
    if s.len() == 0 {
        0
    } else {
        occurrences(s.drop_last(), id) + (if s.last().id() == id {
            1nat
        } else {
            0nat
        })
    }
}

pub proof fn lemma_occurrences_bound<T: Member>(s: Seq<T>, id: int)
    ensures
        occurrences(s, id) <= s.len(),
    decreases s.len(),
{
    if s.len() > 0 {
        lemma_occurrences_bound(s.drop_last(), id);
    }
}

proof fn lemma_counts_len<T: Member>(s: Seq<(T, u32)>)
    requires
        well_formed(s),
    ensures
        counts(s).dom().finite(),
        counts(s).dom().len() == s.len(),
    decreases s.len(),
{
    if s.len() > 0 {
        lemma_counts_len(s.drop_last());
        lemma_counts_dom(s.drop_last(), s.last().0.id());
        if counts(s.drop_last()).contains_key(s.last().0.id()) {
            let i = choose|i: int|
                0 <= i < s.drop_last().len() && #[trigger] s.drop_last()[i].0.id() == s.last().0.id();
            assert(s[i].0.id() == s[s.len() - 1].0.id());
        }
    }
}

/// Entries with the same identities and counts denote the same counts.
proof fn lemma_counts_same_ids<T: Member>(a: Seq<(T, u32)>, b: Seq<(T, u32)>)
    requires
        a.len() == b.len(),
        forall|j: int| 0 <= j < a.len() ==> #[trigger] a[j].0.id() == b[j].0.id() && a[j].1 == b[j].1,
    ensures
        counts(a) == counts(b),
        entries_product(a) == entries_product(b),
        well_formed(b) ==> well_formed(a),
    decreases a.len(),
{
    if well_formed(b) {
        assert forall|i: int, j: int| 0 <= i < j < a.len() implies a[i].0.id() != a[j].0.id() by {
            assert(a[i].0.id() == b[i].0.id());
            assert(a[j].0.id() == b[j].0.id());
        }
        assert forall|i: int| 0 <= i < a.len() implies #[trigger] a[i].1 > 0 by {
            assert(a[i].0.id() == b[i].0.id());
        }
    }
    if a.len() > 0 {
        lemma_counts_same_ids(a.drop_last(), b.drop_last());
        assert(a.last().0.id() == b.last().0.id());
    }
}

impl<T: Member + DataSized> DataSized for MultiSet<T> {
    /// The number of members times the size of the first with its count.
    closed spec fn spec_size(&self) -> nat {
        if self.entries@.len() == 0 {
            0
        } else {
            self.entries@.len() * (self.entries@[0].0.spec_size() + 4)
        }
    }

    fn size(&self) -> (r: Information) {
        if self.entries.len() == 0 {
            return Information::zero();
        }
        let ghost s = self.entries@;
        proof {
            assert(s[0].0.spec_size() + 4 <= self.spec_size()) by (nonlinear_arith)
                requires
                    s.len() >= 1,
                    self.spec_size() == s.len() * (s[0].0.spec_size() + 4),
            ;
        }
        let first = self.entries[0].0.size().plus(Information::new_bytes(4));
        repeated_size(self.entries.len(), first)
    }
}

} // verus!
