//! A skip list of accumulated proofs.
//!
//! Entry `j` of the list stores, for each `k` with `j + 2^k` already in the
//! list (and `k` not above the number of trailing zero bits of `j`, unless
//! `j == 0`), a proof that covers the items from `j` up to `j + 2^k`. A read
//! from `start` to `end` greedily takes the longest stored hop at each step.
use vstd::prelude::*;
use vstd::arithmetic::power2::*;
use vstd::arithmetic::div_mod::*;
use vstd::bits::*;
use crate::util::{assume_data_size_for_vec, assumed_vec_size, DataSized, Information};

verus! {

/// Number of trailing zero bits of `n` (zero for `n == 0`).
pub open spec fn trailing_zeros(n: nat) -> nat
    decreases n,
{
    if n == 0 {
        0
    } else if n % 2 == 0 {
        1 + trailing_zeros(n / 2)
    } else {
        0
    }
}

/// `floor(log2(n))` for `n >= 1` (zero for `n <= 1`).
pub open spec fn floor_log2(n: nat) -> nat
    decreases n,
{
    if n <= 1 {
        0
    } else {
        1 + floor_log2(n / 2)
    }
}

/// Whether `d` is a power of two.
pub open spec fn is_pow2(d: nat) -> bool {
    pow2(floor_log2(d)) == d
}

/// How many proofs entry `j` holds in a list of `len` entries.
pub open spec fn proof_count(j: nat, len: nat) -> nat {
    if j + 1 >= len {
        0
    } else {
        let m = floor_log2((len - 1 - j) as nat) + 1;
        if j == 0 || m <= trailing_zeros(j) + 1 {
            m
        } else {
            trailing_zeros(j) + 1
        }
    }
}

/// Whether a read from `cur` to `end` finds a stored hop at every step.
pub open spec fn read_path_ok(cur: nat, end: nat, len: nat) -> bool
    decreases end - cur,
{
    if cur >= end {
        true
    } else {
        let k = floor_log2((end - cur) as nat);
        proof {
            lemma_floor_log2_bounds((end - cur) as nat);
            lemma_pow2_pos(k);
        }
        &&& k < proof_count(cur, len)
        &&& read_path_ok(cur + pow2(k), end, len)
    }
}

/// Summarizes a run of items into a proof.
///
/// Items, proofs and the collector itself are compared by their views.
pub trait Collector: Sized + View {
    type Item: std::fmt::Debug + View;
    type Proof: std::fmt::Debug + View;

    /// The collector started on `item`.
    spec fn spec_init(item: <Self::Item as View>::V) -> Self::V;

    /// The collector `c` after also taking in `item`.
    spec fn spec_collect(c: Self::V, item: <Self::Item as View>::V) -> Self::V;

    /// The proof for `item` from what the collector `c` has taken in.
    spec fn spec_to_proof(c: Self::V, item: <Self::Item as View>::V) -> <Self::Proof as View>::V;

    fn init(item: &Self::Item) -> (r: Self)
        ensures
            r@ == Self::spec_init(item@),
    ;

    fn collect(&mut self, item: &Self::Item)
        ensures
            final(self)@ == Self::spec_collect(old(self)@, item@),
    ;

    fn to_proof(&self, item: &Self::Item) -> (r: Self::Proof)
        ensures
            r@ == Self::spec_to_proof(self@, item@),
    ;

    fn clone_item(item: &Self::Item) -> (r: Self::Item)
        ensures
            r@ == item@,
    ;

    fn clone_proof(proof: &Self::Proof) -> (r: Self::Proof)
        ensures
            r@ == proof@,
    ;
}

/// The view of an item of collector `C`.
pub type ItemView<C> = <<C as Collector>::Item as View>::V;

/// The view of a proof of collector `C`.
pub type ProofView<C> = <<C as Collector>::Proof as View>::V;

/// The views of a list of proofs.
pub open spec fn proof_views<C: Collector>(ps: Seq<C::Proof>) -> Seq<ProofView<C>> {
    ps.map_values(|p: C::Proof| p@)
}

/// The views of a list of read results.
pub open spec fn read_views<C: Collector>(rs: Seq<(C::Proof, C::Item)>) -> Seq<(ProofView<C>, ItemView<C>)> {
    rs.map_values(|r: (C::Proof, C::Item)| (r.0@, r.1@))
}

/// The collector started on `items[top]` after taking in the `m` items below it,
/// from `items[top - 1]` down to `items[top - m]`.
pub open spec fn window<C: Collector>(items: Seq<ItemView<C>>, top: int, m: nat) -> C::V
    decreases m,
{
    if m == 0 {
        C::spec_init(items[top])
    } else {
        C::spec_collect(window::<C>(items, top, (m - 1) as nat), items[top - m])
    }
}

/// The proof stored at entry `j` for the hop of length `d`.
pub open spec fn proof_at<C: Collector>(items: Seq<ItemView<C>>, j: int, d: nat) -> ProofView<C> {
    C::spec_to_proof(window::<C>(items, j + d, (d - 1) as nat), items[j])
}

/// What a read from `cur` to `end` returns.
pub open spec fn read_spec<C: Collector>(items: Seq<ItemView<C>>, cur: nat, end: nat) -> Seq<
    (ProofView<C>, ItemView<C>),
>
    decreases end - cur,
{
    if cur >= end {
        Seq::empty()
    } else {
        let k = floor_log2((end - cur) as nat);
        proof {
            lemma_floor_log2_bounds((end - cur) as nat);
            lemma_pow2_pos(k);
        }
        seq![(proof_at::<C>(items, cur as int, pow2(k)), items[cur as int])] + read_spec::<C>(
            items,
            cur + pow2(k),
            end,
        )
    }
}

// ---------------------------------------------------------------------------
// Arithmetic facts about powers of two.

pub proof fn lemma_floor_log2_bounds(x: nat)
    requires
        x >= 1,
    ensures
        pow2(floor_log2(x)) <= x < pow2(floor_log2(x) + 1),
    decreases x,
{
    if x == 1 {
        lemma2_to64();
    } else {
        lemma_floor_log2_bounds(x / 2);
        let a = floor_log2(x / 2);
        lemma_pow2_unfold(a + 1);
        lemma_pow2_unfold(a + 2);
    }
}

proof fn lemma_floor_log2_unique(x: nat, a: nat)
    requires
        pow2(a) <= x < pow2(a + 1),
    ensures
        floor_log2(x) == a,
{
    lemma_pow2_pos(a);
    lemma_floor_log2_bounds(x);
    let b = floor_log2(x);
    if b < a {
        if b + 1 < a {
            lemma_pow2_strictly_increases(b + 1, a);
        }
    } else if b > a {
        if a + 1 < b {
            lemma_pow2_strictly_increases(a + 1, b);
        }
    }
}

proof fn lemma_pow2_le(a: nat, b: nat)
    ensures
        a <= b <==> pow2(a) <= pow2(b),
{
    if a < b {
        lemma_pow2_strictly_increases(a, b);
    } else if b < a {
        lemma_pow2_strictly_increases(b, a);
    }
}

/// For positive `x`, `k` is at most the number of trailing zeros of `x`
/// exactly when `2^k` divides `x`.
proof fn lemma_max_pow_divides(x: nat, k: nat)
    requires
        x > 0,
    ensures
        k <= trailing_zeros(x) <==> x % pow2(k) == 0,
    decreases k,
{
    if k == 0 {
        lemma2_to64();
    } else {
        lemma_pow2_unfold(k);
        lemma_pow2_pos((k - 1) as nat);
        lemma_breakdown(x as int, 2, pow2((k - 1) as nat) as int);
        assert(x % pow2(k) == 2 * ((x / 2) % pow2((k - 1) as nat)) + x % 2);
        if x % 2 == 0 {
            lemma_max_pow_divides(x / 2, (k - 1) as nat);
        }
    }
}

proof fn lemma_divides_le(x: nat, d: nat)
    requires
        x > 0,
        d > 0,
        x % d == 0,
    ensures
        d <= x,
{
    lemma_fundamental_div_mod(x as int, d as int);
    if x / d == 0 {
        assert(false);
    }
    assert(d * (x / d) >= d) by (nonlinear_arith)
        requires
            x / d >= 1,
            d > 0,
    ;
}

proof fn lemma_usize_bits_pow2()
    ensures
        pow2(usize::BITS as nat) == usize::MAX + 1,
{
    lemma2_to64();
}

proof fn lemma_pow2_fits_usize(k: nat, n: nat)
    requires
        pow2(k) <= n,
        n <= usize::MAX,
    ensures
        k < usize::BITS,
{
    lemma_usize_bits_pow2();
    if k >= usize::BITS {
        lemma_pow2_le(usize::BITS as nat, k);
    }
}

proof fn lemma_power_of_two_test(i: usize, k: usize)
    by (bit_vector)
    requires
        k < usize::BITS,
        (1usize << k) <= i,
        (i >> k) == 1usize,
    ensures
        (i & ((i - 1) as usize)) == 0usize <==> i == (1usize << k),
{
}

/// `i & (i - 1) == 0` tests whether `i >= 1` is a power of two.
proof fn lemma_is_pow2_bits(i: usize)
    requires
        i >= 1,
    ensures
        (i & ((i - 1) as usize)) == 0usize <==> is_pow2(i as nat),
{
    let k = floor_log2(i as nat);
    lemma_floor_log2_bounds(i as nat);
    lemma_pow2_fits_usize(k, i as nat);
    lemma_usize_shl_is_mul(1, k as usize);
    lemma_usize_shr_is_div(i, k as usize);
    lemma_pow2_pos(k);
    lemma_pow2_unfold(k + 1);
    assert(i as nat / pow2(k) == 1) by {
        lemma_fundamental_div_mod(i as int, pow2(k) as int);
        if i as nat / pow2(k) >= 2 {
            assert(pow2(k) * (i as nat / pow2(k)) >= pow2(k) * 2) by (nonlinear_arith)
                requires
                    i as nat / pow2(k) >= 2,
                    pow2(k) > 0,
            ;
        }
    }
    lemma_power_of_two_test(i, k as usize);
}

/// How the proof count of entry `j` changes when entry `n` is appended.
proof fn lemma_proof_count_step(j: nat, n: nat)
    requires
        j < n,
    ensures
        ({
            let d = (n - j) as nat;
            let grows = is_pow2(d) && (j == 0 || floor_log2(d) <= trailing_zeros(j));
            &&& grows ==> proof_count(j, n + 1) == proof_count(j, n) + 1
            &&& grows ==> proof_count(j, n) == floor_log2(d)
            &&& !grows ==> proof_count(j, n + 1) == proof_count(j, n)
        }),
{
    let d = (n - j) as nat;
    let a = floor_log2(d);
    lemma_floor_log2_bounds(d);
    // m(n + 1) == a + 1
    assert(floor_log2((n + 1 - 1 - j) as nat) == a);
    if d == 1 {
        lemma2_to64();
    } else if is_pow2(d) {
        assert(a >= 1) by {
            if a == 0 {
                lemma2_to64();
            }
        }
        lemma_pow2_unfold(a);
        lemma_floor_log2_unique((d - 1) as nat, (a - 1) as nat);
    } else {
        lemma_floor_log2_unique((d - 1) as nat, a);
    }
}

/// Whether the loop of `add` for new entry `n` pushes a proof onto entry `j`.
proof fn lemma_add_condition(j: nat, n: nat)
    requires
        j < n,
        is_pow2((n - j) as nat),
    ensures
        ((n - j) as nat <= pow2(trailing_zeros(n))) <==> (j == 0 || floor_log2((n - j) as nat) <= trailing_zeros(
            j,
        )),
{
    let d = (n - j) as nat;
    let a = floor_log2(d);
    lemma_pow2_le(a, trailing_zeros(n));
    lemma_max_pow_divides(n, a);
    lemma_pow2_pos(a);
    lemma_mod_add_multiples_vanish(j as int, pow2(a) as int);
    assert(n == j + pow2(a));
    if j > 0 {
        lemma_max_pow_divides(j, a);
    } else {
        lemma_small_mod(0, pow2(a));
    }
}

/// Reading from the start of a list always finds a stored hop at every step.
pub proof fn lemma_read_from_start_ok(end: nat, len: nat)
    requires
        end < len,
    ensures
        read_path_ok(0, end, len),
{
    if end > 0 {
        let k = floor_log2(end);
        lemma_floor_log2_bounds(end);
        lemma_pow2_pos(k);
        lemma_pow2_unfold(k + 1);
        // entry 0 holds a hop of every length below len
        assert(floor_log2((len - 1) as nat) >= k) by {
            lemma_floor_log2_bounds((len - 1) as nat);
            let b = floor_log2((len - 1) as nat);
            if b < k {
                lemma_pow2_le(b + 1, k);
            }
        }
        assert(k < proof_count(0, len));
        if pow2(k) < end {
            lemma_max_pow_divides(pow2(k), k);
            lemma_mod_self_0(pow2(k) as int);
            lemma_read_path_from_aligned(pow2(k), end, len, k);
        }
        assert(read_path_ok(pow2(k), end, len));
    }
}

/// A read of one step always finds a stored hop.
pub proof fn lemma_read_one_step(j: nat, len: nat)
    requires
        j + 1 < len,
    ensures
        read_path_ok(j, j + 1, len),
{
    assert(floor_log2(1) == 0);
    lemma2_to64();
    assert(proof_count(j, len) >= 1);
    assert(read_path_ok(j + 1, j + 1, len));
}

/// A read from `cur` succeeds when `cur` is divisible by `2^t` and
/// the distance to `end` is below `2^t`.
proof fn lemma_read_path_from_aligned(cur: nat, end: nat, len: nat, t: nat)
    requires
        cur > 0,
        cur <= end < len,
        t <= trailing_zeros(cur),
        end - cur < pow2(t),
    ensures
        read_path_ok(cur, end, len),
    decreases end - cur,
{
    if cur < end {
        let d = (end - cur) as nat;
        let k = floor_log2(d);
        lemma_floor_log2_bounds(d);
        lemma_pow2_pos(k);
        assert(k < t) by {
            if k >= t {
                lemma_pow2_le(t, k);
            }
        }
        // the hop of length 2^k is stored at cur
        assert(k < proof_count(cur, len)) by {
            lemma_floor_log2_bounds((len - 1 - cur) as nat);
            let b = floor_log2((len - 1 - cur) as nat);
            if b < k {
                lemma_pow2_le(b + 1, k);
            }
        }
        let next = cur + pow2(k);
        lemma_pow2_unfold(k + 1);
        if next < end {
            // next is divisible by 2^k
            lemma_max_pow_divides(cur, k);
            assert(cur % pow2(k) == 0);
            lemma_mod_add_multiples_vanish(cur as int, pow2(k) as int);
            assert(next % pow2(k) == 0);
            lemma_max_pow_divides(next, k);
            assert(end - next < pow2(k));
            lemma_read_path_from_aligned(next, end, len, k);
        }
        assert(read_path_ok(next, end, len));
    }
}

// ---------------------------------------------------------------------------
// Facts about windows.

proof fn lemma_window_extend<C: Collector>(s: Seq<ItemView<C>>, x: ItemView<C>, top: int, m: nat)
    requires
        0 <= top < s.len(),
        m <= top,
    ensures
        window::<C>(s.push(x), top, m) == window::<C>(s, top, m),
    decreases m,
{
    if m > 0 {
        lemma_window_extend::<C>(s, x, top, (m - 1) as nat);
    }
}

// ---------------------------------------------------------------------------

/// `floor_log2` does not decrease.
proof fn lemma_floor_log2_monotone(a: nat, b: nat)
    requires
        1 <= a <= b,
    ensures
        floor_log2(a) <= floor_log2(b),
{
    lemma_floor_log2_bounds(a);
    lemma_floor_log2_bounds(b);
    lemma_pow2_le(floor_log2(a), floor_log2(b) + 1);
    if floor_log2(a) == floor_log2(b) + 1 {
        assert(false);
    }
}

/// An entry of a longer list holds at least as many proofs.
proof fn lemma_proof_count_grows(j: nat, len: nat)
    ensures
        proof_count(j, len) <= proof_count(j, len + 1),
{
    if j + 1 < len {
        lemma_floor_log2_monotone((len - 1 - j) as nat, (len - j) as nat);
    }
}

/// A read that finds a stored hop at every step still does so once the
/// list has grown by one item.
pub proof fn lemma_read_path_ok_grows(cur: nat, end: nat, len: nat)
    requires
        read_path_ok(cur, end, len),
    ensures
        read_path_ok(cur, end, len + 1),
    decreases end - cur,
{
    if cur < end {
        let k = floor_log2((end - cur) as nat);
        lemma_floor_log2_bounds((end - cur) as nat);
        lemma_pow2_pos(k);
        lemma_proof_count_grows(cur, len);
        lemma_read_path_ok_grows(cur + pow2(k), end, len);
    }
}

/// The collector over a window below the last item does not see an item
/// appended after it.
proof fn lemma_window_push<C: Collector>(items: Seq<ItemView<C>>, x: ItemView<C>, top: int, m: nat)
    requires
        0 <= top - m,
        top < items.len(),
    ensures
        window::<C>(items.push(x), top, m) == window::<C>(items, top, m),
    decreases m,
{
    if m > 0 {
        lemma_window_push::<C>(items, x, top, (m - 1) as nat);
    }
}

/// Appending an item changes no read that ends before it: the result of a
/// read from `cur` to `end` over the list's items stays the same.
pub proof fn lemma_read_after_push<C: Collector>(items: Seq<ItemView<C>>, x: ItemView<C>, cur: nat, end: nat)
    requires
        cur <= end < items.len(),
    ensures
        read_spec::<C>(items.push(x), cur, end) == read_spec::<C>(items, cur, end),
    decreases end - cur,
{
    if cur < end {
        let k = floor_log2((end - cur) as nat);
        lemma_floor_log2_bounds((end - cur) as nat);
        lemma_pow2_pos(k);
        let d = pow2(k);
        lemma_window_push::<C>(items, x, (cur + d) as int, (d - 1) as nat);
        lemma_read_after_push::<C>(items, x, cur + d, end);
        assert(items.push(x)[cur as int] == items[cur as int]);
    }
}

/// Number of trailing zero bits of `index` (zero for `index == 0`).
pub fn find_max_pow(index: usize) -> (r: usize)
    ensures
        r == trailing_zeros(index as nat),
{
    let mut index = index;
    if index == 0 {
        return 0;
    }
    let ghost orig = index as nat;
    proof {
        lemma_max_pow_divides(orig, trailing_zeros(orig));
        lemma_pow2_pos(trailing_zeros(orig));
        lemma_divides_le(orig, pow2(trailing_zeros(orig)));
        lemma_pow2_fits_usize(trailing_zeros(orig), orig);
    }
    let mut max_pow: usize = 0;
    while index % 2 == 0
        invariant
            index > 0,
            max_pow + trailing_zeros(index as nat) == trailing_zeros(orig),
            trailing_zeros(orig) < usize::BITS,
        decreases index,
    {
        assert(index >> 1 == index / 2) by (bit_vector);
        assert(trailing_zeros(index as nat) == 1 + trailing_zeros((index / 2) as nat));
        max_pow += 1;
        index >>= 1;
    }
    max_pow
}

#[derive(Debug)]
struct SkipListEntry<C: Collector> {
    item: C::Item,
    proofs: Vec<C::Proof>,
}

proof fn lemma_isize_max_pow2()
    ensures
        isize::MAX + 1 == pow2((usize::BITS - 1) as nat),
        usize::BITS >= 32,
{
    lemma2_to64();
    lemma_pow2_unfold(64);
}

impl<C: Collector> SkipListEntry<C> {
    fn new(item: C::Item) -> (r: Self)
        ensures
            r.item == item,
            r.proofs@.len() == 0,
    {
        Self { item, proofs: vec![] }
    }

    /// The stored proof for the longest hop that does not pass `offset`, and
    /// the length of that hop.
    fn find_next(&self, offset: usize) -> (r: (C::Proof, usize))
        requires
            1 <= offset <= isize::MAX,
            floor_log2(offset as nat) < self.proofs@.len(),
        ensures
            r.0@ == self.proofs@[floor_log2(offset as nat) as int]@,
            r.1 == pow2(floor_log2(offset as nat)),
    {
        let ghost f = floor_log2(offset as nat);
        proof {
            lemma_floor_log2_bounds(offset as nat);
            lemma_isize_max_pow2();
            if f + 1 >= usize::BITS {
                lemma_pow2_le((usize::BITS - 1) as nat, f);
            }
        }
        let mut i: usize = 0;
        while offset >> i > 0
            invariant
                i <= f + 1,
                f + 1 < usize::BITS,
                pow2(f) <= offset < pow2(f + 1),
            decreases f + 1 - i,
        {
            proof {
                lemma_usize_shr_is_div(offset, i);
                lemma_pow2_pos(i as nat);
                if i > f {
                    lemma_pow2_le(f + 1, i as nat);
                    lemma_small_div_converse(offset as int, pow2(i as nat) as int);
                    assert(offset as nat / pow2(i as nat) == 0) by {
                        lemma_basic_div(offset as int, pow2(i as nat) as int);
                    }
                }
            }
            i += 1;
        }
        proof {
            lemma_usize_shr_is_div(offset, i);
            lemma_pow2_pos(i as nat);
            if i <= f {
                lemma_pow2_le(i as nat, f);
                lemma_div_non_zero(offset as int, pow2(i as nat) as int);
            }
            lemma_pow2_fits_usize((i - 1) as nat, offset as nat);
            lemma_usize_shl_is_mul(1, (i - 1) as usize);
        }
        (C::clone_proof(&self.proofs[i - 1]), 1usize << (i - 1))
    }
}

spec fn entry_items<C: Collector>(entries: Seq<SkipListEntry<C>>) -> Seq<ItemView<C>> {
    entries.map_values(|e: SkipListEntry<C>| e.item@)
}

spec fn entry_wf<C: Collector>(entries: Seq<SkipListEntry<C>>, j: int) -> bool {
    let e = entries[j];
    &&& e.proofs@.len() == proof_count(j as nat, entries.len())
    &&& forall|k: int|
        0 <= k < e.proofs@.len() ==> #[trigger] e.proofs@[k]@ == proof_at::<C>(
            entry_items::<C>(entries),
            j,
            pow2(k as nat),
        )
}

proof fn lemma_hop_within(j: nat, k: nat, len: nat)
    requires
        k < proof_count(j, len),
    ensures
        j + pow2(k) < len,
{
    let b = floor_log2((len - 1 - j) as nat);
    lemma_floor_log2_bounds((len - 1 - j) as nat);
    lemma_pow2_le(k, b);
}

/// After `add` appends entry `n`, each entry again holds the proofs that the
/// items determine.
proof fn lemma_entry_after_add<C: Collector>(
    new_e: Seq<SkipListEntry<C>>,
    old_e: Seq<SkipListEntry<C>>,
    j: int,
    n: nat,
    bound: nat,
)
    requires
        0 <= j <= n,
        new_e.len() == n + 1,
        old_e.len() == n,
        n > 0 ==> bound == pow2(trailing_zeros(n)),
        n == 0 ==> bound == 0,
        bound <= n,
        entry_items::<C>(new_e) == entry_items::<C>(old_e).push(new_e[n as int].item@),
        new_e[n as int].proofs@.len() == 0,
        forall|i: int| 0 <= i < n ==> #[trigger] entry_wf::<C>(old_e, i),
        forall|i: int| 0 <= i < n - bound ==> #[trigger] new_e[i].proofs@ == old_e[i].proofs@,
        forall|i: int|
            n - bound <= i < n ==> #[trigger] proof_views::<C>(new_e[i].proofs@) == (if is_pow2(
                (n - i) as nat,
            ) {
                proof_views::<C>(old_e[i].proofs@).push(
                    proof_at::<C>(entry_items::<C>(new_e), i, (n - i) as nat),
                )
            } else {
                proof_views::<C>(old_e[i].proofs@)
            }),
    ensures
        entry_wf::<C>(new_e, j),
{
    let new_items = entry_items::<C>(new_e);
    let old_items = entry_items::<C>(old_e);
    if j < n {
        let d = (n - j) as nat;
        assert(entry_wf::<C>(old_e, j));
        lemma_proof_count_step(j as nat, n);
        if is_pow2(d) {
            lemma_add_condition(j as nat, n);
        }
        assert forall|k: int| 0 <= k < old_e[j].proofs@.len() implies #[trigger] old_e[j].proofs@[k]@
            == proof_at::<C>(new_items, j, pow2(k as nat)) by {
            lemma_hop_within(j as nat, k as nat, n);
            lemma_pow2_pos(k as nat);
            lemma_window_extend::<C>(
                old_items,
                new_e[n as int].item@,
                j + pow2(k as nat),
                (pow2(k as nat) - 1) as nat,
            );
            assert(new_items[j] == old_items[j]);
        }
        if j < n - bound {
            assert(new_e[j].proofs@ == old_e[j].proofs@);
        } else if is_pow2(d) {
            assert(proof_views::<C>(new_e[j].proofs@).len() == new_e[j].proofs@.len());
            assert(new_e[j].proofs@.len() == old_e[j].proofs@.len() + 1);
            assert forall|k: int| 0 <= k < new_e[j].proofs@.len() implies #[trigger] new_e[j].proofs@[k]@
                == proof_at::<C>(new_items, j, pow2(k as nat)) by {
                assert(proof_views::<C>(new_e[j].proofs@)[k] == new_e[j].proofs@[k]@);
                if k < old_e[j].proofs@.len() {
                    assert(proof_views::<C>(old_e[j].proofs@)[k] == old_e[j].proofs@[k]@);
                }
            }
        } else {
            assert(proof_views::<C>(new_e[j].proofs@).len() == new_e[j].proofs@.len());
            assert(proof_views::<C>(old_e[j].proofs@).len() == old_e[j].proofs@.len());
            assert forall|k: int| 0 <= k < new_e[j].proofs@.len() implies #[trigger] new_e[j].proofs@[k]@
                == proof_at::<C>(new_items, j, pow2(k as nat)) by {
                assert(proof_views::<C>(new_e[j].proofs@)[k] == new_e[j].proofs@[k]@);
                assert(proof_views::<C>(old_e[j].proofs@)[k] == old_e[j].proofs@[k]@);
            }
        }
    }
}

/// A list of items with proofs between them, for reads in a logarithmic
/// number of hops.
#[derive(Debug)]
pub struct SkipList<C: Collector> {
    entries: Vec<SkipListEntry<C>>,
}

impl<C: Collector> SkipList<C> {
    /// The items added so far, oldest first.
    pub closed spec fn items(&self) -> Seq<ItemView<C>> {
        entry_items::<C>(self.entries@)
    }

    /// The stored proofs are exactly those that the items determine.
    pub closed spec fn wf(&self) -> bool {
        forall|j: int| 0 <= j < self.entries@.len() ==> #[trigger] entry_wf::<C>(self.entries@, j)
    }

    /// The proofs stored at entry `j`, shortest hop first.
    pub closed spec fn stored_proofs(&self, j: int) -> Seq<ProofView<C>> {
        proof_views::<C>(self.entries@[j].proofs@)
    }

    /// The layout of a consistent list: entry `j` holds `proof_count(j, len)`
    /// proofs, the `k`-th of them for the hop from `j` of length `2^k`.
    pub proof fn lemma_stored_proofs(&self, j: int)
        requires
            self.wf(),
            0 <= j < self.items().len(),
        ensures
            self.stored_proofs(j).len() == proof_count(j as nat, self.items().len()),
            forall|k: int|
                0 <= k < self.stored_proofs(j).len() ==> #[trigger] self.stored_proofs(j)[k] == proof_at::<C>(
                    self.items(),
                    j,
                    pow2(k as nat),
                ),
    {
        assert(entry_wf::<C>(self.entries@, j));
    }

    pub fn new() -> (r: Self)
        ensures
            r.wf(),
            r.items() == Seq::<ItemView<C>>::empty(),
    {
        let r = Self { entries: vec![] };
        assert(r.items() =~= Seq::<ItemView<C>>::empty());
        r
    }


    /// Appends `item`, storing in earlier entries the proofs that end at it.
    pub fn add(&mut self, item: C::Item)
        requires
            old(self).wf(),
            old(self).items().len() < usize::MAX,
        ensures
            final(self).wf(),
            final(self).items() == old(self).items().push(item@),
    {
        let entry = SkipListEntry::<C>::new(item);
        let mut collector = C::init(&entry.item);
        let n = self.entries.len();
        let max_pow = find_max_pow(n);
        let ghost old_entries = self.entries@;
        let ghost items2 = self.items().push(item@);
        proof {
            if n > 0 {
                lemma_max_pow_divides(n as nat, max_pow as nat);
                lemma_pow2_pos(max_pow as nat);
                lemma_divides_le(n as nat, pow2(max_pow as nat));
                lemma_pow2_fits_usize(max_pow as nat, n as nat);
                lemma_usize_shl_is_mul(1, max_pow);
            }
        }
        let bound: usize = if n == 0 {
            0
        } else {
            1usize << max_pow
        };
        let mut i: usize = 1;
        while i <= bound
            invariant
                n == self.entries@.len() == old_entries.len(),
                n < usize::MAX,
                max_pow == trailing_zeros(n as nat),
                n > 0 ==> bound == pow2(max_pow as nat),
                bound <= n,
                1 <= i <= bound + 1,
                items2 == entry_items::<C>(old_entries).push(item@),
                entry.item@ == item@,
                collector@ == window::<C>(items2, n as int, (i - 1) as nat),
                forall|j: int| 0 <= j < n ==> #[trigger] self.entries@[j].item == old_entries[j].item,
                forall|j: int| 0 <= j < n - i + 1 ==> #[trigger] self.entries@[j] == old_entries[j],
                forall|j: int|
                    n - i + 1 <= j < n ==> #[trigger] proof_views::<C>(self.entries@[j].proofs@) == (
                    if is_pow2((n - j) as nat) {
                        proof_views::<C>(old_entries[j].proofs@).push(
                            proof_at::<C>(items2, j, (n - j) as nat),
                        )
                    } else {
                        proof_views::<C>(old_entries[j].proofs@)
                    }),
            decreases bound + 1 - i,
        {
            let idx = n - i;
            proof {
                lemma_is_pow2_bits(i);
                assert(items2[idx as int] == self.entries@[idx as int].item@);
            }
            if i & (i - 1) == 0 {
                let p = collector.to_proof(&self.entries[idx].item);
                let ghost before = self.entries@[idx as int].proofs@;
                self.entries[idx].proofs.push(p);
                proof {
                    assert(proof_views::<C>(self.entries@[idx as int].proofs@) =~= proof_views::<C>(
                        before,
                    ).push(p@));
                }
            }
            collector.collect(&self.entries[idx].item);
            i += 1;
        }
        self.entries.push(entry);
        proof {
            assert(self.items() =~= items2);
            assert forall|j: int| 0 <= j < self.entries@.len() implies #[trigger] entry_wf::<C>(
                self.entries@,
                j,
            ) by {
                lemma_entry_after_add::<C>(self.entries@, old_entries, j, n as nat, bound as nat);
            }
        }
    }

    /// The proofs and items along the greedy path of hops from `start` to `end`.
    pub fn read(&self, start: usize, end: usize) -> (r: Vec<(C::Proof, C::Item)>)
        requires
            self.wf(),
            start <= end,
            end < self.items().len(),
            end <= isize::MAX,
            read_path_ok(start as nat, end as nat, self.items().len()),
        ensures
            read_views::<C>(r@) == read_spec::<C>(self.items(), start as nat, end as nat),
    {
        let mut cur = start;
        let mut result: Vec<(C::Proof, C::Item)> = vec![];
        while cur < end
            invariant
                self.wf(),
                start <= cur <= end,
                end < self.entries@.len(),
                end <= isize::MAX,
                read_path_ok(cur as nat, end as nat, self.entries@.len()),
                read_views::<C>(result@) + read_spec::<C>(self.items(), cur as nat, end as nat)
                    == read_spec::<C>(
                    self.items(),
                    start as nat,
                    end as nat,
                ),
            decreases end - cur,
        {
            let cur_entry = &self.entries[cur];
            proof {
                assert(entry_wf::<C>(self.entries@, cur as int));
                lemma_floor_log2_bounds((end - cur) as nat);
                lemma_pow2_pos(floor_log2((end - cur) as nat));
                assert(self.items()[cur as int] == cur_entry.item@);
            }
            let (proof, offset) = cur_entry.find_next(end - cur);
            let ghost before = read_views::<C>(result@);
            let item = C::clone_item(&cur_entry.item);
            result.push((proof, item));
            proof {
                let rest = read_spec::<C>(self.items(), (cur + offset) as nat, end as nat);
                assert(read_spec::<C>(self.items(), cur as nat, end as nat) == seq![
                    (proof@, item@),
                ] + rest);
                assert(read_views::<C>(result@) =~= before.push((proof@, item@)));
                assert(read_views::<C>(result@) + rest =~= before + read_spec::<C>(
                    self.items(),
                    cur as nat,
                    end as nat,
                ));
            }
            cur += offset;
        }
        proof {
            assert(read_views::<C>(result@) + read_spec::<C>(self.items(), end as nat, end as nat)
                =~= read_views::<C>(result@));
        }
        result
    }

    pub fn len(&self) -> (r: usize)
        ensures
            r == self.items().len(),
    {
        self.entries.len()
    }

    pub fn is_empty(&self) -> (r: bool)
        ensures
            r == (self.items().len() == 0),
    {
        self.entries.len() == 0
    }
}


impl<C: Collector> Default for SkipList<C> {
    fn default() -> (r: Self)
        ensures
            r.wf(),
            r.items() == Seq::<ItemView<C>>::empty(),
    {
        Self::new()
    }
}

/// A collector over indices whose proof for a hop is the pair of indices
/// where the hop starts and ends.
impl Collector for (usize, usize) {
    type Item = usize;
    type Proof = (usize, usize);

    open spec fn spec_init(item: usize) -> (usize, usize) {
        (item, item)
    }

    open spec fn spec_collect(c: (usize, usize), item: usize) -> (usize, usize) {
        (item, c.1)
    }

    open spec fn spec_to_proof(c: (usize, usize), item: usize) -> (usize, usize) {
        (item, c.1)
    }

    fn init(item: &usize) -> (r: Self) {
        (*item, *item)
    }

    fn collect(&mut self, item: &usize) {
        self.0 = *item;
    }

    fn to_proof(&self, item: &usize) -> (r: (usize, usize)) {
        (*item, self.1)
    }

    fn clone_item(item: &usize) -> (r: usize) {
        *item
    }

    fn clone_proof(proof: &(usize, usize)) -> (r: (usize, usize)) {
        *proof
    }
}

proof fn lemma_index_window(items: Seq<usize>, top: int, m: nat)
    ensures
        window::<(usize, usize)>(items, top, m).1 == items[top],
    decreases m,
{
    if m > 0 {
        lemma_index_window(items, top, (m - 1) as nat);
    }
}

/// With the index collector, the proof for the hop from `j` of length `d`
/// is the pair of the items at both ends of the hop.
pub proof fn lemma_index_proof(items: Seq<usize>, j: int, d: nat)
    requires
        d >= 1,
    ensures
        proof_at::<(usize, usize)>(items, j, d) == (items[j], items[j + d]),
{
    lemma_index_window(items, j + d, (d - 1) as nat);
}

impl<C: Collector> DataSized for SkipListEntry<C> where C::Item: DataSized, C::Proof: DataSized {
    /// The item and its proofs, each counted as the first.
    closed spec fn spec_size(&self) -> nat {
        self.item.spec_size() + assumed_vec_size(self.proofs@)
    }

    fn size(&self) -> (r: Information) {
        self.item.size().plus(assume_data_size_for_vec(&self.proofs))
    }
}

impl<C: Collector> DataSized for SkipList<C> where C::Item: DataSized, C::Proof: DataSized {
    /// The entries, each counted as the first, which holds the most proofs.
    closed spec fn spec_size(&self) -> nat {
        assumed_vec_size(self.entries@)
    }

    fn size(&self) -> (r: Information) {
        assume_data_size_for_vec(&self.entries)
    }
}

} // verus!
