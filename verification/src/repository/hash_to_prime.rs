//! Hashing data to a prime below a given modulus.
//!
//! Successive integers of the modulus' byte length are read from the
//! SHAKE256 output for the data; each is mapped into the range below the
//! modulus by multiplying and shifting, with rejection of the biased
//! products, and the first of a few that passes the primality test is taken.
use crate::bigint::{
    digits_value, div_rem, from_u64, minus, multiply, passes_prime_test, power, probably_prime,
    trunc_div, trunc_rem, BigInt,
};
use crate::hash_to_prime::{block, shake256_output, IntegerHasher, MAX_TRIES};
use vstd::arithmetic::power::pow;
use vstd::prelude::*;

verus! {

/// No prime was found below the modulus.
#[derive(Debug)]
pub struct MyError;

/// How many candidates are tested for primality.
pub const CANDIDATES: usize = 3;

/// From the product `m` of an integer read from the hash with the modulus
/// `s`: while its low part (below `256^n`) is under the threshold `t`, the
/// next integer, from the `j`-th on, replaces it; the candidate is then the
/// high part, with the index of the next integer. `None` once `fuel`
/// replacements did not suffice.
pub open spec fn retry(data: Seq<u8>, n: nat, s: int, t: int, m: int, j: nat, fuel: nat) -> Option<(int, nat)>
    decreases fuel,
{
    if trunc_rem(m, pow(256, n)) >= t {
        Some((trunc_div(m, pow(256, n)), j))
    } else if fuel == 0 {
        None
    } else {
        retry(data, n, s, t, digits_value(block(data, n, j)) * s, j + 1, (fuel - 1) as nat)
    }
}

/// The candidate from the `i`-th integer read from the hash, with the index
/// of the next one: the rejection applies only when the low part of the
/// product is under the modulus.
pub open spec fn sample(data: Seq<u8>, n: nat, s: int, t: int, i: nat) -> Option<(int, nat)> {
    let m = digits_value(block(data, n, i)) * s;
    if trunc_rem(m, pow(256, n)) < s {
        retry(data, n, s, t, m, i + 1, MAX_TRIES as nat)
    } else {
        Some((trunc_div(m, pow(256, n)), i + 1))
    }
}

/// The first of `k` candidates, from the `i`-th integer on, that passes the
/// primality test.
pub open spec fn prime_below(data: Seq<u8>, n: nat, s: int, t: int, k: nat, i: nat) -> Option<int>
    decreases k,
{
    if k == 0 {
        None
    } else {
        match sample(data, n, s, t, i) {
            None => None,
            Some((c, j)) => if passes_prime_test(c) {
                Some(c)
            } else {
                prime_below(data, n, s, t, (k - 1) as nat, j)
            },
        }
    }
}

/// The threshold below which a low part is rejected for the modulus `s` of
/// `n` bytes.
pub open spec fn threshold(n: nat, s: int) -> int {
    trunc_div(2 * pow(256, n) - s, s)
}

/// The high part of a product of an integer below `256^n` with `s` is below
/// `s`, and not negative.
proof fn lemma_high_part(x: int, s: int, n: nat)
    requires
        0 <= x < pow(256, n),
        s > 0,
    ensures
        0 <= trunc_div(x * s, pow(256, n)) < s,
        trunc_div(x * s, pow(256, n)) == (x * s) / pow(256, n),
        trunc_rem(x * s, pow(256, n)) == (x * s) % pow(256, n),
{
    let p = pow(256, n);
    vstd::arithmetic::power::lemma_pow_positive(256, n);
    assert(x * s < p * s && x * s >= 0) by (nonlinear_arith)
        requires
            0 <= x < p,
            s > 0,
    ;
    vstd::arithmetic::div_mod::lemma_multiply_divide_lt(x * s, p, s);
    vstd::arithmetic::div_mod::lemma_div_pos_is_pos(x * s, p);
    vstd::arithmetic::div_mod::lemma_fundamental_div_mod(x * s, p);
}

/// Hash `data` to a prime below `modulus`: the first of `CANDIDATES`
/// candidates that passes the primality test.
pub fn hash_to_prime(data: &[u8], modulus: &BigInt) -> (r: Result<BigInt, MyError>)
    requires
        modulus@ > 0,
        modulus.spec_significant_bytes() * 8 <= u32::MAX,
        (CANDIDATES * (MAX_TRIES + 1) + 1) * modulus.spec_significant_bytes() <= usize::MAX,
    ensures
        match prime_below(
            data@,
            modulus.spec_significant_bytes(),
            modulus@,
            threshold(modulus.spec_significant_bytes(), modulus@),
            CANDIDATES as nat,
            0,
        ) {
            Some(c) => r matches Ok(x) && x@ == c,
            None => r is Err,
        },
        r matches Ok(x) ==> 0 <= x@ < modulus@ && passes_prime_test(x@),
{
    let n = modulus.significant_bytes();
    let ghost s = modulus@;
    let p = power(&from_u64(256), n as u32);
    let (t, _) = div_rem(&minus(&multiply(&from_u64(2), &p), modulus), modulus);
    let ghost tv = t@;
    let mut hasher = IntegerHasher::new(data, n);
    let mut k: usize = 0;
    while k < CANDIDATES
        invariant
            k <= CANDIDATES,
            hasher.data() == data@,
            hasher.digits() == n,
            n == modulus.spec_significant_bytes(),
            s == modulus@,
            s > 0,
            p@ == pow(256, n as nat),
            tv == t@,
            tv == threshold(n as nat, s),
            hasher.count() <= k * (MAX_TRIES + 1),
            (CANDIDATES * (MAX_TRIES + 1) + 1) * n <= usize::MAX,
            prime_below(data@, n as nat, s, tv, CANDIDATES as nat, 0) == prime_below(
                data@,
                n as nat,
                s,
                tv,
                (CANDIDATES - k) as nat,
                hasher.count(),
            ),
        decreases CANDIDATES - k,
    {
        let ghost i0 = hasher.count();
        proof {
            assert((hasher.count() + 1) * n <= usize::MAX && hasher.count() < usize::MAX) by (nonlinear_arith)
                requires
                    hasher.count() <= k * (MAX_TRIES + 1),
                    k < CANDIDATES,
                    (CANDIDATES * (MAX_TRIES + 1) + 1) * n <= usize::MAX,
                    usize::MAX >= u32::MAX,
            ;
        }
        let x = hasher.hash();
        let mut m = multiply(&x, modulus);
        let (mut candidate, mut l) = div_rem(&m, &p);
        proof {
            lemma_high_part(x@, s, n as nat);
        }
        if crate::bigint::less_than(&l, modulus) {
            let mut tries: usize = 0;
            while crate::bigint::less_than(&l, &t)
                invariant
                    hasher.data() == data@,
                    hasher.digits() == n,
                    s == modulus@,
                    s > 0,
                    p@ == pow(256, n as nat),
                    tv == t@,
                    tries <= MAX_TRIES,
                    n == modulus.spec_significant_bytes(),
                    tv == threshold(n as nat, s),
                    hasher.count() == i0 + 1 + tries,
                    i0 <= k * (MAX_TRIES + 1),
                    k < CANDIDATES,
                    (CANDIDATES * (MAX_TRIES + 1) + 1) * n <= usize::MAX,
                    candidate@ == trunc_div(m@, p@),
                    l@ == trunc_rem(m@, p@),
                    0 <= candidate@ < s,
                    retry(data@, n as nat, s, tv, digits_value(block(data@, n as nat, i0)) * s, i0 + 1, MAX_TRIES as nat)
                        == retry(data@, n as nat, s, tv, m@, hasher.count(), (MAX_TRIES - tries) as nat),
                    sample(data@, n as nat, s, tv, i0) == retry(
                        data@,
                        n as nat,
                        s,
                        tv,
                        digits_value(block(data@, n as nat, i0)) * s,
                        i0 + 1,
                        MAX_TRIES as nat,
                    ),
                    prime_below(data@, n as nat, s, tv, CANDIDATES as nat, 0) == prime_below(
                        data@,
                        n as nat,
                        s,
                        tv,
                        (CANDIDATES - k) as nat,
                        i0,
                    ),
                decreases MAX_TRIES - tries,
            {
                if tries == MAX_TRIES {
                    proof {
                        assert(trunc_rem(m@, pow(256, n as nat)) < tv);
                        assert(retry(data@, n as nat, s, tv, m@, hasher.count(), 0) is None);
                        assert(sample(data@, n as nat, s, tv, i0) is None);
                        assert(prime_below(data@, n as nat, s, tv, (CANDIDATES - k) as nat, i0) is None);
                    }
                    return Err(MyError);
                }
                proof {
                    assert((hasher.count() + 1) * n <= usize::MAX && hasher.count() < usize::MAX) by (nonlinear_arith)
                        requires
                            usize::MAX >= u32::MAX,
                            hasher.count() == i0 + 1 + tries,
                            tries < MAX_TRIES,
                            i0 <= k * (MAX_TRIES + 1),
                            k < CANDIDATES,
                            (CANDIDATES * (MAX_TRIES + 1) + 1) * n <= usize::MAX,
                    ;
                }
                let x = hasher.hash();
                m = multiply(&x, modulus);
                let (c, rem) = div_rem(&m, &p);
                proof {
                    lemma_high_part(x@, s, n as nat);
                }
                candidate = c;
                l = rem;
                tries += 1;
            }
        }
        if probably_prime(&candidate) {
            return Ok(candidate);
        }
        proof {
            assert(hasher.count() <= (k + 1) * (MAX_TRIES + 1)) by (nonlinear_arith)
                requires
                    hasher.count() <= i0 + 1 + MAX_TRIES,
                    i0 <= k * (MAX_TRIES + 1),
            ;
        }
        k += 1;
    }
    Err(MyError)
}

/// The `i`-th block of `n` bytes of `stream`, if the stream holds it.
pub open spec fn stream_block(stream: Seq<u8>, n: nat, i: nat) -> Option<Seq<u8>> {
    if (i + 1) * n <= stream.len() {
        Some(stream.subrange((i * n) as int, ((i + 1) * n) as int))
    } else {
        None
    }
}

/// `retry`, reading the integers from `stream`; `None` also where the stream
/// ends first.
pub open spec fn stream_retry(stream: Seq<u8>, n: nat, s: int, t: int, m: int, j: nat, fuel: nat) -> Option<
    (int, nat),
>
    decreases fuel,
{
    if trunc_rem(m, pow(256, n)) >= t {
        Some((trunc_div(m, pow(256, n)), j))
    } else if fuel == 0 {
        None
    } else {
        match stream_block(stream, n, j) {
            None => None,
            Some(b) => stream_retry(stream, n, s, t, digits_value(b) * s, j + 1, (fuel - 1) as nat),
        }
    }
}

/// `sample`, reading the integers from `stream`.
pub open spec fn stream_sample(stream: Seq<u8>, n: nat, s: int, t: int, i: nat) -> Option<(int, nat)> {
    match stream_block(stream, n, i) {
        None => None,
        Some(b) => {
            let m = digits_value(b) * s;
            if trunc_rem(m, pow(256, n)) < s {
                stream_retry(stream, n, s, t, m, i + 1, MAX_TRIES as nat)
            } else {
                Some((trunc_div(m, pow(256, n)), i + 1))
            }
        },
    }
}

/// `prime_below`, reading the integers from `stream`.
pub open spec fn stream_prime_below(stream: Seq<u8>, n: nat, s: int, t: int, k: nat, i: nat) -> Option<int>
    decreases k,
{
    if k == 0 {
        None
    } else {
        match stream_sample(stream, n, s, t, i) {
            None => None,
            Some((c, j)) => if passes_prime_test(c) {
                Some(c)
            } else {
                stream_prime_below(stream, n, s, t, (k - 1) as nat, j)
            },
        }
    }
}

/// The `i`-th integer of `n` bytes of `stream`, which starts at `start`,
/// least significant byte first.
fn read_block(stream: &[u8], start: usize, n: usize, Ghost(i): Ghost<nat>) -> (r: BigInt)
    requires
        start == i * n,
        start + n <= stream@.len(),
    ensures
        stream_block(stream@, n as nat, i) matches Some(b) && r@ == digits_value(b),
        0 <= r@ < pow(256, n as nat),
{
    assert(i * n + n == (i + 1) * n) by (nonlinear_arith);
    let len = stream.len();
    assert(start + n <= len);
    let end = start + n;
    let mut bytes: Vec<u8> = Vec::new();
    let mut k: usize = start;
    while k < end
        invariant
            start <= k <= end,
            end <= stream@.len(),
            bytes@ == stream@.subrange(start as int, k as int),
        decreases end - k,
    {
        bytes.push(stream[k]);
        k += 1;
        assert(bytes@ =~= stream@.subrange(start as int, k as int));
    }
    proof {
        crate::bigint::lemma_digits_value_bound(bytes@);
    }
    BigInt::from_digits(&bytes)
}

/// Picks a prime below `modulus` from `stream`, read as successive integers
/// of the modulus' byte length: the rejection sampling of `hash_to_prime`
/// done on a stream of bytes given in full. Fails where no prime was found
/// among the candidates, or the stream ended first.
pub fn pick_prime_below(stream: &[u8], modulus: &BigInt) -> (r: Result<BigInt, MyError>)
    requires
        modulus@ > 0,
        modulus.spec_significant_bytes() * 8 <= u32::MAX,
    ensures
        match stream_prime_below(
            stream@,
            modulus.spec_significant_bytes(),
            modulus@,
            threshold(modulus.spec_significant_bytes(), modulus@),
            CANDIDATES as nat,
            0,
        ) {
            Some(c) => r matches Ok(x) && x@ == c,
            None => r is Err,
        },
        r matches Ok(x) ==> 0 <= x@ < modulus@ && passes_prime_test(x@),
{
    let n = modulus.significant_bytes();
    let ghost s = modulus@;
    let ghost st = stream@;
    let p = power(&from_u64(256), n as u32);
    let (t, _) = div_rem(&minus(&multiply(&from_u64(2), &p), modulus), modulus);
    let ghost tv = t@;
    let mut pos: usize = 0;
    let ghost mut count: nat = 0;
    let mut k: usize = 0;
    while k < CANDIDATES
        invariant
            k <= CANDIDATES,
            st == stream@,
            n == modulus.spec_significant_bytes(),
            s == modulus@,
            s > 0,
            p@ == pow(256, n as nat),
            tv == t@,
            tv == threshold(n as nat, s),
            pos == count * n,
            pos <= st.len(),
            stream_prime_below(st, n as nat, s, tv, CANDIDATES as nat, 0) == stream_prime_below(
                st,
                n as nat,
                s,
                tv,
                (CANDIDATES - k) as nat,
                count,
            ),
        decreases CANDIDATES - k,
    {
        let ghost i0 = count;
        proof {
            assert((i0 + 1) * n == pos + n) by (nonlinear_arith)
                requires
                    pos == i0 * n,
            ;
        }
        if n > stream.len() - pos {
            return Err(MyError);
        }
        let x = read_block(stream, pos, n, Ghost(count));
        pos = pos + n;
        proof {
            count = count + 1;
        }
        let mut m = multiply(&x, modulus);
        let (mut candidate, mut l) = div_rem(&m, &p);
        proof {
            lemma_high_part(x@, s, n as nat);
        }
        if crate::bigint::less_than(&l, modulus) {
            let mut tries: usize = 0;
            while crate::bigint::less_than(&l, &t)
                invariant
                    st == stream@,
                    s == modulus@,
                    s > 0,
                    p@ == pow(256, n as nat),
                    tv == t@,
                    tries <= MAX_TRIES,
                    n == modulus.spec_significant_bytes(),
                    tv == threshold(n as nat, s),
                    candidate@ == trunc_div(m@, p@),
                    l@ == trunc_rem(m@, p@),
                    0 <= candidate@ < s,
                    pos == count * n,
                    pos <= st.len(),
                    stream_block(st, n as nat, i0) is Some,
                    stream_sample(st, n as nat, s, tv, i0) == stream_retry(
                        st,
                        n as nat,
                        s,
                        tv,
                        digits_value(stream_block(st, n as nat, i0)->0) * s,
                        i0 + 1,
                        MAX_TRIES as nat,
                    ),
                    stream_retry(st, n as nat, s, tv, digits_value(stream_block(st, n as nat, i0)->0) * s, i0 + 1, MAX_TRIES as nat)
                        == stream_retry(st, n as nat, s, tv, m@, count, (MAX_TRIES - tries) as nat),
                    stream_prime_below(st, n as nat, s, tv, CANDIDATES as nat, 0) == stream_prime_below(
                        st,
                        n as nat,
                        s,
                        tv,
                        (CANDIDATES - k) as nat,
                        i0,
                    ),
                    k < CANDIDATES,
                decreases MAX_TRIES - tries,
            {
                if tries == MAX_TRIES {
                    return Err(MyError);
                }
                proof {
                    assert((count + 1) * n == pos + n) by (nonlinear_arith)
                        requires
                            pos == count * n,
                    ;
                }
                if n > stream.len() - pos {
                    return Err(MyError);
                }
                let x = read_block(stream, pos, n, Ghost(count));
                pos = pos + n;
                proof {
                    count = count + 1;
                }
                m = multiply(&x, modulus);
                let (c, rem) = div_rem(&m, &p);
                proof {
                    lemma_high_part(x@, s, n as nat);
                }
                candidate = c;
                l = rem;
                tries += 1;
            }
        }
        if probably_prime(&candidate) {
            return Ok(candidate);
        }
        k += 1;
    }
    Err(MyError)
}


/// `stream` is a prefix of the SHAKE256 output for `data`.
pub open spec fn is_shake256_prefix(data: Seq<u8>, stream: Seq<u8>) -> bool {
    forall|l: nat| l <= stream.len() ==> #[trigger] shake256_output(data, l) == stream.subrange(0, l as int)
}

/// Within a prefix of the SHAKE256 output, the blocks of the stream are
/// those of the hash.
proof fn lemma_stream_block(data: Seq<u8>, stream: Seq<u8>, n: nat, j: nat)
    requires
        is_shake256_prefix(data, stream),
        (j + 1) * n <= stream.len(),
    ensures
        stream_block(stream, n, j) == Some(block(data, n, j)),
{
    assert(j * n <= (j + 1) * n) by (nonlinear_arith);
    let l = (j + 1) * n;
    assert(shake256_output(data, l) == stream.subrange(0, l as int));
    assert(stream.subrange(0, l as int).subrange((j * n) as int, l as int) =~= stream.subrange(
        (j * n) as int,
        l as int,
    ));
}

/// `stream_retry` on a prefix of the SHAKE256 output agrees with `retry`
/// wherever it found a candidate, and always where the prefix holds every
/// integer that could be read; the index it gives back is at most `j + fuel`.
proof fn lemma_stream_retry(data: Seq<u8>, stream: Seq<u8>, n: nat, s: int, t: int, m: int, j: nat, fuel: nat)
    requires
        is_shake256_prefix(data, stream),
    ensures
        stream_retry(stream, n, s, t, m, j, fuel) matches Some(x) ==> retry(data, n, s, t, m, j, fuel)
            == Some(x) && x.1 <= j + fuel,
        retry(data, n, s, t, m, j, fuel) matches Some(x) ==> x.1 <= j + fuel,
        (j + fuel) * n <= stream.len() ==> stream_retry(stream, n, s, t, m, j, fuel) == retry(
            data,
            n,
            s,
            t,
            m,
            j,
            fuel,
        ),
    decreases fuel,
{
    if trunc_rem(m, pow(256, n)) >= t {
    } else if fuel == 0 {
    } else {
        let f = (fuel - 1) as nat;
        lemma_stream_retry_step(data, stream, n, s, t, m, j, fuel);
        if (j + 1) * n <= stream.len() {
            lemma_stream_block(data, stream, n, j);
            let b = block(data, n, j);
            lemma_stream_retry(data, stream, n, s, t, digits_value(b) * s, j + 1, f);
            assert((j + 1 + f) == j + fuel);
        } else {
            assert(stream_block(stream, n, j) is None);
            lemma_stream_retry(data, stream, n, s, t, digits_value(block(data, n, j)) * s, j + 1, f);
            assert((j + 1) * n <= (j + fuel) * n) by (nonlinear_arith)
                requires
                    fuel >= 1,
            ;
        }
    }
}

/// One step of `stream_retry` and of `retry` when the low part is rejected.
proof fn lemma_stream_retry_step(data: Seq<u8>, stream: Seq<u8>, n: nat, s: int, t: int, m: int, j: nat, fuel: nat)
    requires
        trunc_rem(m, pow(256, n)) < t,
        fuel > 0,
    ensures
        stream_retry(stream, n, s, t, m, j, fuel) == (match stream_block(stream, n, j) {
            None => None,
            Some(b) => stream_retry(stream, n, s, t, digits_value(b) * s, j + 1, (fuel - 1) as nat),
        }),
        retry(data, n, s, t, m, j, fuel) == retry(
            data,
            n,
            s,
            t,
            digits_value(block(data, n, j)) * s,
            j + 1,
            (fuel - 1) as nat,
        ),
{
}

/// `stream_sample` on a prefix of the SHAKE256 output agrees with `sample`
/// as `stream_retry` does with `retry`.
proof fn lemma_stream_sample(data: Seq<u8>, stream: Seq<u8>, n: nat, s: int, t: int, i: nat)
    requires
        is_shake256_prefix(data, stream),
    ensures
        stream_sample(stream, n, s, t, i) matches Some(x) ==> sample(data, n, s, t, i) == Some(x)
            && x.1 <= i + 1 + MAX_TRIES,
        sample(data, n, s, t, i) matches Some(x) ==> x.1 <= i + 1 + MAX_TRIES,
        (i + 1 + MAX_TRIES) * n <= stream.len() ==> stream_sample(stream, n, s, t, i) == sample(
            data,
            n,
            s,
            t,
            i,
        ),
{
    let m = digits_value(block(data, n, i)) * s;
    lemma_stream_retry(data, stream, n, s, t, m, i + 1, MAX_TRIES as nat);
    if (i + 1) * n <= stream.len() {
        lemma_stream_block(data, stream, n, i);
    } else {
        assert((i + 1) * n <= (i + 1 + MAX_TRIES) * n) by (nonlinear_arith);
    }
}

/// Picking a prime from a prefix of the SHAKE256 output for `data` gives
/// what hashing `data` gives, wherever a prime was picked; and always where
/// the prefix holds every integer that `k` candidates from the `i`-th
/// integer on could read.
pub proof fn lemma_pick_from_shake256_prefix(
    data: Seq<u8>,
    stream: Seq<u8>,
    n: nat,
    s: int,
    t: int,
    k: nat,
    i: nat,
)
    requires
        is_shake256_prefix(data, stream),
    ensures
        stream_prime_below(stream, n, s, t, k, i) matches Some(c) ==> prime_below(data, n, s, t, k, i)
            == Some(c),
        (i + k * (1 + MAX_TRIES)) * n <= stream.len() ==> stream_prime_below(stream, n, s, t, k, i)
            == prime_below(data, n, s, t, k, i),
    decreases k,
{
    if k > 0 {
        let k1 = (k - 1) as nat;
        lemma_stream_sample(data, stream, n, s, t, i);
        if (i + k * (1 + MAX_TRIES)) * n <= stream.len() {
            assert((i + 1 + MAX_TRIES) * n <= (i + k * (1 + MAX_TRIES)) * n) by (nonlinear_arith)
                requires
                    k >= 1,
            ;
        }
        match stream_sample(stream, n, s, t, i) {
            None => {},
            Some((c, j)) => {
                lemma_pick_from_shake256_prefix(data, stream, n, s, t, k1, j);
                assert((j + k1 * (1 + MAX_TRIES)) * n <= (i + k * (1 + MAX_TRIES)) * n) by (nonlinear_arith)
                    requires
                        j <= i + 1 + MAX_TRIES,
                        k1 + 1 == k,
                ;
            },
        }
    }
}

} // verus!
