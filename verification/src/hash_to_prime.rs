//! Hashing byte strings to primes.
//!
//! The candidates are read from SHAKE256, an "extendable output function":
//! a hash function that gives as many bytes of output as one asks for.
//!
//! Hashing to a prime below a given modulus, and picking such a prime from
//! a stream of bytes given in full, are in `crate::repository::hash_to_prime`.
use crate::bigint::{digits_value, lemma_digits_value_bound, passes_prime_test, BigInt};
use vstd::arithmetic::power::pow;
use crate::primitives::Prime;
use sha3::digest::{ExtendableOutput, Update, XofReader};
use vstd::prelude::*;

verus! {

/// The first `len` bytes of the SHAKE256 output for `data`.
pub uninterp spec fn shake256_output(data: Seq<u8>, len: nat) -> Seq<u8>;

/// The first `len` bytes of SHAKE256 of `data` (`sha3::Shake256`, read
/// through `digest::XofReader`). The output is a stream, so a shorter read
/// is a prefix of a longer one.
#[verifier::external_body]
fn shake256(data: &[u8], len: usize) -> (r: Vec<u8>)
    ensures
        r@ == shake256_output(data@, len as nat),
        r@.len() == len,
        forall|n: nat| n <= len ==> #[trigger] shake256_output(data@, n) == r@.subrange(0, n as int),
{
    let mut hasher = sha3::Shake256::default();
    hasher.update(data);
    let mut reader = hasher.finalize_xof();
    let mut r = vec![0u8; len];
    reader.read(&mut r);
    r
}

/// The `i`-th block of `digits` bytes of the SHAKE256 output for `data`.
pub open spec fn block(data: Seq<u8>, digits: nat, i: nat) -> Seq<u8> {
    shake256_output(data, (i + 1) * digits).subrange((i * digits) as int, ((i + 1) * digits) as int)
}

/// Reads integers of a fixed number of bytes, one after the other, from the
/// SHAKE256 output for some data.
pub struct IntegerHasher {
    data: Vec<u8>,
    digits: usize,
    count: usize,
    buffer: Vec<u8>,
}

impl IntegerHasher {
    #[verifier::type_invariant]
    closed spec fn buffered(&self) -> bool {
        forall|n: nat|
            n <= self.buffer@.len() ==> #[trigger] shake256_output(self.data@, n)
                == self.buffer@.subrange(0, n as int)
    }

    /// The data being hashed.
    pub closed spec fn data(&self) -> Seq<u8> {
        self.data@
    }

    /// The number of bytes of each integer.
    pub closed spec fn digits(&self) -> nat {
        self.digits as nat
    }

    /// How many integers have been read.
    pub closed spec fn count(&self) -> nat {
        self.count as nat
    }

    /// A reader of `digits`-byte integers from the hash of `data`.
    pub fn new(data: &[u8], digits: usize) -> (r: Self)
        ensures
            r.data() == data@,
            r.digits() == digits,
            r.count() == 0,
    {
        let mut copy: Vec<u8> = Vec::new();
        let mut i: usize = 0;
        while i < data.len()
            invariant
                i <= data@.len(),
                copy@ == data@.subrange(0, i as int),
            decreases data@.len() - i,
        {
            copy.push(data[i]);
            i += 1;
        }
        assert(copy@ =~= data@);
        let buffer = shake256(&copy, digits);
        IntegerHasher { data: copy, digits, count: 0, buffer }
    }

    /// The next integer: the next `digits` bytes of the hash, least
    /// significant first.
    pub fn hash(&mut self) -> (r: BigInt)
        requires
            old(self).count() < usize::MAX,
            (old(self).count() + 1) * old(self).digits() <= usize::MAX,
        ensures
            r@ == digits_value(block(old(self).data(), old(self).digits(), old(self).count())),
            0 <= r@ < pow(256, old(self).digits()),
            final(self).data() == old(self).data(),
            final(self).digits() == old(self).digits(),
            final(self).count() == old(self).count() + 1,
    {
        proof {
            use_type_invariant(&*self);
        }
        assert(self.count * self.digits + self.digits == (self.count + 1) * self.digits)
            by (nonlinear_arith);
        let start = self.count * self.digits;
        let end = start + self.digits;
        assert(end == (self.count + 1) * self.digits) by (nonlinear_arith)
            requires
                start == self.count * self.digits,
                end == start + self.digits,
        ;
        if self.buffer.len() < end {
            let want = if end <= usize::MAX / 2 {
                end * 2
            } else {
                end
            };
            let buffer = shake256(&self.data, want);
            self.buffer = buffer;
        }
        let ghost whole = self.buffer@;
        let mut bytes: Vec<u8> = Vec::new();
        let mut i: usize = start;
        while i < end
            invariant
                start <= i <= end,
                end <= self.buffer@.len(),
                bytes@ == self.buffer@.subrange(start as int, i as int),
            decreases end - i,
        {
            bytes.push(self.buffer[i]);
            i += 1;
            assert(bytes@ =~= self.buffer@.subrange(start as int, i as int));
        }
        proof {
            assert(shake256_output(self.data@, end as nat) == self.buffer@.subrange(0, end as int));
            assert(block(self.data@, self.digits as nat, self.count as nat) =~= self.buffer@.subrange(
                start as int,
                end as int,
            ));
            lemma_digits_value_bound(bytes@);
        }
        self.count = self.count + 1;
        BigInt::from_digits(&bytes)
    }
}

/// Why no prime was found.
#[derive(Debug)]
pub enum HashToPrimeError {
    /// None of the candidates tried was prime.
    TooManyIters,
}

/// How many candidates `hash_to_prime` tries.
pub const MAX_TRIES: usize = 10000;

/// The `i`-th candidate that `hash_to_prime` tries for `data`.
pub open spec fn candidate(data: Seq<u8>, i: nat) -> int {
    digits_value(block(data, 32, i)) as int
}

/// The candidate is accepted as a prime.
pub open spec fn accepted(x: int) -> bool {
    x > 0 && passes_prime_test(x)
}

/// The first candidate from the `i`-th on, below `MAX_TRIES`, that is
/// accepted.
pub open spec fn first_accepted(data: Seq<u8>, i: nat) -> Option<int>
    decreases MAX_TRIES - i,
{
    if i >= MAX_TRIES {
        None
    } else if accepted(candidate(data, i)) {
        Some(candidate(data, i))
    } else {
        first_accepted(data, i + 1)
    }
}

/// The candidate found is accepted.
pub proof fn lemma_first_accepted(data: Seq<u8>, i: nat)
    ensures
        first_accepted(data, i) matches Some(v) ==> accepted(v),
    decreases MAX_TRIES - i,
{
    if i < MAX_TRIES && !accepted(candidate(data, i)) {
        lemma_first_accepted(data, i + 1);
    }
}

/// Hash the value of data to a 256-bit prime number: the first of the
/// successive 32-byte integers read from its SHAKE256 output that passes the
/// primality test, if one of the first `MAX_TRIES` does.
pub fn hash_to_prime(data: &[u8]) -> (r: Result<Prime, HashToPrimeError>)
    ensures
        match first_accepted(data@, 0) {
            Some(v) => r matches Ok(p) && p.value() == v,
            None => r is Err,
        },
        r matches Ok(p) ==> 0 < p.value() < pow(256, 32) && passes_prime_test(p.value()),
{
    let digits: usize = 32;
    let mut hasher = IntegerHasher::new(data, digits);
    let mut tries: usize = 0;
    while tries < MAX_TRIES
        invariant
            tries <= MAX_TRIES,
            hasher.data() == data@,
            hasher.digits() == 32,
            hasher.count() == tries,
            first_accepted(data@, 0) == first_accepted(data@, tries as nat),
        decreases MAX_TRIES - tries,
    {
        let value = hasher.hash();
        assert(value@ < pow(256, 32));
        match Prime::try_from(value) {
            Ok(prime) => {
                return Ok(prime);
            },
            Err(_) => {},
        }
        tries += 1;
    }
    Err(HashToPrimeError::TooManyIters)
}

} // verus!
