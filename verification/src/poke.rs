//! Proof-of-knowledge of Exponentiation (PoKE) proofs.
//!
//! The interactive protocol of [BBF18] is made non-interactive by
//! Fiat-Shamir: each challenge is hashed from the debugging text of what the
//! prover has sent so far.
//!
//! See [BBF18]: https://eprint.iacr.org/2018/1188.pdf
use crate::bigint::{digits_value, div_rem, multiply, trunc_div, trunc_rem, BigInt};
use crate::hash_to_prime::{block, first_accepted, hash_to_prime, shake256_output, IntegerHasher, MAX_TRIES};
use crate::primitives::{Group, Prime};
use crate::util::{append_bytes, DataSized, Information};
use std::marker::PhantomData;
use vstd::prelude::*;
use vstd::string::StringSliceAdditionalSpecFns;

verus! {

/// The statement proved: `w` is `u` raised to a power that the prover knows.
#[derive(Debug)]
pub struct Instance<G> {
    /// new value
    pub w: G,
    /// base
    pub u: G,
}

/// The exponent that the prover knows.
#[derive(Debug)]
pub struct Witness {
    pub x: BigInt,
}

/// A non-interactive proof.
#[derive(Debug)]
pub struct Proof<G> {
    z: G,
    quotient_term: G,
    r: BigInt,
}

impl<G: Group> Proof<G> {
    /// `g^x` for the challenge `g`.
    pub closed spec fn z(&self) -> int {
        self.z.value()
    }

    /// `u^q g^(alpha q)` for the quotient `q` of `x` by `ell`.
    pub closed spec fn quotient_term(&self) -> int {
        self.quotient_term.value()
    }

    /// The remainder of `x` by `ell`.
    pub closed spec fn remainder(&self) -> int {
        self.r@
    }

    /// A proof made of its three parts.
    pub fn from_parts(z: G, quotient_term: G, r: BigInt) -> (p: Self)
        ensures
            p.z() == z.value(),
            p.quotient_term() == quotient_term.value(),
            p.remainder() == r@,
    {
        Proof { z, quotient_term, r }
    }

    /// A copy of this proof.
    pub fn duplicate(&self) -> (p: Self)
        ensures
            p.z() == self.z(),
            p.quotient_term() == self.quotient_term(),
            p.remainder() == self.remainder(),
    {
        Proof { z: self.z.duplicate(), quotient_term: self.quotient_term.duplicate(), r: self.r.clone() }
    }
}

impl<G: Group> View for Proof<G> {
    type V = (int, int, int);

    open spec fn view(&self) -> (int, int, int) {
        (self.z(), self.quotient_term(), self.remainder())
    }
}

impl<G: Group + DataSized> DataSized for Proof<G> {
    open spec fn spec_size(&self) -> nat {
        self.parts_size()
    }

    fn size(&self) -> (r: Information) {
        let a = self.z.size();
        let b = self.quotient_term.size();
        let c = self.r.size();
        a.plus(b).plus(c)
    }
}

impl<G: Group + DataSized> Proof<G> {
    /// The sizes of the three parts, added up.
    pub closed spec fn parts_size(&self) -> nat {
        self.z.spec_size() + self.quotient_term.spec_size() + self.r.spec_size()
    }
}

/// The debugging text of an instance with elements `w` and `u`.
pub open spec fn instance_debug<G: Group>(w: int, u: int) -> Seq<u8> {
    "Instance { w: ".spec_bytes() + G::spec_debug(w) + ", u: ".spec_bytes() + G::spec_debug(u)
        + " }".spec_bytes()
}

/// The first integer read from the hash of `data`, from the `i`-th on and
/// below `MAX_TRIES`, that denotes an element.
pub open spec fn first_element<G: Group>(data: Seq<u8>, i: nat) -> Option<int>
    decreases MAX_TRIES - i,
{
    if i >= MAX_TRIES {
        None
    } else if G::is_element(digits_value(block(data, G::spec_byte_len(), i)) as int) {
        Some(digits_value(block(data, G::spec_byte_len(), i)) as int)
    } else {
        first_element::<G>(data, i + 1)
    }
}

/// The first challenge: an element hashed from the instance.
pub open spec fn challenge_g<G: Group>(w: int, u: int) -> Option<int> {
    first_element::<G>(instance_debug::<G>(w, u), 0)
}

/// The text hashed for the second challenge.
pub open spec fn transcript2<G: Group>(w: int, u: int, g: int, z: int) -> Seq<u8> {
    instance_debug::<G>(w, u) + G::spec_debug(g) + G::spec_debug(z)
}

/// The second challenge: a prime hashed from the instance, `g` and `z`.
pub open spec fn challenge_ell<G: Group>(w: int, u: int, g: int, z: int) -> Option<int> {
    first_accepted(transcript2::<G>(w, u, g, z), 0)
}

/// The third challenge: a 256-bit integer hashed from all of the above.
pub open spec fn challenge_alpha<G: Group>(w: int, u: int, g: int, z: int, ell: int) -> int {
    digits_value(block(transcript2::<G>(w, u, g, z) + Prime::spec_debug(ell), 32, 0)) as int
}

/// The third challenge is the integer whose 32 bytes, least significant
/// first, are the first 32 bytes of the SHAKE256 output for the transcript
/// of the instance, `g`, `z` and `ell`.
pub proof fn lemma_alpha_is_hash<G: Group>(w: int, u: int, g: int, z: int, ell: int)
    ensures
        challenge_alpha::<G>(w, u, g, z, ell) == digits_value(
            shake256_output(transcript2::<G>(w, u, g, z) + Prime::spec_debug(ell), 32).subrange(0, 32),
        ),
{
}

/// The check that `verify` makes once it has the challenges.
pub open spec fn poke_equation<G: Group>(
    w: int,
    u: int,
    g: int,
    z: int,
    quotient_term: int,
    r: int,
    ell: int,
    alpha: int,
) -> bool {
    G::spec_add(G::spec_add(G::spec_mul(quotient_term, ell), G::spec_mul(u, r)), G::spec_mul(g, alpha * r))
        == G::spec_add(w, G::spec_mul(z, alpha))
}

/// Rearranging a sum of four elements.
proof fn lemma_swap_middle<G: Group>(a: int, b: int, c: int, d: int)
    requires
        G::is_element(a),
        G::is_element(b),
        G::is_element(c),
        G::is_element(d),
    ensures
        G::spec_add(G::spec_add(G::spec_add(a, b), c), d) == G::spec_add(
            G::spec_add(a, c),
            G::spec_add(b, d),
        ),
{
    G::lemma_closed(a, b, 0);
    G::lemma_closed(b, c, 0);
    G::lemma_closed(a, c, 0);
    G::lemma_closed(c, b, 0);
    G::lemma_add_associative(a, b, c);
    G::lemma_add_commutative(b, c);
    G::lemma_add_associative(a, c, b);
    G::lemma_add_associative(G::spec_add(a, c), b, d);
}

/// Completeness: for a non-negative witness `x` of `w = u^x`, the parts that
/// `prove` computes satisfy the check that `verify` makes, whatever the
/// challenges `g`, `ell > 0` and `alpha >= 0`.
pub proof fn lemma_poke_complete<G: Group>(u: int, x: int, g: int, ell: int, alpha: int)
    requires
        G::is_element(u),
        G::is_element(g),
        x >= 0,
        ell > 0,
        alpha >= 0,
    ensures
        trunc_rem(x, ell) < ell,
        poke_equation::<G>(
            G::spec_mul(u, x),
            u,
            g,
            G::spec_mul(g, x),
            G::spec_add(
                G::spec_mul(u, trunc_div(x, ell)),
                G::spec_mul(g, alpha * trunc_div(x, ell)),
            ),
            trunc_rem(x, ell),
            ell,
            alpha,
        ),
{
    let q = trunc_div(x, ell);
    let r = trunc_rem(x, ell);
    vstd::arithmetic::div_mod::lemma_fundamental_div_mod(x, ell);
    assert(q == x / ell);
    assert(r == x % ell);
    assert(q >= 0) by (nonlinear_arith)
        requires
            q == x / ell,
            x >= 0,
            ell > 0,
    ;
    assert(alpha * q >= 0) by (nonlinear_arith)
        requires
            alpha >= 0,
            q >= 0,
    ;
    assert(alpha * r >= 0) by (nonlinear_arith)
        requires
            alpha >= 0,
            r >= 0,
    ;
    let uq = G::spec_mul(u, q);
    let gaq = G::spec_mul(g, alpha * q);
    let big_q = G::spec_add(uq, gaq);
    G::lemma_closed(u, u, q);
    G::lemma_closed(g, g, alpha * q);
    // Q^ell = u^(q ell) g^(alpha q ell)
    G::lemma_mul_distributes(uq, gaq, ell);
    G::lemma_mul_mul(u, q, ell);
    G::lemma_mul_mul(g, alpha * q, ell);
    let a = G::spec_mul(u, q * ell);
    let b = G::spec_mul(g, (alpha * q) * ell);
    let c = G::spec_mul(u, r);
    let d = G::spec_mul(g, alpha * r);
    G::lemma_closed(u, u, q * ell);
    G::lemma_closed(g, g, (alpha * q) * ell);
    G::lemma_closed(u, u, r);
    G::lemma_closed(g, g, alpha * r);
    lemma_swap_middle::<G>(a, b, c, d);
    assert(q * ell >= 0) by (nonlinear_arith)
        requires
            q >= 0,
            ell > 0,
    ;
    assert((alpha * q) * ell >= 0) by (nonlinear_arith)
        requires
            alpha * q >= 0,
            ell > 0,
    ;
    G::lemma_mul_add(u, q * ell, r);
    G::lemma_mul_add(g, (alpha * q) * ell, alpha * r);
    assert(q * ell + r == x) by (nonlinear_arith)
        requires
            x == ell * q + r,
    ;
    assert((alpha * q) * ell + alpha * r == x * alpha) by (nonlinear_arith)
        requires
            x == ell * q + r,
    ;
    G::lemma_mul_mul(g, x, alpha);
}

/// The first challenge is an element.
pub proof fn lemma_first_element<G: Group>(data: Seq<u8>, i: nat)
    ensures
        first_element::<G>(data, i) matches Some(v) ==> G::is_element(v),
    decreases MAX_TRIES - i,
{
    if i < MAX_TRIES && !G::is_element(digits_value(block(data, G::spec_byte_len(), i)) as int) {
        lemma_first_element::<G>(data, i + 1);
    }
}

/// The parts `(z, Q, r)` of the proof that `prove` makes for `w = u^x`, if
/// the challenges can be hashed.
pub open spec fn spec_prove<G: Group>(w: int, u: int, x: int) -> Option<(int, int, int)> {
    match challenge_g::<G>(w, u) {
        None => None,
        Some(g) => {
            let z = G::spec_mul(g, x);
            match challenge_ell::<G>(w, u, g, z) {
                None => None,
                Some(ell) => {
                    let alpha = challenge_alpha::<G>(w, u, g, z, ell);
                    let q = trunc_div(x, ell);
                    Some(
                        (
                            z,
                            G::spec_add(G::spec_mul(u, q), G::spec_mul(g, alpha * q)),
                            trunc_rem(x, ell),
                        ),
                    )
                },
            }
        },
    }
}

/// Whether `verify` accepts the proof with parts `(z, Q, r)` for `w` and `u`.
pub open spec fn spec_verify<G: Group>(w: int, u: int, z: int, quotient_term: int, r: int) -> bool {
    match challenge_g::<G>(w, u) {
        None => false,
        Some(g) => match challenge_ell::<G>(w, u, g, z) {
            None => false,
            Some(ell) => {
                let alpha = challenge_alpha::<G>(w, u, g, z, ell);
                r < ell && poke_equation::<G>(w, u, g, z, quotient_term, r, ell, alpha)
            },
        },
    }
}

/// Completeness: a proof that `prove` makes for a non-negative exponent
/// passes `verify`.
pub proof fn lemma_prove_verify<G: Group>(w: int, u: int, x: int)
    requires
        G::is_element(u),
        x >= 0,
        w == G::spec_mul(u, x),
        spec_prove::<G>(w, u, x) is Some,
    ensures
        ({
            let p = spec_prove::<G>(w, u, x).unwrap();
            spec_verify::<G>(w, u, p.0, p.1, p.2)
        }),
{
    let g = challenge_g::<G>(w, u).unwrap();
    lemma_first_element::<G>(instance_debug::<G>(w, u), 0);
    let z = G::spec_mul(g, x);
    let ell = challenge_ell::<G>(w, u, g, z).unwrap();
    crate::hash_to_prime::lemma_first_accepted(transcript2::<G>(w, u, g, z), 0);
    let alpha = challenge_alpha::<G>(w, u, g, z, ell);
    lemma_poke_complete::<G>(u, x, g, ell, alpha);
}

/// The parameters of the proof system.
#[derive(Debug)]
pub struct ZKUniverse<G> {
    pub lambda: u64,
    pub group: PhantomData<G>,
}

impl<G: Group> Default for ZKUniverse<G> {
    fn default() -> (r: Self)
        ensures
            r.lambda == 256,
    {
        ZKUniverse { lambda: 256, group: PhantomData }
    }
}

/// Appends the debugging text of an instance to `out`.
fn write_instance<G: Group>(instance: &Instance<G>, out: &mut Vec<u8>)
    ensures
        final(out)@ == old(out)@ + instance_debug::<G>(instance.w.value(), instance.u.value()),
{
    let ghost start = out@;
    append_bytes(out, "Instance { w: ".as_bytes());
    instance.w.write_debug(out);
    append_bytes(out, ", u: ".as_bytes());
    instance.u.write_debug(out);
    append_bytes(out, " }".as_bytes());
    assert(out@ =~= start + instance_debug::<G>(instance.w.value(), instance.u.value()));
}

/// The text hashed for the second challenge.
fn write_transcript2<G: Group>(instance: &Instance<G>, g: &G, z: &G) -> (r: Vec<u8>)
    ensures
        r@ == transcript2::<G>(instance.w.value(), instance.u.value(), g.value(), z.value()),
{
    let mut out: Vec<u8> = Vec::new();
    write_instance(instance, &mut out);
    g.write_debug(&mut out);
    z.write_debug(&mut out);
    assert(out@ =~= transcript2::<G>(instance.w.value(), instance.u.value(), g.value(), z.value()));
    out
}

impl<G: Group> ZKUniverse<G> {
    /// The first challenge: the first integer read from the hash of the
    /// instance that denotes an element, if one of the first `MAX_TRIES` does.
    pub fn fiat_shamir1(&self, instance: &Instance<G>) -> (r: Option<G>)
        ensures
            match challenge_g::<G>(instance.w.value(), instance.u.value()) {
                Some(v) => r matches Some(g) && g.value() == v,
                None => r is None,
            },
    {
        let mut data: Vec<u8> = Vec::new();
        write_instance(instance, &mut data);
        let bytes = G::bytes();
        proof {
            G::lemma_byte_len_bound();
        }
        let mut hasher = IntegerHasher::new(data.as_slice(), bytes);
        let mut tries: usize = 0;
        while tries < MAX_TRIES
            invariant
                tries <= MAX_TRIES,
                hasher.data() == data@,
                hasher.digits() == G::spec_byte_len(),
                0 < G::spec_byte_len() <= 65536,
                hasher.count() == tries,
                challenge_g::<G>(instance.w.value(), instance.u.value()) == first_element::<G>(
                    data@,
                    tries as nat,
                ),
                data@ == instance_debug::<G>(instance.w.value(), instance.u.value()),
            decreases MAX_TRIES - tries,
        {
            assert((tries + 1) * G::spec_byte_len() <= 10000 * 65536) by (nonlinear_arith)
                requires
                    tries < 10000,
                    G::spec_byte_len() <= 65536,
            ;
            let value = hasher.hash();
            match G::from_integer(value) {
                Some(g) => {
                    return Some(g);
                },
                None => {},
            }
            tries += 1;
        }
        None
    }

    /// The second challenge: a prime hashed from the instance, `g` and `z`.
    pub fn fiat_shamir2(&self, instance: &Instance<G>, g: &G, z: &G) -> (r: Option<Prime>)
        ensures
            match challenge_ell::<G>(instance.w.value(), instance.u.value(), g.value(), z.value()) {
                Some(v) => r matches Some(p) && p.value() == v,
                None => r is None,
            },
    {
        let data = write_transcript2(instance, g, z);
        match hash_to_prime(data.as_slice()) {
            Ok(p) => Some(p),
            Err(_) => None,
        }
    }

    /// The third challenge: a 256-bit integer hashed from the instance, `g`,
    /// `z` and `ell`.
    pub fn fiat_shamir3(&self, instance: &Instance<G>, g: &G, z: &G, ell: &Prime) -> (r: BigInt)
        ensures
            r@ == challenge_alpha::<G>(
                instance.w.value(),
                instance.u.value(),
                g.value(),
                z.value(),
                ell.value(),
            ),
            r@ == digits_value(
                shake256_output(
                    transcript2::<G>(instance.w.value(), instance.u.value(), g.value(), z.value())
                        + Prime::spec_debug(ell.value()),
                    32,
                ).subrange(0, 32),
            ),
            0 <= r@ < vstd::arithmetic::power::pow(256, 32),
    {
        let mut data = write_transcript2(instance, g, z);
        ell.write_debug(&mut data);
        let mut hasher = IntegerHasher::new(data.as_slice(), 32);
        hasher.hash()
    }

    /// Proves that `instance.w` is `instance.u` raised to `witness.x`;
    /// nothing where a challenge cannot be hashed.
    pub fn prove(&self, instance: Instance<G>, witness: Witness) -> (r: Option<Proof<G>>)
        requires
            G::spec_mul(instance.u.value(), witness.x@) == instance.w.value(),
        ensures
            r is Some <==> spec_prove::<G>(instance.w.value(), instance.u.value(), witness.x@) is Some,
            r matches Some(p) ==> p@ == spec_prove::<G>(
                instance.w.value(),
                instance.u.value(),
                witness.x@,
            ).unwrap(),
    {
        let x = witness.x;

        // Verifier sends g <-$- G to the Prover
        let g = match self.fiat_shamir1(&instance) {
            Some(g) => g,
            None => {
                return None;
            },
        };

        // Prover sends z <- g^x \in G to the verifier.
        let z = g.mul(&x);

        // Verifier sends ell <-$- Primes(lambda) and alpha <-$- [0, 2^lambda).
        let ell = match self.fiat_shamir2(&instance, &g, &z) {
            Some(ell) => ell,
            None => {
                return None;
            },
        };
        let alpha = self.fiat_shamir3(&instance, &g, &z, &ell);

        // Prover finds the quotient q and residue r < ell such that x = ql + r.
        let (q, r) = div_rem(&x, ell.inner());

        // Prover sends Q = u^q g^(alpha q) and r to the Verifier
        let quotient_term = instance.u.mul(&q).add(&g.mul(&multiply(&alpha, &q)));

        Some(Proof { z, quotient_term, r })
    }

    /// Whether `proof` shows that `instance.w` is a power of `instance.u`.
    pub fn verify(&self, instance: Instance<G>, proof: Proof<G>) -> (r: bool)
        ensures
            r == spec_verify::<G>(
                instance.w.value(),
                instance.u.value(),
                proof.z(),
                proof.quotient_term(),
                proof.remainder(),
            ),
    {
        // From Fiat-Shamir
        let g = match self.fiat_shamir1(&instance) {
            Some(g) => g,
            None => {
                return false;
            },
        };
        let ell = match self.fiat_shamir2(&instance, &g, &proof.z) {
            Some(ell) => ell,
            None => {
                return false;
            },
        };
        let alpha = self.fiat_shamir3(&instance, &g, &proof.z, &ell);

        // Verifier accepts if r < ell and Q^ell u^r g^(alpha r) = w z^(alpha).
        let lhs = proof.quotient_term.mul(ell.inner()).add(&instance.u.mul(&proof.r)).add(
            &g.mul(&multiply(&alpha, &proof.r)),
        );
        let rhs = instance.w.add(&proof.z.mul(&alpha));
        crate::bigint::less_than(&proof.r, ell.inner()) && lhs.equals(&rhs)
    }
}

} // verus!
