//! Arbitrary-precision signed integers.
//!
//! A `BigInt` holds its magnitude as little-endian base-256 digits, never
//! with a trailing zero digit, together with a sign. Arithmetic is done by
//! GMP through `rug`; each call converts the digits to a `rug::Integer` and
//! the result back.
use rug::integer::Order;
use rug::ops::Pow;
use crate::util::{DataSized, Information};
use vstd::prelude::*;
use vstd::arithmetic::power::pow;

verus! {

/// The value of little-endian base-256 digits.
pub open spec fn digits_value(d: Seq<u8>) -> nat
    decreases d.len(),
{
    if d.len() == 0 {
        0
    } else {
        d[0] as nat + 256 * digits_value(d.drop_first())
    }
}

/// `|a|`.
pub open spec fn abs(a: int) -> int {
    if a < 0 {
        -a
    } else {
        a
    }
}

/// Quotient of the division that rounds toward zero.
pub open spec fn trunc_div(a: int, b: int) -> int {
    let q = abs(a) / abs(b);
    if (a >= 0) == (b >= 0) {
        q
    } else {
        -q
    }
}

/// Remainder of the division that rounds toward zero; it has the sign of `a`.
pub open spec fn trunc_rem(a: int, b: int) -> int {
    a - b * trunc_div(a, b)
}

/// `d` divides `x`.
pub open spec fn divides(d: int, x: int) -> bool {
    if d == 0 {
        x == 0
    } else {
        x % d == 0
    }
}

/// `s` and `t` combine `a` and `b` to one.
pub open spec fn combines_to_one(a: int, b: int, s: int, t: int) -> bool {
    a * s + b * t == 1
}

/// `a` and `b` are coprime: some integer combination of them is one.
pub open spec fn coprime(a: int, b: int) -> bool {
    exists|s: int, t: int| #[trigger] combines_to_one(a, b, s, t)
}

/// Coprimality does not depend on the order.
pub proof fn lemma_coprime_symmetric(a: int, b: int)
    requires
        coprime(a, b),
    ensures
        coprime(b, a),
{
    let (s, t) = choose|s: int, t: int| #[trigger] combines_to_one(a, b, s, t);
    assert(combines_to_one(b, a, t, s));
}

/// A product of two values coprime to `c` is coprime to `c`.
pub proof fn lemma_coprime_product(a: int, b: int, c: int)
    requires
        coprime(a, c),
        coprime(b, c),
    ensures
        coprime(a * b, c),
{
    let (s1, t1) = choose|s: int, t: int| #[trigger] combines_to_one(a, c, s, t);
    let (s2, t2) = choose|s: int, t: int| #[trigger] combines_to_one(b, c, s, t);
    let (x, y, z, w) = (a * s1, c * t1, b * s2, c * t2);
    assert((x + y) * (z + w) == x * z + x * w + y * z + y * w) by (nonlinear_arith);
    assert(x * z == (a * b) * (s1 * s2)) by (nonlinear_arith)
        requires
            x == a * s1,
            z == b * s2,
    ;
    assert(x * w == c * (a * s1 * t2)) by (nonlinear_arith)
        requires
            x == a * s1,
            w == c * t2,
    ;
    assert(y * z == c * (t1 * b * s2)) by (nonlinear_arith)
        requires
            y == c * t1,
            z == b * s2,
    ;
    assert(y * w == c * (c * t1 * t2)) by (nonlinear_arith)
        requires
            y == c * t1,
            w == c * t2,
    ;
    let s = s1 * s2;
    let t = a * s1 * t2 + t1 * b * s2 + c * t1 * t2;
    assert(c * t == c * (a * s1 * t2) + c * (t1 * b * s2) + c * (c * t1 * t2)) by (nonlinear_arith)
        requires
            t == a * s1 * t2 + t1 * b * s2 + c * t1 * t2,
    ;
    assert((x + y) * (z + w) == 1) by (nonlinear_arith)
        requires
            x + y == 1,
            z + w == 1,
    ;
    assert(combines_to_one(a * b, c, s, t));
}

/// Every value is coprime to one.
pub proof fn lemma_coprime_one(a: int)
    ensures
        coprime(a, 1),
{
    assert(combines_to_one(a, 1, 0, 1));
}

/// A common divisor of coprime values, with a combination of them equal
/// to it, is one.
pub proof fn lemma_coprime_gcd(a: int, b: int, g: int, s: int, t: int)
    requires
        coprime(a, b),
        g >= 0,
        divides(g, a),
        divides(g, b),
        a * s + b * t == g,
    ensures
        g == 1,
{
    let (s0, t0) = choose|s: int, t: int| #[trigger] combines_to_one(a, b, s, t);
    if g == 0 {
        assert(a * s0 + b * t0 == 0) by (nonlinear_arith)
            requires
                a == 0,
                b == 0,
        ;
    } else {
        vstd::arithmetic::div_mod::lemma_fundamental_div_mod(a, g);
        vstd::arithmetic::div_mod::lemma_fundamental_div_mod(b, g);
        let x = a / g;
        let y = b / g;
        assert(g * (x * s0 + y * t0) == 1) by (nonlinear_arith)
            requires
                a == g * x,
                b == g * y,
                a * s0 + b * t0 == 1,
        ;
        assert(g == 1) by (nonlinear_arith)
            requires
                g * (x * s0 + y * t0) == 1,
                g > 0,
        ;
    }
}

/// `w` is an inverse of `a` modulo `m`.
pub open spec fn is_inverse_mod(a: int, w: int, m: int) -> bool {
    (a * w) % m == 1
}

/// `x` is a prime number.
pub open spec fn is_prime(x: int) -> bool {
    &&& x >= 2
    &&& forall|d: int| 2 <= d < x ==> !#[trigger] divides(d, x)
}

/// Whether GMP's probable-prime test (`mpz_probab_prime_p` with 30 rounds,
/// run through `rug::Integer::is_probably_prime`) accepts `x`.
pub uninterp spec fn passes_prime_test(x: int) -> bool;

/// An arbitrary-precision signed integer.
#[derive(Debug, PartialEq, Eq, Hash)]
pub struct BigInt {
    negative: bool,
    digits: Vec<u8>,
}

impl BigInt {
    #[verifier::type_invariant]
    closed spec fn canonical(&self) -> bool {
        &&& (self.digits.len() > 0 ==> self.digits@.last() != 0)
        &&& (self.digits.len() == 0 ==> !self.negative)
    }

    /// The integer this value denotes.
    pub closed spec fn value(&self) -> int {
        if self.negative {
            -(digits_value(self.digits@) as int)
        } else {
            digits_value(self.digits@) as int
        }
    }

    /// The number of bytes of the magnitude, without leading zero bytes.
    pub closed spec fn spec_significant_bytes(&self) -> nat {
        self.digits@.len()
    }
}

impl View for BigInt {
    type V = int;

    open spec fn view(&self) -> int {
        self.value()
    }
}

/// `n` digits denote a value below `256^n`.
pub proof fn lemma_digits_value_bound(d: Seq<u8>)
    ensures
        digits_value(d) < pow(256, d.len()),
    decreases d.len(),
{
    vstd::arithmetic::power::lemma_pow0(256);
    if d.len() > 0 {
        lemma_digits_value_bound(d.drop_first());
        let p = pow(256, d.drop_first().len());
        assert(pow(256, d.len()) == 256 * p) by {
            vstd::arithmetic::power::lemma_pow_adds(256, 1, d.drop_first().len());
            vstd::arithmetic::power::lemma_pow1(256);
        }
        assert(d[0] as nat + 256 * digits_value(d.drop_first()) < 256 * p) by (nonlinear_arith)
            requires
                d[0] < 256,
                digits_value(d.drop_first()) < p,
        ;
    }
}

proof fn lemma_digits_trailing_zero(d: Seq<u8>)
    ensures
        digits_value(d.push(0u8)) == digits_value(d),
    decreases d.len(),
{
    if d.len() == 0 {
        assert(d.push(0u8).drop_first() =~= Seq::<u8>::empty());
        assert(digits_value(Seq::<u8>::empty()) == 0);
        assert(d.push(0u8)[0] == 0);
    } else {
        assert(d.push(0u8).drop_first() =~= d.drop_first().push(0u8));
        assert(d.push(0u8)[0] == d[0]);
        lemma_digits_trailing_zero(d.drop_first());
    }
}

impl Clone for BigInt {
    fn clone(&self) -> (r: Self)
        ensures
            r@ == self@,
    {
        proof {
            use_type_invariant(self);
        }
        BigInt { negative: self.negative, digits: self.digits.clone() }
    }
}

impl BigInt {
    /// Builds the non-negative integer with these little-endian base-256 digits
    /// (`rug::Integer::from_digits` with `Order::Lsf`).
    pub fn from_digits(digits: &[u8]) -> (r: BigInt)
        ensures
            r@ == digits_value(digits@),
    {
        let mut v: Vec<u8> = Vec::new();
        let mut i: usize = 0;
        while i < digits.len()
            invariant
                i <= digits@.len(),
                v@ == digits@.subrange(0, i as int),
            decreases digits@.len() - i,
        {
            v.push(digits[i]);
            i += 1;
        }
        assert(v@ =~= digits@);
        while v.len() > 0 && v[v.len() - 1] == 0
            invariant
                digits_value(v@) == digits_value(digits@),
            decreases v@.len(),
        {
            let ghost before = v@;
            v.pop();
            proof {
                assert(before =~= v@.push(0u8));
                lemma_digits_trailing_zero(v@);
            }
        }
        BigInt { negative: false, digits: v }
    }

    /// Number of bytes of the magnitude without leading zeros
    /// (`rug::Integer::significant_digits::<u8>`).
    pub fn significant_bytes(&self) -> (r: usize)
        ensures
            r == self.spec_significant_bytes(),
    {
        self.digits.len()
    }

    /// Whether the value is zero.
    pub fn is_zero(&self) -> (r: bool)
        ensures
            r == (self@ == 0),
    {
        proof {
            use_type_invariant(self);
            if self.digits@.len() > 0 {
                lemma_last_digit_positive(self.digits@);
            }
        }
        self.digits.len() == 0
    }

    /// Whether the value is below zero.
    pub fn is_negative(&self) -> (r: bool)
        ensures
            r == (self@ < 0),
    {
        proof {
            use_type_invariant(self);
            if self.digits@.len() > 0 {
                lemma_last_digit_positive(self.digits@);
            }
        }
        self.negative
    }
}

/// The decimal digits of `v`, as ASCII bytes, most significant first.
pub open spec fn decimal(v: nat) -> Seq<u8>
    decreases v,
{
    if v < 10 {
        seq![(48 + v) as u8]
    } else {
        decimal(v / 10).push((48 + v % 10) as u8)
    }
}

/// The decimal notation of `v`, as ASCII bytes, with a leading `-` when it is
/// negative.
pub open spec fn decimal_int(v: int) -> Seq<u8> {
    if v < 0 {
        seq![45u8] + decimal((-v) as nat)
    } else {
        decimal(v as nat)
    }
}

impl BigInt {
    /// The value, which must be below 256.
    pub fn low_byte(&self) -> (r: u8)
        requires
            0 <= self@ < 256,
        ensures
            r == self@,
    {
        proof {
            use_type_invariant(self);
            if self.digits@.len() >= 2 {
                assert(self.digits@.drop_first().last() == self.digits@.last());
                lemma_last_digit_positive(self.digits@.drop_first());
            }
        }
        if self.digits.len() == 0 {
            0
        } else {
            proof {
                assert(self.digits@.drop_first().len() == 0);
            }
            self.digits[0]
        }
    }

    /// The decimal notation of the value, as ASCII bytes.
    pub fn to_decimal(&self) -> (r: Vec<u8>)
        ensures
            r@ == decimal_int(self@),
    {
        if self.is_negative() {
            let magnitude = minus(&from_u64(0), self);
            let mut r: Vec<u8> = Vec::new();
            r.push(45u8);
            let digits = decimal_digits(&magnitude);
            let mut i: usize = 0;
            while i < digits.len()
                invariant
                    i <= digits@.len(),
                    r@ == seq![45u8] + digits@.subrange(0, i as int),
                decreases digits@.len() - i,
            {
                r.push(digits[i]);
                i += 1;
                assert(r@ =~= seq![45u8] + digits@.subrange(0, i as int));
            }
            assert(digits@.subrange(0, digits@.len() as int) =~= digits@);
            r
        } else {
            decimal_digits(self)
        }
    }
}

/// The decimal digits of a non-negative value.
fn decimal_digits(x: &BigInt) -> (r: Vec<u8>)
    requires
        x@ >= 0,
    ensures
        r@ == decimal(x@ as nat),
    decreases x@,
{
    let ten = from_u64(10);
    if less_than(x, &ten) {
        let d = x.low_byte();
        let mut r: Vec<u8> = Vec::new();
        r.push(48 + d);
        assert(r@ =~= seq![(48 + d) as u8]);
        r
    } else {
        let (q, rem) = div_rem(x, &ten);
        proof {
            vstd::arithmetic::div_mod::lemma_fundamental_div_mod(x@, 10);
        }
        let mut r = decimal_digits(&q);
        let d = rem.low_byte();
        r.push(48 + d);
        r
    }
}

impl DataSized for BigInt {
    open spec fn spec_size(&self) -> nat {
        self.spec_significant_bytes()
    }

    fn size(&self) -> (r: Information) {
        Information::new_bytes(self.digits.len() as u64)
    }
}

proof fn lemma_last_digit_positive(d: Seq<u8>)
    requires
        d.len() > 0,
        d.last() != 0,
    ensures
        digits_value(d) > 0,
    decreases d.len(),
{
    if d.len() > 1 {
        assert(d.drop_first().last() == d.last());
        lemma_last_digit_positive(d.drop_first());
    }
}

/// Builds an integer from a `u64` (`rug::Integer::from`).
#[verifier::external_body]
pub fn from_u64(v: u64) -> (r: BigInt)
    ensures
        r@ == v as int,
{
    let x = rug::Integer::from(v);
    let mut digits = vec![0u8; x.significant_digits::<u8>()];
    x.write_digits(&mut digits, Order::Lsf);
    BigInt { negative: false, digits }
}

/// `a * b` (`rug::Integer` multiplication).
#[verifier::external_body]
pub fn multiply(a: &BigInt, b: &BigInt) -> (r: BigInt)
    ensures
        r@ == a@ * b@,
{
    let x = rug::Integer::from_digits(&a.digits, Order::Lsf);
    let x = if a.negative { -x } else { x };
    let y = rug::Integer::from_digits(&b.digits, Order::Lsf);
    let y = if b.negative { -y } else { y };
    let z = x * y;
    let mut digits = vec![0u8; z.significant_digits::<u8>()];
    z.write_digits(&mut digits, Order::Lsf);
    BigInt { negative: z < 0, digits }
}

/// `a + b` (`rug::Integer` addition).
#[verifier::external_body]
pub fn plus(a: &BigInt, b: &BigInt) -> (r: BigInt)
    ensures
        r@ == a@ + b@,
{
    let x = rug::Integer::from_digits(&a.digits, Order::Lsf);
    let x = if a.negative { -x } else { x };
    let y = rug::Integer::from_digits(&b.digits, Order::Lsf);
    let y = if b.negative { -y } else { y };
    let z = x + y;
    let mut digits = vec![0u8; z.significant_digits::<u8>()];
    z.write_digits(&mut digits, Order::Lsf);
    BigInt { negative: z < 0, digits }
}

/// `a - b` (`rug::Integer` subtraction).
#[verifier::external_body]
pub fn minus(a: &BigInt, b: &BigInt) -> (r: BigInt)
    ensures
        r@ == a@ - b@,
{
    let x = rug::Integer::from_digits(&a.digits, Order::Lsf);
    let x = if a.negative { -x } else { x };
    let y = rug::Integer::from_digits(&b.digits, Order::Lsf);
    let y = if b.negative { -y } else { y };
    let z = x - y;
    let mut digits = vec![0u8; z.significant_digits::<u8>()];
    z.write_digits(&mut digits, Order::Lsf);
    BigInt { negative: z < 0, digits }
}

/// Quotient and remainder of the division rounding toward zero
/// (`rug::Integer::div_rem`, which panics on a zero divisor).
#[verifier::external_body]
pub fn div_rem(a: &BigInt, b: &BigInt) -> (r: (BigInt, BigInt))
    requires
        b@ != 0,
    ensures
        r.0@ == trunc_div(a@, b@),
        r.1@ == trunc_rem(a@, b@),
{
    let x = rug::Integer::from_digits(&a.digits, Order::Lsf);
    let x = if a.negative { -x } else { x };
    let y = rug::Integer::from_digits(&b.digits, Order::Lsf);
    let y = if b.negative { -y } else { y };
    let (q, m) = x.div_rem(y);
    let (mut dq, mut dm) = (vec![0u8; q.significant_digits::<u8>()], vec![0u8; m.significant_digits::<u8>()]);
    q.write_digits(&mut dq, Order::Lsf);
    m.write_digits(&mut dm, Order::Lsf);
    (BigInt { negative: q < 0, digits: dq }, BigInt { negative: m < 0, digits: dm })
}

/// `a` raised to the power `e` (`rug::ops::Pow<u32>` for `rug::Integer`).
#[verifier::external_body]
pub fn power(a: &BigInt, e: u32) -> (r: BigInt)
    ensures
        r@ == pow(a@, e as nat),
{
    let x = rug::Integer::from_digits(&a.digits, Order::Lsf);
    let x = if a.negative { -x } else { x };
    let z = x.pow(e);
    let mut digits = vec![0u8; z.significant_digits::<u8>()];
    z.write_digits(&mut digits, Order::Lsf);
    BigInt { negative: z < 0, digits }
}

/// `b^e mod m` for a positive modulus (`rug::Integer::pow_mod`). A negative
/// exponent raises an inverse of `b` modulo `m` to `-e`; `rug` fails when `b`
/// has no inverse, so such a call is left out by `requires`.
#[verifier::external_body]
pub fn pow_mod(b: &BigInt, e: &BigInt, m: &BigInt) -> (r: BigInt)
    requires
        m@ > 0,
        e@ < 0 ==> exists|w: int| #[trigger] is_inverse_mod(b@, w, m@),
    ensures
        e@ >= 0 ==> r@ == pow(b@, e@ as nat) % m@,
        e@ < 0 ==> forall|w: int| #[trigger] is_inverse_mod(b@, w, m@) ==> r@ == pow(w, (-e@) as nat) % m@,
{
    let x = rug::Integer::from_digits(&b.digits, Order::Lsf);
    let x = if b.negative { -x } else { x };
    let y = rug::Integer::from_digits(&e.digits, Order::Lsf);
    let y = if e.negative { -y } else { y };
    let n = rug::Integer::from_digits(&m.digits, Order::Lsf);
    let z = x.pow_mod(&y, &n).unwrap();
    let mut digits = vec![0u8; z.significant_digits::<u8>()];
    z.write_digits(&mut digits, Order::Lsf);
    BigInt { negative: false, digits }
}

/// The greatest common divisor of `a` and `b` with the Bézout coefficients
/// that GMP's `mpz_gcdext` picks.
pub uninterp spec fn gcd_ext(a: int, b: int) -> (int, int, int);

/// The sign of `x`: -1, 0 or 1.
pub open spec fn sign(x: int) -> int {
    if x < 0 {
        -1
    } else if x == 0 {
        0
    } else {
        1
    }
}

/// The greatest common divisor `g` of `a` and `b` with Bézout coefficients
/// `s`, `t` such that `a * s + b * t == g` (`rug::Integer::extended_gcd`).
/// As its documentation says, normally `|s| < |b| / (2g)` and
/// `|t| < |a| / (2g)`; if `|a| == |b|` then `s == 0` and `t == sgn(b)`;
/// otherwise `s == sgn(a)` if `b == 0` or `|b| == 2g`, and `t == sgn(b)` if
/// `a == 0` or `|a| == 2g`. The result is named `gcd_ext`.
#[verifier::external_body]
pub fn extended_gcd(a: &BigInt, b: &BigInt) -> (r: (BigInt, BigInt, BigInt))
    ensures
        (r.0@, r.1@, r.2@) == gcd_ext(a@, b@),
        r.0@ >= 0,
        divides(r.0@, a@),
        divides(r.0@, b@),
        a@ * r.1@ + b@ * r.2@ == r.0@,
        a@ != 0 && b@ != 0 && abs(a@) != abs(b@) && abs(a@) != 2 * r.0@ && abs(b@) != 2 * r.0@ ==> 2 * r.0@ * abs(r.1@) < abs(b@) && 2 * r.0@ * abs(r.2@) < abs(a@),
        abs(a@) == abs(b@) ==> r.1@ == 0 && r.2@ == sign(b@),
        abs(a@) != abs(b@) && (b@ == 0 || abs(b@) == 2 * r.0@) ==> r.1@ == sign(a@),
        abs(a@) != abs(b@) && (a@ == 0 || abs(a@) == 2 * r.0@) ==> r.2@ == sign(b@),
{
    let x = rug::Integer::from_digits(&a.digits, Order::Lsf);
    let y = rug::Integer::from_digits(&b.digits, Order::Lsf);
    let (x, y) = (if a.negative { -x } else { x }, if b.negative { -y } else { y });
    let (g, s, t) = x.extended_gcd(y, rug::Integer::new());
    let (dg, ds, dt) = (g.to_digits::<u8>(Order::Lsf), s.to_digits::<u8>(Order::Lsf), t.to_digits::<u8>(Order::Lsf));
    (BigInt { negative: false, digits: dg }, BigInt { negative: s < 0, digits: ds }, BigInt { negative: t < 0, digits: dt })
}

/// Whether GMP's probable-prime test accepts `a`
/// (`rug::Integer::is_probably_prime(30) != IsPrime::No`). A rejected value is
/// certainly not prime.
#[verifier::external_body]
pub fn probably_prime(a: &BigInt) -> (r: bool)
    ensures
        r == passes_prime_test(a@),
        a@ >= 0 && is_prime(a@) ==> r,
        r ==> abs(a@) >= 2,
{
    let x = rug::Integer::from_digits(&a.digits, Order::Lsf);
    let x = if a.negative { -x } else { x };
    x.is_probably_prime(30) != rug::integer::IsPrime::No
}

/// Whether `a == b` (`rug::Integer` equality).
#[verifier::external_body]
pub fn equals(a: &BigInt, b: &BigInt) -> (r: bool)
    ensures
        r == (a@ == b@),
{
    let x = rug::Integer::from_digits(&a.digits, Order::Lsf);
    let x = if a.negative { -x } else { x };
    let y = rug::Integer::from_digits(&b.digits, Order::Lsf);
    let y = if b.negative { -y } else { y };
    x == y
}

/// Whether `a < b` (`rug::Integer` ordering).
#[verifier::external_body]
pub fn less_than(a: &BigInt, b: &BigInt) -> (r: bool)
    ensures
        r == (a@ < b@),
{
    let x = rug::Integer::from_digits(&a.digits, Order::Lsf);
    let x = if a.negative { -x } else { x };
    let y = rug::Integer::from_digits(&b.digits, Order::Lsf);
    let y = if b.negative { -y } else { y };
    x < y
}

} // verus!
