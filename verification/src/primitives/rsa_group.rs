//! The multiplicative group of integers modulo RSA-2048.
use crate::bigint::{
    decimal_int,
    div_rem, extended_gcd, from_u64, is_inverse_mod, less_than, minus, multiply, plus, pow_mod,
    trunc_rem, BigInt,
};
use crate::primitives::group::Group;
use crate::primitives::group_hidden_order::AdaptiveRootAssumption;
use crate::util::{append_bytes, DataSized, Information};
use vstd::arithmetic::div_mod::{lemma_mul_mod_noop, lemma_mul_mod_noop_left};
use vstd::arithmetic::power::{
    lemma1_pow, lemma_pow0, lemma_pow1, lemma_pow_adds, lemma_pow_distributes, lemma_pow_mod_noop, pow,
};
use vstd::prelude::*;
use vstd::string::StringSliceAdditionalSpecFns;

verus! {

/// The RSA-2048 challenge number, whose factors nobody knows.
pub open spec fn rsa2048_modulus() -> int {
    25195908475657893494027183240048398571429282126204032027777137836043662020707595556264018525880784406918290641249515082189298559149176184502808489120072844992687392807287776735971418347270261896375014971824691165077613379859095700097330459748808428401797429100642458691817195118746121515172654632282216869987549182422433637259085141865462043576798423387184774447920739934236584823824281198163815010674810451660377306056201619676256133844143603833904414952634432190114657544454178424020924616515723350778707749817125772467962926386356373289912154831438167899885040445364023527381951378636564391212010397122822120720357int
}

/// `w` is an inverse of `a` modulo RSA-2048.
pub open spec fn is_inverse(a: int, w: int) -> bool {
    is_inverse_mod(a, w, rsa2048_modulus())
}

/// `a` has an inverse modulo RSA-2048.
pub open spec fn invertible(a: int) -> bool {
    exists|w: int| #[trigger] is_inverse(a, w)
}

/// An inverse of `a` modulo RSA-2048, where it has one.
pub open spec fn inverse(a: int) -> int {
    choose|w: int| #[trigger] is_inverse(a, w)
}

/// `a^e` modulo RSA-2048; for a negative `e`, the inverse of `a` raised to `-e`.
pub open spec fn power_mod(a: int, e: int) -> int {
    if e >= 0 {
        pow(a, e as nat) % rsa2048_modulus()
    } else {
        pow(inverse(a), (-e) as nat) % rsa2048_modulus()
    }
}

/// The integers that denote elements of the group: the units modulo RSA-2048.
pub open spec fn is_unit(v: int) -> bool {
    0 < v < rsa2048_modulus() && invertible(v)
}

/// The modulus, RSA-2048.
pub fn modulus() -> (r: BigInt)
    ensures
        r@ == rsa2048_modulus(),
{
    let base = plus(&from_u64(0xffff_ffff_ffff_ffff), &from_u64(1));
    let mut m = from_u64(0xc7970ceedcc3b075);
    m = plus(&multiply(&m, &base), &from_u64(0x4490201a7aa613cd));
    m = plus(&multiply(&m, &base), &from_u64(0x73911081c790f5f1));
    m = plus(&multiply(&m, &base), &from_u64(0xa8726f463550bb5b));
    m = plus(&multiply(&m, &base), &from_u64(0x7ff0db8e1ea1189e));
    m = plus(&multiply(&m, &base), &from_u64(0xc72f93d1650011bd));
    m = plus(&multiply(&m, &base), &from_u64(0x721aeeacc2acde32));
    m = plus(&multiply(&m, &base), &from_u64(0xa04107f0648c2813));
    m = plus(&multiply(&m, &base), &from_u64(0xa31f5b0b7765ff8b));
    m = plus(&multiply(&m, &base), &from_u64(0x44b4b6ffc93384b6));
    m = plus(&multiply(&m, &base), &from_u64(0x46eb09c7cf5e8592));
    m = plus(&multiply(&m, &base), &from_u64(0xd40ea33c80039f35));
    m = plus(&multiply(&m, &base), &from_u64(0xb4f14a04b51f7bfd));
    m = plus(&multiply(&m, &base), &from_u64(0x781be4d1673164ba));
    m = plus(&multiply(&m, &base), &from_u64(0x8eb991c2c4d730bb));
    m = plus(&multiply(&m, &base), &from_u64(0xbe35f592bdef524a));
    m = plus(&multiply(&m, &base), &from_u64(0xf7e8daefd26c66fc));
    m = plus(&multiply(&m, &base), &from_u64(0x2c479af89d64d37));
    m = plus(&multiply(&m, &base), &from_u64(0x3f442709439de66c));
    m = plus(&multiply(&m, &base), &from_u64(0xeb955f3ea37d5159));
    m = plus(&multiply(&m, &base), &from_u64(0xf6135809f85334b5));
    m = plus(&multiply(&m, &base), &from_u64(0xcb1813addc80cd05));
    m = plus(&multiply(&m, &base), &from_u64(0x609f10ac6a95ad65));
    m = plus(&multiply(&m, &base), &from_u64(0x872c909525bdad32));
    m = plus(&multiply(&m, &base), &from_u64(0xbc729592642920f2));
    m = plus(&multiply(&m, &base), &from_u64(0x4c61dc5b3c3b7923));
    m = plus(&multiply(&m, &base), &from_u64(0xe56b16a4d9d373d8));
    m = plus(&multiply(&m, &base), &from_u64(0x721f24a3fc0f1b31));
    m = plus(&multiply(&m, &base), &from_u64(0x31f55615172866bc));
    m = plus(&multiply(&m, &base), &from_u64(0xcc30f95054c824e7));
    m = plus(&multiply(&m, &base), &from_u64(0x33a5eb6817f7bc16));
    m = plus(&multiply(&m, &base), &from_u64(0x399d48c6361cc7e5));
    m
}

/// The product of two inverses is an inverse of the product.
proof fn lemma_inverse_product(a: int, wa: int, b: int, wb: int)
    requires
        is_inverse(a, wa),
        is_inverse(b, wb),
    ensures
        is_inverse((a * b) % rsa2048_modulus(), wa * wb),
{
    let m = rsa2048_modulus();
    lemma_mul_mod_noop_left(a * b, wa * wb, m);
    assert((a * b) * (wa * wb) == (a * wa) * (b * wb)) by (nonlinear_arith);
    lemma_mul_mod_noop(a * wa, b * wb, m);
}

/// A power of an inverse is an inverse of the power.
proof fn lemma_inverse_power(a: int, w: int, e: nat)
    requires
        is_inverse(a, w),
    ensures
        is_inverse(pow(a, e) % rsa2048_modulus(), pow(w, e)),
{
    let m = rsa2048_modulus();
    lemma_mul_mod_noop_left(pow(a, e), pow(w, e), m);
    lemma_pow_distributes(a, w, e);
    lemma_pow_mod_noop(a * w, e, m);
    lemma1_pow(e);
}

/// A unit is not zero modulo RSA-2048.
proof fn lemma_unit_nonzero(a: int, w: int)
    requires
        is_inverse(a, w),
        0 <= a < rsa2048_modulus(),
    ensures
        a != 0,
{
    if a == 0 {
        assert(0 * w == 0);
    }
}

/// Every power of a unit is a unit.
proof fn lemma_power_unit(a: int, e: int)
    requires
        is_unit(a),
    ensures
        is_unit(power_mod(a, e)),
{
    let m = rsa2048_modulus();
    let w = inverse(a);
    if e >= 0 {
        lemma_inverse_power(a, w, e as nat);
        lemma_unit_nonzero(power_mod(a, e), pow(w, e as nat));
    } else {
        assert(is_inverse(w, a)) by {
            assert(w * a == a * w) by (nonlinear_arith);
        }
        lemma_inverse_power(w, a, (-e) as nat);
        lemma_unit_nonzero(power_mod(a, e), pow(a, (-e) as nat));
    }
}

/// The product of units is a unit.
proof fn lemma_product_unit(a: int, b: int)
    requires
        is_unit(a),
        is_unit(b),
    ensures
        is_unit((a * b) % rsa2048_modulus()),
{
    lemma_inverse_product(a, inverse(a), b, inverse(b));
    lemma_unit_nonzero((a * b) % rsa2048_modulus(), inverse(a) * inverse(b));
}

/// Two inverses of one value agree modulo RSA-2048.
proof fn lemma_inverse_unique(a: int, w1: int, w2: int)
    requires
        is_inverse(a, w1),
        is_inverse(a, w2),
    ensures
        w1 % rsa2048_modulus() == w2 % rsa2048_modulus(),
{
    let m = rsa2048_modulus();
    vstd::arithmetic::div_mod::lemma_mul_mod_noop_right(w1, a * w2, m);
    assert(w1 * (a * w2) == (a * w1) * w2) by (nonlinear_arith);
    lemma_mul_mod_noop_left(a * w1, w2, m);
    assert(w1 * 1 == w1);
    assert(1 * w2 == w2);
}

/// A unit times its inverse, raised to any power, is one modulo RSA-2048.
proof fn lemma_cancel_power(a: int, w: int, k: nat)
    requires
        is_inverse(a, w),
    ensures
        pow(a * w, k) % rsa2048_modulus() == 1,
{
    let m = rsa2048_modulus();
    lemma_pow_mod_noop(a * w, k, m);
    lemma1_pow(k);
}

/// `x` copies of `a` and `k` copies of its inverse `w` leave `x - k`
/// copies of `a`, or `k - x` copies of `w`.
proof fn lemma_power_cancel(a: int, w: int, x: nat, k: nat)
    requires
        is_inverse(a, w),
    ensures
        x >= k ==> (pow(a, x) * pow(w, k)) % rsa2048_modulus() == pow(a, (x - k) as nat)
            % rsa2048_modulus(),
        x < k ==> (pow(a, x) * pow(w, k)) % rsa2048_modulus() == pow(w, (k - x) as nat)
            % rsa2048_modulus(),
{
    let m = rsa2048_modulus();
    if x >= k {
        let d = (x - k) as nat;
        lemma_pow_adds(a, d, k);
        lemma_pow_distributes(a, w, k);
        assert(pow(a, x) * pow(w, k) == pow(a, d) * pow(a * w, k)) by (nonlinear_arith)
            requires
                pow(a, x) == pow(a, d) * pow(a, k),
                pow(a * w, k) == pow(a, k) * pow(w, k),
        ;
        vstd::arithmetic::div_mod::lemma_mul_mod_noop_right(pow(a, d), pow(a * w, k), m);
        lemma_cancel_power(a, w, k);
        assert(pow(a, d) * 1 == pow(a, d));
    } else {
        let d = (k - x) as nat;
        lemma_pow_adds(w, d, x);
        lemma_pow_distributes(a, w, x);
        assert(pow(a, x) * pow(w, k) == pow(w, d) * pow(a * w, x)) by (nonlinear_arith)
            requires
                pow(w, k) == pow(w, d) * pow(w, x),
                pow(a * w, x) == pow(a, x) * pow(w, x),
        ;
        vstd::arithmetic::div_mod::lemma_mul_mod_noop_right(pow(w, d), pow(a * w, x), m);
        lemma_cancel_power(a, w, x);
        assert(pow(w, d) * 1 == pow(w, d));
    }
}

/// Powers of a unit add, for exponents of any sign.
proof fn lemma_power_mod_add(a: int, x: int, y: int)
    requires
        is_unit(a),
    ensures
        (power_mod(a, x) * power_mod(a, y)) % rsa2048_modulus() == power_mod(a, x + y),
{
    let m = rsa2048_modulus();
    let w = inverse(a);
    assert(is_inverse(a, w));
    assert(is_inverse(w, a)) by {
        assert(w * a == a * w) by (nonlinear_arith);
    }
    if x >= 0 && y >= 0 {
        lemma_mul_mod_noop(pow(a, x as nat), pow(a, y as nat), m);
        lemma_pow_adds(a, x as nat, y as nat);
    } else if x < 0 && y < 0 {
        lemma_mul_mod_noop(pow(w, (-x) as nat), pow(w, (-y) as nat), m);
        lemma_pow_adds(w, (-x) as nat, (-y) as nat);
    } else if x >= 0 {
        lemma_mul_mod_noop(pow(a, x as nat), pow(w, (-y) as nat), m);
        lemma_power_cancel(a, w, x as nat, (-y) as nat);
    } else {
        lemma_mul_mod_noop(pow(w, (-x) as nat), pow(a, y as nat), m);
        lemma_power_cancel(a, w, y as nat, (-x) as nat);
        assert(pow(w, (-x) as nat) * pow(a, y as nat) == pow(a, y as nat) * pow(w, (-x) as nat))
            by (nonlinear_arith);
    }
}

/// A power of a power of a unit, by a count.
proof fn lemma_power_mod_power_count(a: int, x: int, k: nat)
    requires
        is_unit(a),
    ensures
        power_mod(power_mod(a, x), k as int) == power_mod(a, x * k),
    decreases k,
{
    let m = rsa2048_modulus();
    let b = power_mod(a, x);
    if k == 0 {
        lemma_pow0(b);
        lemma_pow0(a);
        assert(x * 0 == 0);
    } else {
        lemma_power_mod_power_count(a, x, (k - 1) as nat);
        assert(pow(b, k) == b * pow(b, (k - 1) as nat)) by {
            reveal(pow);
        }
        vstd::arithmetic::div_mod::lemma_mul_mod_noop_right(b, pow(b, (k - 1) as nat), m);
        lemma_power_mod_add(a, x, x * (k - 1));
        assert(x + x * (k - 1) == x * k) by (nonlinear_arith);
    }
}

/// Powers of a power of a unit multiply, for exponents of any sign.
proof fn lemma_power_mod_power(a: int, x: int, y: int)
    requires
        is_unit(a),
    ensures
        power_mod(power_mod(a, x), y) == power_mod(a, x * y),
{
    let m = rsa2048_modulus();
    if y >= 0 {
        lemma_power_mod_power_count(a, x, y as nat);
    } else {
        let b = power_mod(a, x);
        let c = power_mod(a, -x);
        let k = (-y) as nat;
        lemma_power_unit(a, x);
        lemma_power_mod_add(a, x, -x);
        lemma_pow0(a);
        assert(is_inverse(b, c));
        assert(is_inverse(b, inverse(b)));
        lemma_inverse_unique(b, inverse(b), c);
        lemma_pow_mod_noop(inverse(b), k, m);
        lemma_pow_mod_noop(c, k, m);
        lemma_power_mod_power_count(a, -x, k);
        assert(-x * k == x * y) by (nonlinear_arith)
            requires
                k == -y,
        ;
    }
}

/// A power of a product of units is the product of the powers, for
/// exponents of any sign.
proof fn lemma_power_mod_distributes(a: int, b: int, e: int)
    requires
        is_unit(a),
        is_unit(b),
    ensures
        power_mod((a * b) % rsa2048_modulus(), e) == (power_mod(a, e) * power_mod(b, e))
            % rsa2048_modulus(),
{
    let m = rsa2048_modulus();
    if e >= 0 {
        lemma_pow_mod_noop(a * b, e as nat, m);
        lemma_pow_distributes(a, b, e as nat);
        lemma_mul_mod_noop(pow(a, e as nat), pow(b, e as nat), m);
    } else {
        let k = (-e) as nat;
        let wa = inverse(a);
        let wb = inverse(b);
        let ab = (a * b) % m;
        lemma_product_unit(a, b);
        lemma_inverse_product(a, wa, b, wb);
        assert(is_inverse(ab, inverse(ab)));
        lemma_inverse_unique(ab, inverse(ab), wa * wb);
        lemma_pow_mod_noop(inverse(ab), k, m);
        lemma_pow_mod_noop(wa * wb, k, m);
        lemma_pow_distributes(wa, wb, k);
        lemma_mul_mod_noop(pow(wa, k), pow(wb, k), m);
    }
}

/// The multiplicative group of integers mod RSA-2048.
///
/// A couple of false positives (not co-prime with the modulus), but hitting
/// them implies that we've factored RSA-2048.
#[derive(Debug, PartialEq, Eq, Hash)]
pub struct Rsa2048Group {
    value: BigInt,
}

impl Rsa2048Group {
    #[verifier::type_invariant]
    closed spec fn unit(&self) -> bool {
        is_unit(self.value@)
    }

    /// `value` if it is a unit modulo RSA-2048 in `1..RSA-2048`.
    pub fn try_from(value: BigInt) -> (r: Result<Self, ()>)
        ensures
            r is Ok <==> is_unit(value@),
            r matches Ok(g) ==> g.value() == value@,
    {
        let m = modulus();
        let zero = from_u64(0);
        if !less_than(&zero, &value) || !less_than(&value, &m) {
            return Err(());
        }
        let (g, s, t) = extended_gcd(&value, &m);
        let one = from_u64(1);
        if !crate::bigint::equals(&g, &one) {
            proof {
                lemma_no_inverse(value@, g@);
            }
            return Err(());
        }
        proof {
            lemma_bezout_inverse(value@, s@, t@);
        }
        Ok(Rsa2048Group { value })
    }

    /// The integer this element denotes.
    pub fn inner(&self) -> (r: &BigInt)
        ensures
            r@ == self.value(),
    {
        &self.value
    }
}

/// Bézout coefficients of a value and the modulus give an inverse.
proof fn lemma_bezout_inverse(v: int, s: int, t: int)
    requires
        v * s + rsa2048_modulus() * t == 1,
    ensures
        is_inverse(v, s),
{
    let m = rsa2048_modulus();
    assert(v * s == 1 + m * (-t)) by (nonlinear_arith)
        requires
            v * s + m * t == 1,
    ;
    vstd::arithmetic::div_mod::lemma_mod_multiples_vanish(-t, 1, m);
}

/// A common divisor other than one rules out an inverse.
proof fn lemma_no_inverse(v: int, g: int)
    requires
        g >= 0,
        g != 1,
        crate::bigint::divides(g, v),
        crate::bigint::divides(g, rsa2048_modulus()),
    ensures
        !invertible(v),
{
    let m = rsa2048_modulus();
    if invertible(v) {
        let w = inverse(v);
        assert(is_inverse(v, w));
        if g == 0 {
            assert(v == 0);
            assert(m == 0);
        } else {
            let k = (v * w) / m;
            vstd::arithmetic::div_mod::lemma_fundamental_div_mod(v * w, m);
            assert(v * w == m * k + 1);
            let a = v / g;
            let b = m / g;
            vstd::arithmetic::div_mod::lemma_fundamental_div_mod(v, g);
            vstd::arithmetic::div_mod::lemma_fundamental_div_mod(m, g);
            assert(g * (a * w - b * k) == 1) by (nonlinear_arith)
                requires
                    v == g * a,
                    m == g * b,
                    v * w == m * k + 1,
            ;
            assert(false) by (nonlinear_arith)
                requires
                    g * (a * w - b * k) == 1,
                    g >= 2,
            ;
        }
    }
}

impl Clone for Rsa2048Group {
    fn clone(&self) -> (r: Self)
        ensures
            r.value() == self.value(),
    {
        proof {
            use_type_invariant(self);
        }
        Rsa2048Group { value: self.value.clone() }
    }
}

impl Default for Rsa2048Group {
    fn default() -> (r: Self)
        ensures
            r.value() == 65337,
    {
        Self::one()
    }
}

impl DataSized for Rsa2048Group {
    open spec fn spec_size(&self) -> nat {
        self.size_of_value()
    }

    fn size(&self) -> (r: Information) {
        self.value.size()
    }
}

impl Rsa2048Group {
    /// The number of bytes of the integer this element denotes.
    pub closed spec fn size_of_value(&self) -> nat {
        self.value.spec_size()
    }
}

impl Group for Rsa2048Group {
    closed spec fn value(&self) -> int {
        self.value@
    }

    open spec fn is_element(v: int) -> bool {
        is_unit(v)
    }

    open spec fn spec_add(a: int, b: int) -> int {
        (a * b) % rsa2048_modulus()
    }

    open spec fn spec_mul(a: int, e: int) -> int {
        power_mod(a, e)
    }

    open spec fn spec_zero() -> int {
        1
    }

    open spec fn spec_one() -> int {
        65337
    }

    open spec fn spec_max_value() -> int {
        rsa2048_modulus() - 1
    }

    open spec fn spec_byte_len() -> nat {
        256
    }

    open spec fn spec_debug(v: int) -> Seq<u8> {
        "Rsa2048Group { value: ".spec_bytes() + decimal_int(v) + " }".spec_bytes()
    }

    proof fn lemma_add_commutative(a: int, b: int) {
        assert(a * b == b * a) by (nonlinear_arith);
    }

    proof fn lemma_add_associative(a: int, b: int, c: int) {
        let m = rsa2048_modulus();
        lemma_mul_mod_noop_left(a * b, c, m);
        vstd::arithmetic::div_mod::lemma_mul_mod_noop_right(a, b * c, m);
        assert((a * b) * c == a * (b * c)) by (nonlinear_arith);
    }

    proof fn lemma_zero_identity(a: int) {
        vstd::arithmetic::div_mod::lemma_small_mod(a as nat, rsa2048_modulus() as nat);
    }

    proof fn lemma_closed(a: int, b: int, e: int) {
        lemma_product_unit(a, b);
        lemma_power_unit(a, e);
    }

    proof fn lemma_constants() {
        let m = rsa2048_modulus();
        let s = 12374481642490260408801112432311141646518729573561093771359881476358037108873778009473286047369614320118784584340506749198347053959286691836335026208335514684946443022989385305119409268034275127305781646400699677000406136588740253155535716713034171434030912077544360116958568256354658054400650695552352528292245828776244287096236177316387521868709683763738344693807928489978385454056619669832999064504706255006043243094073094476198525780564214815895415636088070994208323705465358547965279244828704204403905183646046633802048798457409885095734287408145757683080200542591275249401708645776033713663042405272268990492302int;
        assert(65337 * s == 1 + 32089 * m);
        vstd::arithmetic::div_mod::lemma_mod_multiples_vanish(32089, 1, m);
        assert(is_inverse(65337, s));
        assert(is_inverse(1, 1));
        assert((m - 1) * (m - 1) == 1 + (m - 2) * m) by (nonlinear_arith);
        vstd::arithmetic::div_mod::lemma_mod_multiples_vanish(m - 2, 1, m);
        assert(is_inverse(m - 1, m - 1));
    }

    proof fn lemma_mul_basics(a: int) {
        lemma_pow0(a);
        lemma_pow1(a);
        vstd::arithmetic::div_mod::lemma_small_mod(a as nat, rsa2048_modulus() as nat);
    }

    proof fn lemma_mul_mul(a: int, x: int, y: int) {
        lemma_power_mod_power(a, x, y);
    }

    proof fn lemma_mul_add(a: int, x: int, y: int) {
        lemma_power_mod_add(a, x, y);
    }

    proof fn lemma_mul_distributes(a: int, b: int, e: int) {
        lemma_power_mod_distributes(a, b, e);
    }

    proof fn lemma_byte_len_bound() {
    }

    fn zero() -> (r: Self) {
        proof {
            Self::lemma_constants();
        }
        Rsa2048Group { value: from_u64(1) }
    }

    fn one() -> (r: Self) {
        proof {
            Self::lemma_constants();
        }
        Rsa2048Group { value: from_u64(65337) }
    }

    fn max_value() -> (r: Self) {
        proof {
            Self::lemma_constants();
        }
        Rsa2048Group { value: minus(&modulus(), &from_u64(1)) }
    }

    fn bytes() -> (r: usize) {
        256
    }

    fn add(&self, rhs: &Self) -> (r: Self) {
        proof {
            use_type_invariant(self);
            use_type_invariant(rhs);
            lemma_product_unit(self.value@, rhs.value@);
        }
        let product = multiply(&self.value, &rhs.value);
        let (_, value) = div_rem(&product, &modulus());
        proof {
            lemma_trunc_rem_nonneg(product@, rsa2048_modulus());
        }
        Rsa2048Group { value }
    }

    fn mul(&self, e: &BigInt) -> (r: Self) {
        proof {
            use_type_invariant(self);
            lemma_power_unit(self.value@, e@);
            assert(is_inverse_mod(self.value@, inverse(self.value@), rsa2048_modulus()));
        }
        let value = pow_mod(&self.value, e, &modulus());
        proof {
            if e@ < 0 {
                assert(is_inverse_mod(self.value@, inverse(self.value@), rsa2048_modulus()));
            }
        }
        Rsa2048Group { value }
    }

    fn equals(&self, other: &Self) -> (r: bool) {
        crate::bigint::equals(&self.value, &other.value)
    }

    fn from_integer(v: BigInt) -> (r: Option<Self>) {
        match Self::try_from(v) {
            Ok(g) => Some(g),
            Err(_) => None,
        }
    }

    fn write_debug(&self, out: &mut Vec<u8>) {
        append_bytes(out, "Rsa2048Group { value: ".as_bytes());
        let digits = self.value.to_decimal();
        append_bytes(out, digits.as_slice());
        append_bytes(out, " }".as_bytes());
    }

    fn duplicate(&self) -> (r: Self) {
        proof {
            use_type_invariant(self);
        }
        self.clone()
    }
}

/// For a non-negative dividend and a positive divisor, the truncating
/// remainder is the Euclidean one.
proof fn lemma_trunc_rem_nonneg(a: int, b: int)
    requires
        a >= 0,
        b > 0,
    ensures
        trunc_rem(a, b) == a % b,
{
    vstd::arithmetic::div_mod::lemma_fundamental_div_mod(a, b);
}

impl AdaptiveRootAssumption for Rsa2048Group {

}

} // verus!
