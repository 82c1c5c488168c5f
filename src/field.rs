//! Arithmetic in the prime field of integers modulo `P`.
use vstd::arithmetic::div_mod::*;
use vstd::arithmetic::mul::*;
use vstd::prelude::*;

verus! {

/// The field modulus, `15 * 2^27 + 1`; its multiplicative group has order divisible by `2^27`.
pub const P: u64 = 2013265921;

/// A multiplicative generator of the field's nonzero elements.
pub const GENERATOR: u64 = 31;

/// The largest `k` such that `2^k` divides `P - 1`.
pub const TWO_ADICITY: u64 = 27;

/// A field element. Any `u64` is accepted; the element it stands for is its residue modulo `P`.
/// Every operation returns the canonical representative, below `P`.
#[derive(Clone, Copy, Debug)]
pub struct Fp {
    pub v: u64,
}

impl View for Fp {
    type V = int;

    open spec fn view(&self) -> int {
        (self.v % P) as int
    }
}

pub open spec fn modp(x: int) -> int {
    x % (P as int)
}

pub open spec fn add_f(a: int, b: int) -> int {
    modp(a + b)
}

pub open spec fn sub_f(a: int, b: int) -> int {
    modp(a - b)
}

pub open spec fn mul_f(a: int, b: int) -> int {
    modp(a * b)
}

pub open spec fn pow_f(a: int, e: nat) -> int
    decreases e,
{
    if e == 0 {
        1
    } else {
        mul_f(a, pow_f(a, (e - 1) as nat))
    }
}

/// `a` has a multiplicative inverse modulo `P`.
pub open spec fn is_unit(a: int) -> bool {
    exists|r: int| 0 <= r < P && #[trigger] mul_f(a, r) == 1
}

/// The multiplicative inverse of `a`, or 0 where there is none (as for 0 itself).
pub open spec fn inv_f(a: int) -> int {
    if is_unit(a) {
        choose|r: int| 0 <= r < P && #[trigger] mul_f(a, r) == 1
    } else {
        0
    }
}

pub open spec fn div_f(a: int, b: int) -> int {
    mul_f(a, inv_f(b))
}

pub proof fn lemma_modp_range(x: int)
    ensures
        0 <= modp(x) < P,
{
    lemma_mod_bound(x, P as int);
}

pub proof fn lemma_mul_f_comm(a: int, b: int)
    ensures
        mul_f(a, b) == mul_f(b, a),
{
    lemma_mul_is_commutative(a, b);
}

pub proof fn lemma_mul_f_reduce(a: int, b: int)
    ensures
        mul_f(modp(a), b) == mul_f(a, b),
        mul_f(a, modp(b)) == mul_f(a, b),
{
    lemma_mul_mod_noop_left(a, b, P as int);
    lemma_mul_mod_noop_right(a, b, P as int);
}

pub proof fn lemma_mul_f_assoc(a: int, b: int, c: int)
    ensures
        mul_f(mul_f(a, b), c) == mul_f(a, mul_f(b, c)),
{
    lemma_mul_f_reduce(a * b, c);
    lemma_mul_f_reduce(a, b * c);
    lemma_mul_is_associative(a, b, c);
}

pub proof fn lemma_mul_f_one(a: int)
    requires
        0 <= a < P,
    ensures
        mul_f(a, 1) == a,
        mul_f(1, a) == a,
{
    lemma_small_mod(a as nat, P as nat);
}

pub proof fn lemma_mul_f_zero(a: int)
    ensures
        mul_f(a, 0) == 0,
        mul_f(0, a) == 0,
{
}

pub proof fn lemma_pow_f_range(a: int, e: nat)
    ensures
        0 <= pow_f(a, e) < P,
    decreases e,
{
    if e > 0 {
        lemma_modp_range(a * pow_f(a, (e - 1) as nat));
    }
}

pub proof fn lemma_pow_f_add(a: int, e1: nat, e2: nat)
    ensures
        pow_f(a, e1 + e2) == mul_f(pow_f(a, e1), pow_f(a, e2)),
    decreases e1,
{
    lemma_pow_f_range(a, e2);
    if e1 == 0 {
        lemma_mul_f_one(pow_f(a, e2));
    } else {
        lemma_pow_f_add(a, (e1 - 1) as nat, e2);
        assert((e1 + e2 - 1) as nat == (e1 - 1) as nat + e2);
        lemma_mul_f_assoc(a, pow_f(a, (e1 - 1) as nat), pow_f(a, e2));
    }
}

pub proof fn lemma_pow_f_mul(a: int, e1: nat, e2: nat)
    ensures
        pow_f(a, e1 * e2) == pow_f(pow_f(a, e1), e2),
    decreases e2,
{
    if e2 == 0 {
        assert(e1 * 0 == 0) by (nonlinear_arith);
    } else {
        lemma_pow_f_mul(a, e1, (e2 - 1) as nat);
        assert(e1 * e2 == e1 + e1 * (e2 - 1) as nat) by (nonlinear_arith)
            requires
                e2 > 0,
        ;
        lemma_pow_f_add(a, e1, e1 * (e2 - 1) as nat);
    }
}

/// An inverse modulo `P` is unique.
pub proof fn lemma_inverse_unique(a: int, r: int)
    requires
        0 <= r < P,
        mul_f(a, r) == 1,
    ensures
        is_unit(a),
        inv_f(a) == r,
{
    let s = inv_f(a);
    assert(is_unit(a));
    assert(0 <= s < P && mul_f(a, s) == 1);
    // r = r * (a * s) = (r * a) * s = s
    lemma_mul_f_one(r);
    lemma_mul_f_one(s);
    lemma_mul_f_assoc(r, a, s);
    lemma_mul_f_comm(r, a);
}

proof fn lemma_unit_of_product(a: int, b: int)
    requires
        is_unit(mul_f(a, b)),
    ensures
        is_unit(a),
        inv_f(a) == mul_f(b, inv_f(mul_f(a, b))),
{
    let t = inv_f(mul_f(a, b));
    let r = mul_f(b, t);
    lemma_modp_range(b * t);
    lemma_mul_f_reduce(a, b * t);
    lemma_mul_is_associative(a, b, t);
    lemma_mul_f_reduce(a * b, t);
    lemma_inverse_unique(a, r);
}

proof fn lemma_zero_not_unit()
    ensures
        !is_unit(0),
{
    if is_unit(0) {
        let r = choose|r: int| 0 <= r < P && #[trigger] mul_f(0, r) == 1;
        lemma_mul_f_zero(r);
    }
}

/// The step that keeps `x ≡ s * a (mod P)` through one step of Euclid's algorithm.
proof fn lemma_euclid_step(a: int, r0: int, r1: int, s0: int, s1: int, q: int)
    requires
        mul_f(s0, a) == modp(r0),
        mul_f(s1, a) == modp(r1),
    ensures
        mul_f(s0 - q * s1, a) == modp(r0 - q * r1),
{
    let m = P as int;
    assert((s0 - q * s1) * a == s0 * a - q * (s1 * a)) by (nonlinear_arith);
    lemma_sub_mod_noop(s0 * a, q * (s1 * a), m);
    lemma_mul_mod_noop_right(q, s1 * a, m);
    lemma_mul_mod_noop_right(q, r1, m);
    lemma_sub_mod_noop(r0, q * r1, m);
}

impl Fp {
    pub fn zero() -> (r: Fp)
        ensures
            r@ == 0,
            r.v < P,
    {
        Fp { v: 0 }
    }

    pub fn one() -> (r: Fp)
        ensures
            r@ == 1,
            r.v < P,
    {
        Fp { v: 1 }
    }

    /// The element that the integer `v` stands for.
    pub fn from_u64(v: u64) -> (r: Fp)
        ensures
            r@ == modp(v as int),
            r.v < P,
    {
        Fp { v: v % P }
    }

    /// The canonical representative, below `P`.
    pub fn value(&self) -> (r: u64)
        ensures
            r == self@,
    {
        self.v % P
    }

    /// Field equality: the two values stand for the same residue.
    pub fn equals(&self, other: &Fp) -> (r: bool)
        ensures
            r == (self@ == other@),
    {
        self.v % P == other.v % P
    }

    pub fn is_zero(&self) -> (r: bool)
        ensures
            r == (self@ == 0),
    {
        self.v % P == 0
    }

    pub fn add(&self, other: &Fp) -> (r: Fp)
        ensures
            r@ == add_f(self@, other@),
            r.v < P,
    {
        let a = self.v % P;
        let b = other.v % P;
        proof {
            lemma_add_mod_noop(self.v as int, other.v as int, P as int);
        }
        Fp { v: (a + b) % P }
    }

    pub fn sub(&self, other: &Fp) -> (r: Fp)
        ensures
            r@ == sub_f(self@, other@),
            r.v < P,
    {
        let a = self.v % P;
        let b = other.v % P;
        proof {
            lemma_mod_add_multiples_vanish(a - b, P as int);
        }
        Fp { v: (a + (P - b)) % P }
    }

    pub fn mul(&self, other: &Fp) -> (r: Fp)
        ensures
            r@ == mul_f(self@, other@),
            r.v < P,
    {
        let a = self.v % P;
        let b = other.v % P;
        assert(a * b < P * P) by (nonlinear_arith)
            requires
                a < P,
                b < P,
        ;
        Fp { v: (a * b) % P }
    }

    /// `self` raised to the power `e`, by repeated squaring.
    pub fn pow(&self, e: u64) -> (r: Fp)
        ensures
            r@ == pow_f(self@, e as nat),
            r.v < P,
    {
        let mut base = Fp { v: self.v % P };
        let mut acc = Fp::one();
        let mut k: u64 = e;
        let ghost mut done: nat = 0;
        let ghost mut step: nat = 1;
        proof {
            lemma_pow_f_mul(self@, 1, 1);
            assert(pow_f(self@, 1) == self@) by {
                reveal_with_fuel(pow_f, 2);
                lemma_mul_f_one(self@);
                lemma_modp_range(self.v as int);
            }
        }
        while k > 0
            invariant
                base@ == pow_f(self@, step),
                acc@ == pow_f(self@, done),
                acc.v < P,
                done + step * k == e,
            decreases k,
        {
            let ghost k0 = k;
            let ghost d0 = done;
            let ghost s0 = step;
            if k % 2 == 1 {
                proof {
                    lemma_pow_f_add(self@, done, step);
                }
                acc = acc.mul(&base);
                proof {
                    done = done + step;
                }
            }
            k = k / 2;
            if k > 0 {
                proof {
                    lemma_pow_f_add(self@, step, step);
                }
                base = base.mul(&base);
                proof {
                    step = step + step;
                }
            }
            assert(done + step * k == e) by (nonlinear_arith)
                requires
                    d0 + s0 * k0 == e,
                    k == k0 / 2,
                    done == d0 + (if k0 % 2 == 1 { s0 } else { 0 }),
                    step == (if k > 0 { s0 + s0 } else { s0 }),
            ;
        }
        acc
    }

    /// The multiplicative inverse, by the extended Euclidean algorithm; 0 for the zero element.
    pub fn inverse(&self) -> (r: Fp)
        ensures
            r@ == inv_f(self@),
            r.v < P,
    {
        let a = self.v % P;
        if a == 0 {
            proof {
                lemma_zero_not_unit();
            }
            return Fp::zero();
        }
        let mut r0: u64 = P;
        let mut r1: u64 = a;
        let mut s0: u64 = 0;
        let mut s1: u64 = 1;
        let ghost mut c0: int = 0;
        let ghost mut c1: int = 1;
        let ghost mut e0: int = 1;
        let ghost mut e1: int = 0;
        proof {
            lemma_small_mod(a as nat, P as nat);
            lemma_mul_f_one(a as int);
        }
        while r1 != 0
            invariant
                0 < r0 <= P,
                r1 < r0,
                s0 < P,
                s1 < P,
                mul_f(s0 as int, a as int) == modp(r0 as int),
                mul_f(s1 as int, a as int) == modp(r1 as int),
                a as int == c0 * r0 + c1 * r1,
                P as int == e0 * r0 + e1 * r1,
            decreases r1,
        {
            let q = r0 / r1;
            let rem = r0 % r1;
            assert((q % P) * s1 < P * P) by (nonlinear_arith)
                requires
                    q % P < P,
                    s1 < P,
            ;
            let qs = ((q % P) * s1) % P;
            let ns = (s0 + (P - qs)) % P;
            proof {
                let m = P as int;
                lemma_fundamental_div_mod(r0 as int, r1 as int);
                lemma_euclid_step(a as int, r0 as int, r1 as int, s0 as int, s1 as int, q as int);
                lemma_mul_mod_noop_left(q as int, s1 as int, m);
                lemma_sub_mod_noop_right(s0 as int, q * s1, m);
                lemma_mod_add_multiples_vanish(s0 - qs, m);
                lemma_mul_f_reduce(s0 - q * s1, a as int);
                let nc0 = c0 * q + c1;
                let ne0 = e0 * q + e1;
                assert(a as int == nc0 * r1 + c0 * rem) by (nonlinear_arith)
                    requires
                        a as int == c0 * r0 + c1 * r1,
                        r0 == r1 * q + rem,
                        nc0 == c0 * q + c1,
                ;
                assert(P as int == ne0 * r1 + e0 * rem) by (nonlinear_arith)
                    requires
                        P as int == e0 * r0 + e1 * r1,
                        r0 == r1 * q + rem,
                        ne0 == e0 * q + e1,
                ;
                c1 = c0;
                c0 = nc0;
                e1 = e0;
                e0 = ne0;
            }
            r0 = r1;
            r1 = rem;
            s0 = s1;
            s1 = ns;
        }
        if r0 == 1 {
            proof {
                lemma_mul_f_comm(s0 as int, a as int);
                lemma_inverse_unique(a as int, s0 as int);
            }
            Fp { v: s0 }
        } else {
            proof {
                if is_unit(a as int) {
                    let u = choose|u: int| 0 <= u < P && #[trigger] mul_f(a as int, u) == 1;
                    let k = (a * u) / (P as int);
                    lemma_fundamental_div_mod(a * u, P as int);
                    let m = c0 * u - e0 * k;
                    assert(r0 * m == 1) by (nonlinear_arith)
                        requires
                            a as int == c0 * r0,
                            P as int == e0 * r0,
                            a * u == P * k + 1,
                            m == c0 * u - e0 * k,
                    ;
                    if m >= 1 {
                        assert(r0 * m >= r0 * 1) by (nonlinear_arith)
                            requires
                                m >= 1,
                                r0 > 1,
                        ;
                    } else {
                        assert(r0 * m <= 0) by (nonlinear_arith)
                            requires
                                m <= 0,
                                r0 > 1,
                        ;
                    }
                }
            }
            Fp::zero()
        }
    }
}


pub open spec fn nonzero_or_one(x: int) -> int {
    if x == 0 {
        1
    } else {
        x
    }
}

/// The product of the nonzero elements among the first `i` of `s`.
pub open spec fn prefix_product(s: Seq<Fp>, i: int) -> int
    decreases i,
{
    if i <= 0 {
        1
    } else {
        mul_f(prefix_product(s, i - 1), nonzero_or_one(s[i - 1]@))
    }
}

/// Replaces each element by its inverse (zero stays zero), with a single inversion
/// and a number of multiplications linear in the length.
pub fn batch_inversion(v: &mut Vec<Fp>)
    ensures
        final(v)@.len() == old(v)@.len(),
        forall|i: int| 0 <= i < old(v)@.len() ==> #[trigger] final(v)@[i]@ == inv_f(old(v)@[i]@),
{
    let n = v.len();
    let ghost s = v@;
    let mut prefix: Vec<Fp> = Vec::new();
    let mut acc = Fp::one();
    let mut i: usize = 0;
    while i < n
        invariant
            n == v.len(),
            v@ == s,
            i <= n,
            prefix.len() == i,
            acc@ == prefix_product(s, i as int),
            forall|j: int| 0 <= j < i ==> #[trigger] prefix@[j]@ == prefix_product(s, j),
        decreases n - i,
    {
        prefix.push(acc);
        if !v[i].is_zero() {
            acc = acc.mul(&v[i]);
        } else {
            proof {
                lemma_pow_f_range(prefix_product(s, i as int), 0);
                lemma_prefix_product_range(s, i as int);
                lemma_mul_f_one(prefix_product(s, i as int));
            }
        }
        i = i + 1;
    }
    let mut t = acc.inverse();
    if !t.is_zero() || n == 0 {
        proof {
            lemma_prefix_product_range(s, n as int);
            if n > 0 {
                assert(is_unit(prefix_product(s, n as int)));
            } else {
                lemma_mul_f_one(1);
                lemma_inverse_unique(1, 1);
            }
        }
        let mut i: usize = n;
        while i > 0
            invariant
                n == v.len(),
                n == s.len(),
                i <= n,
                prefix.len() == n,
                forall|j: int| 0 <= j < n ==> #[trigger] prefix@[j]@ == prefix_product(s, j),
                forall|j: int| 0 <= j < i ==> #[trigger] v@[j] == s[j],
                forall|j: int| i <= j < n ==> #[trigger] v@[j]@ == inv_f(s[j]@),
                is_unit(prefix_product(s, i as int)),
                t@ == inv_f(prefix_product(s, i as int)),
            decreases i,
        {
            i = i - 1;
            let x = v[i];
            let ghost pi = prefix_product(s, i as int);
            proof {
                lemma_prefix_product_range(s, i as int);
            }
            if x.is_zero() {
                proof {
                    lemma_mul_f_one(pi);
                    lemma_zero_not_unit();
                }
                v.set(i, Fp::zero());
            } else {
                proof {
                    lemma_mul_f_comm(pi, x@);
                    lemma_unit_of_product(x@, pi);
                    lemma_unit_of_product(pi, x@);
                }
                let r = t.mul(&prefix[i]);
                t = t.mul(&x);
                proof {
                    lemma_mul_f_comm(t@, x@);
                    lemma_mul_f_comm(inv_f(mul_f(pi, x@)), x@);
                    lemma_mul_f_comm(inv_f(mul_f(x@, pi)), pi);
                }
                v.set(i, r);
            }
        }
    } else {
        let mut i: usize = 0;
        while i < n
            invariant
                n == v.len(),
                n == s.len(),
                i <= n,
                forall|j: int| i <= j < n ==> #[trigger] v@[j] == s[j],
                forall|j: int| 0 <= j < i ==> #[trigger] v@[j]@ == inv_f(s[j]@),
            decreases n - i,
        {
            let r = v[i].inverse();
            v.set(i, r);
            i = i + 1;
        }
    }
}

pub proof fn lemma_prefix_product_range(s: Seq<Fp>, i: int)
    ensures
        0 <= prefix_product(s, i) < P,
    decreases i,
{
    if i > 0 {
        lemma_modp_range(prefix_product(s, i - 1) * nonzero_or_one(s[i - 1]@));
    }
}

} // verus!
