//! Multiplicative subgroups of the field whose size is a power of two.
use crate::field::{
    add_f, inv_f, lemma_mul_f_comm, lemma_mul_f_one, lemma_pow_f_mul, mul_f, pow_f, sub_f, Fp,
    GENERATOR, P, TWO_ADICITY,
};
use vstd::arithmetic::div_mod::*;
use vstd::arithmetic::mul::*;
use vstd::arithmetic::power2::*;
use vstd::prelude::*;

verus! {

/// The subgroup generated by an element of order `size`, enumerated as `g^0, g^1, ..., g^(size-1)`.
#[derive(Clone, Copy, Debug)]
pub struct EvaluationDomain {
    pub size: u64,
    pub log_size: u64,
    pub generator: Fp,
    pub generator_inv: Fp,
    pub size_as_field_element: Fp,
    pub size_inv: Fp,
}

/// `c[j] + x * (c[j + 1] + x * (...))`: the polynomial with coefficients `c[j..]` at `x`,
/// divided by `x^j`.
pub open spec fn eval_from(c: Seq<Fp>, j: int, x: int) -> int
    decreases c.len() - j,
{
    if j < 0 || j >= c.len() {
        0
    } else {
        add_f(c[j]@, mul_f(x, eval_from(c, j + 1, x)))
    }
}

/// The polynomial with coefficients `c` (lowest degree first) evaluated at `x`.
pub open spec fn poly_eval(c: Seq<Fp>, x: int) -> int {
    eval_from(c, 0, x)
}

impl EvaluationDomain {
    /// `evals` lists the values of the polynomial with coefficients `coeffs` at the
    /// domain's elements, in canonical order.
    pub open spec fn is_evaluation_of(&self, coeffs: Seq<Fp>, evals: Seq<Fp>) -> bool {
        &&& evals.len() == self.size
        &&& forall|i: int|
            0 <= i < self.size ==> #[trigger] evals[i]@ == poly_eval(coeffs, self.element_spec(i))
    }

    /// `coeffs` is the inverse transform of `evals`: `c[j] = (1/n) * sum_i evals[i] * g^(-i*j)`.
    pub open spec fn is_interpolation_of(&self, evals: Seq<Fp>, coeffs: Seq<Fp>) -> bool {
        &&& coeffs.len() == self.size
        &&& forall|j: int|
            0 <= j < self.size ==> #[trigger] coeffs[j]@ == mul_f(
                inv_f(self.size as int),
                poly_eval(evals, pow_f(inv_f(self.generator@), j as nat)),
            )
    }

    pub open spec fn wf(&self) -> bool {
        &&& self.log_size <= TWO_ADICITY
        &&& self.size >= 1
        &&& self.size == pow2(self.log_size as nat)
        &&& self.generator@ == pow_f(GENERATOR as int, ((P - 1) as int / self.size as int) as nat)
        &&& self.generator_inv@ == inv_f(self.generator@)
        &&& self.size_as_field_element@ == self.size
        &&& self.size_inv@ == inv_f(self.size as int)
    }

    /// The `i`-th element in canonical order.
    pub open spec fn element_spec(&self, i: int) -> int {
        pow_f(self.generator@, i as nat)
    }

    /// The smallest domain with at least `num_coeffs` elements; none where that exceeds `2^27`.
    pub fn new(num_coeffs: u64) -> (r: Option<EvaluationDomain>)
        ensures
            r.is_some() == (num_coeffs <= pow2(TWO_ADICITY as nat)),
            r matches Some(d) ==> {
                &&& d.wf()
                &&& d.size >= num_coeffs
                &&& (d.size == 1 || d.size < 2 * num_coeffs)
            },
    {
        let mut size: u64 = 1;
        let mut log_size: u64 = 0;
        proof {
            lemma2_to64();
            lemma_pow2_strictly_increases(0, TWO_ADICITY as nat);
        }
        while size < num_coeffs
            invariant
                log_size <= TWO_ADICITY,
                size == pow2(log_size as nat),
                size == 1 || size < 2 * num_coeffs,
                pow2(TWO_ADICITY as nat) == 0x800_0000,
            decreases TWO_ADICITY - log_size,
        {
            if log_size == TWO_ADICITY {
                return None;
            }
            proof {
                lemma_pow2_adds(log_size as nat, 1);
                lemma2_to64();
                if log_size + 1 < TWO_ADICITY {
                    lemma_pow2_strictly_increases((log_size + 1) as nat, TWO_ADICITY as nat);
                }
            }
            size = size * 2;
            log_size = log_size + 1;
        }
        proof {
            if log_size < TWO_ADICITY {
                lemma_pow2_strictly_increases(log_size as nat, TWO_ADICITY as nat);
            }
        }
        let g = Fp::from_u64(GENERATOR).pow((P - 1) / size);
        proof {
            lemma_small_mod(GENERATOR as nat, P as nat);
        }
        let n = Fp::from_u64(size);
        proof {
            lemma_small_mod(size as nat, P as nat);
        }
        Some(
            EvaluationDomain {
                size,
                log_size,
                generator: g,
                generator_inv: g.inverse(),
                size_as_field_element: n,
                size_inv: n.inverse(),
            },
        )
    }

    pub fn size(&self) -> (r: usize)
        requires
            self.wf(),
        ensures
            r == self.size,
    {
        proof {
            lemma2_to64();
            if self.log_size < TWO_ADICITY {
                lemma_pow2_strictly_increases(self.log_size as nat, TWO_ADICITY as nat);
            }
        }
        self.size as usize
    }

    /// The elements in canonical order: `g^0, g^1, ..., g^(size-1)`.
    pub fn elements(&self) -> (r: Vec<Fp>)
        requires
            self.wf(),
        ensures
            r@.len() == self.size,
            forall|i: int| 0 <= i < self.size ==> #[trigger] r@[i]@ == self.element_spec(i),
    {
        let n = self.size();
        let mut r: Vec<Fp> = Vec::new();
        let mut cur = Fp::one();
        let mut i: usize = 0;
        while i < n
            invariant
                n == self.size,
                i <= n,
                r@.len() == i,
                cur@ == self.element_spec(i as int),
                forall|j: int| 0 <= j < i ==> #[trigger] r@[j]@ == self.element_spec(j),
            decreases n - i,
        {
            r.push(cur);
            proof {
                lemma_mul_f_comm(self.generator@, cur@);
            }
            cur = cur.mul(&self.generator);
            i = i + 1;
        }
        r
    }

    /// `x^size - 1`, which vanishes exactly on the domain.
    pub fn evaluate_vanishing_polynomial(&self, x: &Fp) -> (r: Fp)
        requires
            self.wf(),
        ensures
            r@ == sub_f(pow_f(x@, self.size as nat), 1),
    {
        x.pow(self.size).sub(&Fp::one())
    }

    /// Position in this domain's canonical order of the element at `index` of `other`'s,
    /// where `other` is a subgroup of this domain. The elements of `other` come first, in
    /// its own order, then the others in this domain's order.
    pub fn reindex_by_subdomain(&self, other: &EvaluationDomain, index: usize) -> (r: usize)
        requires
            self.wf(),
            other.wf(),
            other.size <= self.size,
            index < self.size,
        ensures
            r == reindex_spec(self.size as int, other.size as int, index as int),
            r < self.size,
    {
        proof {
            lemma_subdomain_divides(self, other);
        }
        let period = self.size() / other.size();
        proof {
            assert(period >= 1) by (nonlinear_arith)
                requires
                    self.size == other.size * period,
                    self.size >= 1,
                    other.size >= 1,
            ;
        }
        if index < other.size() {
            proof {
                lemma_mul_strict_inequality(index as int, other.size as int, period as int);
                lemma_mul_is_commutative(other.size as int, period as int);
            }
            index * period
        } else {
            let i = index - other.size();
            let x = period - 1;
            proof {
                let gs = self.size as int;
                let ss = other.size as int;
                assert(gs - ss == ss * x) by (nonlinear_arith)
                    requires
                        gs == ss * period,
                        x == period - 1,
                ;
                assert(x > 0) by (nonlinear_arith)
                    requires
                        gs == ss * period,
                        ss <= index < gs,
                        x == period - 1,
                ;
                lemma_div_is_ordered(i as int, ss * x - 1, x as int);
                lemma_div_multiples_vanish_fancy(ss - 1, x - 1, x as int);
                assert(ss * x - 1 == x * (ss - 1) + (x - 1)) by (nonlinear_arith);
            }
            i + (i / x) + 1
        }
    }
}

pub open spec fn reindex_spec(big: int, small: int, index: int) -> int {
    let period = big / small;
    if index < small {
        index * period
    } else {
        let i = index - small;
        i + i / (period - 1) + 1
    }
}

proof fn lemma_subdomain_divides(big: &EvaluationDomain, small: &EvaluationDomain)
    requires
        big.wf(),
        small.wf(),
        small.size <= big.size,
    ensures
        big.size == small.size * (big.size / small.size),
        small.size > 0,
{
    lemma_pow2_pos(small.log_size as nat);
    if big.log_size < small.log_size {
        lemma_pow2_strictly_increases(big.log_size as nat, small.log_size as nat);
    }
    let d = (big.log_size - small.log_size) as nat;
    lemma_pow2_adds(small.log_size as nat, d);
    lemma_div_multiples_vanish(pow2(d) as int, small.size as int);
}


/// `GENERATOR^(15 * 2^k)` modulo `P`, for `k <= 27`.
spec fn generator_power_chain(k: nat) -> int {
    if k == 0 {
        440564289
    } else if k == 1 {
        975630072
    } else if k == 2 {
        1149491290
    } else if k == 3 {
        1003846038
    } else if k == 4 {
        1267047229
    } else if k == 5 {
        570250684
    } else if k == 6 {
        414040701
    } else if k == 7 {
        195061667
    } else if k == 8 {
        1049899240
    } else if k == 9 {
        1559589183
    } else if k == 10 {
        1286330022
    } else if k == 11 {
        1421947380
    } else if k == 12 {
        2009781145
    } else if k == 13 {
        1657000625
    } else if k == 14 {
        298008106
    } else if k == 15 {
        1282623253
    } else if k == 16 {
        1340477990
    } else if k == 17 {
        341742893
    } else if k == 18 {
        1753498361
    } else if k == 19 {
        1732600167
    } else if k == 20 {
        397765732
    } else if k == 21 {
        1721589904
    } else if k == 22 {
        760005850
    } else if k == 23 {
        196396260
    } else if k == 24 {
        1592366214
    } else if k == 25 {
        1728404513
    } else if k == 26 {
        2013265920
    } else {
        1
    }
}

proof fn lemma_chain_step(k: nat)
    requires
        k < 27,
    ensures
        mul_f(generator_power_chain(k), generator_power_chain(k)) == generator_power_chain(k + 1),
{
}

proof fn lemma_chain(k: nat)
    requires
        k <= 27,
    ensures
        pow_f(GENERATOR as int, 15 * pow2(k)) == generator_power_chain(k),
    decreases k,
{
    if k == 0 {
        lemma2_to64();
        lemma_generator_pow_15();
    } else {
        lemma_chain((k - 1) as nat);
        lemma_pow2_adds((k - 1) as nat, 1);
        lemma2_to64();
        assert(15 * pow2(k) == (15 * pow2((k - 1) as nat)) * 2) by (nonlinear_arith)
            requires
                pow2(k) == pow2((k - 1) as nat) * 2,
        ;
        lemma_pow_f_mul(GENERATOR as int, 15 * pow2((k - 1) as nat), 2);
        let c = generator_power_chain((k - 1) as nat);
        lemma_pow_f_square(c);
        lemma_chain_step((k - 1) as nat);
    }
}

proof fn lemma_generator_pow_15()
    ensures
        pow_f(GENERATOR as int, 15) == 440564289,
{
    reveal_with_fuel(pow_f, 2);
    assert(pow_f(GENERATOR as int, 1) == 31);
    assert(pow_f(GENERATOR as int, 2) == 961);
    assert(pow_f(GENERATOR as int, 3) == 29791);
    assert(pow_f(GENERATOR as int, 4) == 923521);
    assert(pow_f(GENERATOR as int, 5) == 28629151);
    assert(pow_f(GENERATOR as int, 6) == 887503681);
    assert(pow_f(GENERATOR as int, 7) == 1340157138);
    assert(pow_f(GENERATOR as int, 8) == 1279552858);
    assert(pow_f(GENERATOR as int, 9) == 1414086099);
    assert(pow_f(GENERATOR as int, 10) == 1558084728);
    assert(pow_f(GENERATOR as int, 11) == 1995510385);
    assert(pow_f(GENERATOR as int, 12) == 1462844305);
    assert(pow_f(GENERATOR as int, 13) == 1056323193);
    assert(pow_f(GENERATOR as int, 14) == 533764247);
    assert(pow_f(GENERATOR as int, 15) == 440564289);
}

proof fn lemma_pow_f_square(c: int)
    requires
        0 <= c < P,
    ensures
        pow_f(c, 2) == mul_f(c, c),
{
    reveal_with_fuel(pow_f, 3);
    lemma_mul_f_one(c);
}

/// `GENERATOR^(P-1) = 1`.
pub proof fn lemma_generator_order()
    ensures
        pow_f(GENERATOR as int, (P - 1) as nat) == 1,
{
    lemma_chain(27);
    lemma2_to64();
}

/// The generator of a domain of size `n` has `g^n = 1`.
pub proof fn lemma_domain_generator_order(d: &EvaluationDomain)
    requires
        d.wf(),
    ensures
        pow_f(d.generator@, d.size as nat) == 1,
{
    lemma_generator_order();
    lemma2_to64();
    let k = d.log_size as nat;
    let rest = (27 - k) as nat;
    lemma_pow2_adds(k, rest);
    lemma_pow2_pos(k);
    let q = 15 * pow2(rest);
    assert((P - 1) as int == q * d.size) by (nonlinear_arith)
        requires
            pow2(27) == pow2(k) * pow2(rest),
            pow2(27) == 0x800_0000,
            d.size == pow2(k),
            q == 15 * pow2(rest),
    ;
    lemma_div_multiples_vanish(q as int, d.size as int);
    lemma_mul_is_commutative(q as int, d.size as int);
    lemma_pow_f_mul(GENERATOR as int, q, d.size as nat);
}

/// The polynomial with coefficients `c` at `x`, by Horner's rule.
pub fn evaluate_polynomial(c: &Vec<Fp>, x: &Fp) -> (r: Fp)
    ensures
        r@ == poly_eval(c@, x@),
{
    let mut acc = Fp::zero();
    let mut j: usize = c.len();
    while j > 0
        invariant
            j <= c@.len(),
            acc@ == eval_from(c@, j as int, x@),
        decreases j,
    {
        j = j - 1;
        acc = c[j].add(&x.mul(&acc));
    }
    acc
}

impl EvaluationDomain {
    /// Evaluations of the polynomial with coefficients `coeffs` at the domain's elements,
    /// in canonical order.
    pub fn fft(&self, coeffs: &Vec<Fp>) -> (r: Vec<Fp>)
        requires
            self.wf(),
            coeffs@.len() <= self.size,
        ensures
            self.is_evaluation_of(coeffs@, r@),
    {
        let n = self.size();
        let mut r: Vec<Fp> = Vec::new();
        let mut cur = Fp::one();
        let mut i: usize = 0;
        while i < n
            invariant
                n == self.size,
                i <= n,
                r@.len() == i,
                cur@ == self.element_spec(i as int),
                forall|j: int|
                    0 <= j < i ==> #[trigger] r@[j]@ == poly_eval(coeffs@, self.element_spec(j)),
            decreases n - i,
        {
            r.push(evaluate_polynomial(coeffs, &cur));
            proof {
                lemma_mul_f_comm(self.generator@, cur@);
            }
            cur = cur.mul(&self.generator);
            i = i + 1;
        }
        r
    }

    /// The coefficients of the inverse transform of `evals`:
    /// `c[j] = (1/n) * sum_i evals[i] * g^(-i*j)`.
    pub fn interpolate(&self, evals: &Vec<Fp>) -> (r: Vec<Fp>)
        requires
            self.wf(),
            evals@.len() == self.size,
        ensures
            self.is_interpolation_of(evals@, r@),
    {
        let n = self.size();
        let mut r: Vec<Fp> = Vec::new();
        let mut w = Fp::one();
        let mut j: usize = 0;
        while j < n
            invariant
                n == self.size,
                self.wf(),
                j <= n,
                r@.len() == j,
                w@ == pow_f(inv_f(self.generator@), j as nat),
                forall|k: int|
                    0 <= k < j ==> #[trigger] r@[k]@ == mul_f(
                        inv_f(self.size as int),
                        poly_eval(evals@, pow_f(inv_f(self.generator@), k as nat)),
                    ),
            decreases n - j,
        {
            let e = evaluate_polynomial(evals, &w);
            proof {
                lemma_mul_f_comm(self.size_inv@, e@);
            }
            r.push(e.mul(&self.size_inv));
            proof {
                lemma_mul_f_comm(self.generator_inv@, w@);
            }
            w = w.mul(&self.generator_inv);
            j = j + 1;
        }
        r
    }
}

} // verus!
