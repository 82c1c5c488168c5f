//! The bivariate kernel `u(X, Y) = (v(X) - v(Y)) / (X - Y)` of a domain's vanishing
//! polynomial `v(X) = X^n - 1`, and its evaluations on the domain.
use crate::domain::{lemma_domain_generator_order, EvaluationDomain};
use crate::field::{
    batch_inversion, div_f, inv_f, is_unit, lemma_inverse_unique, lemma_modp_range,
    lemma_mul_f_comm, lemma_mul_f_one, lemma_pow_f_add, lemma_pow_f_mul, lemma_pow_f_range,
    modp, mul_f, pow_f, sub_f, Fp, P,
};
use vstd::arithmetic::div_mod::*;
use vstd::arithmetic::mul::*;
use vstd::prelude::*;

verus! {

/// `x^n - 1`.
pub open spec fn vanishing(n: nat, x: int) -> int {
    sub_f(pow_f(x, n), 1)
}

/// `u(x, y)` for a domain of size `n`: the difference quotient of the vanishing polynomial
/// off the diagonal, its derivative `n * x^(n-1)` on it.
pub open spec fn kernel(n: nat, x: int, y: int) -> int {
    if x != y {
        div_f(sub_f(vanishing(n, x), vanishing(n, y)), sub_f(x, y))
    } else {
        mul_f(n as int, pow_f(x, (n - 1) as nat))
    }
}

impl EvaluationDomain {
    /// `u(x, y)`, straight from its definition.
    pub fn bivariate_eval(&self, x: &Fp, y: &Fp) -> (r: Fp)
        requires
            self.wf(),
        ensures
            r@ == kernel(self.size as nat, x@, y@),
    {
        if !x.equals(y) {
            let num = self.evaluate_vanishing_polynomial(x).sub(&self.evaluate_vanishing_polynomial(y));
            let den = x.sub(y);
            num.mul(&den.inverse())
        } else {
            self.size_as_field_element.mul(&x.pow(self.size - 1))
        }
    }

    /// `v(x) / (x - h)` for every element `h` of the domain, in canonical order, with all
    /// the denominators inverted together.
    pub fn batch_evals(&self, x: &Fp) -> (r: Vec<Fp>)
        requires
            self.wf(),
        ensures
            r@.len() == self.size,
            forall|i: int|
                0 <= i < self.size ==> #[trigger] r@[i]@ == mul_f(
                    vanishing(self.size as nat, x@),
                    inv_f(sub_f(x@, self.element_spec(i))),
                ),
    {
        let v_x = self.evaluate_vanishing_polynomial(x);
        let elements = self.elements();
        let n = elements.len();
        let mut denoms: Vec<Fp> = Vec::new();
        let mut i: usize = 0;
        while i < n
            invariant
                n == elements@.len(),
                n == self.size,
                i <= n,
                denoms@.len() == i,
                forall|j: int|
                    0 <= j < self.size ==> #[trigger] elements@[j]@ == self.element_spec(j),
                forall|j: int|
                    0 <= j < i ==> #[trigger] denoms@[j]@ == sub_f(x@, self.element_spec(j)),
            decreases n - i,
        {
            denoms.push(x.sub(&elements[i]));
            i = i + 1;
        }
        batch_inversion(&mut denoms);
        let ghost inverted = denoms@;
        let mut i: usize = 0;
        while i < n
            invariant
                n == self.size,
                i <= n,
                denoms@.len() == n,
                inverted.len() == n,
                forall|j: int|
                    0 <= j < n ==> #[trigger] inverted[j]@ == inv_f(sub_f(x@, self.element_spec(j))),
                forall|j: int| i <= j < n ==> #[trigger] denoms@[j] == inverted[j],
                forall|j: int|
                    0 <= j < i ==> #[trigger] denoms@[j]@ == mul_f(
                        v_x@,
                        inv_f(sub_f(x@, self.element_spec(j))),
                    ),
            decreases n - i,
        {
            let d = denoms[i];
            proof {
                lemma_mul_f_comm(d@, v_x@);
            }
            denoms.set(i, d.mul(&v_x));
            i = i + 1;
        }
        denoms
    }

    /// `n * h` for every element `h` in canonical order, then all but the first reversed:
    /// entry `i > 0` is `n * h[n - i]`, that is `n / h[i]`, the kernel on the diagonal.
    pub fn diagonal_evals(&self) -> (r: Vec<Fp>)
        requires
            self.wf(),
        ensures
            r@.len() == self.size,
            r@[0]@ == mul_f(self.size as int, self.element_spec(0)),
            forall|i: int|
                1 <= i < self.size ==> #[trigger] r@[i]@ == mul_f(
                    self.size as int,
                    self.element_spec(self.size - i),
                ),
    {
        let elements = self.elements();
        let n = elements.len();
        let mut scaled: Vec<Fp> = Vec::new();
        let mut i: usize = 0;
        while i < n
            invariant
                n == elements@.len(),
                n == self.size,
                self.size_as_field_element@ == self.size,
                i <= n,
                scaled@.len() == i,
                forall|j: int|
                    0 <= j < self.size ==> #[trigger] elements@[j]@ == self.element_spec(j),
                forall|j: int|
                    0 <= j < i ==> #[trigger] scaled@[j]@ == mul_f(
                        self.size as int,
                        self.element_spec(j),
                    ),
            decreases n - i,
        {
            scaled.push(self.size_as_field_element.mul(&elements[i]));
            i = i + 1;
        }
        let mut lo: usize = 1;
        let mut hi: usize = n;
        let ghost before = scaled@;
        while hi - lo > 1
            invariant
                1 <= lo <= hi <= n,
                n == self.size,
                lo + hi == n + 1 || lo == hi,
                scaled@.len() == n,
                before.len() == n,
                forall|j: int| lo <= j < hi ==> #[trigger] scaled@[j] == before[j],
                forall|j: int|
                    (1 <= j < lo || hi <= j < n) ==> #[trigger] scaled@[j] == before[n - j],
                scaled@[0] == before[0],
            decreases hi - lo,
        {
            let a = scaled[lo];
            let b = scaled[hi - 1];
            scaled.set(lo, b);
            scaled.set(hi - 1, a);
            lo = lo + 1;
            hi = hi - 1;
        }
        scaled
    }
}

proof fn lemma_pow_f_one(e: nat)
    ensures
        pow_f(1, e) == 1,
    decreases e,
{
    if e > 0 {
        lemma_pow_f_one((e - 1) as nat);
        lemma_mul_f_one(1);
    }
}

/// Every element of the domain is a root of the vanishing polynomial.
pub proof fn lemma_vanishing_on_domain(d: &EvaluationDomain, i: int)
    requires
        d.wf(),
        0 <= i,
    ensures
        vanishing(d.size as nat, d.element_spec(i)) == 0,
{
    lemma_domain_generator_order(d);
    lemma_pow_f_mul(d.generator@, i as nat, d.size as nat);
    lemma_mul_is_commutative(i, d.size as int);
    lemma_pow_f_mul(d.generator@, d.size as nat, i as nat);
    lemma_pow_f_one(i as nat);
}

/// `(-a) * (-b) = a * b` in the field.
proof fn lemma_mul_f_neg(a: int, b: int)
    ensures
        mul_f(modp(-a), modp(-b)) == mul_f(a, b),
{
    let m = P as int;
    lemma_mul_mod_noop_left(-a, modp(-b), m);
    lemma_mul_mod_noop_right(-a, -b, m);
    assert((-a) * (-b) == a * b) by (nonlinear_arith);
}

/// The inverse of `-d` is `-(1/d)`.
proof fn lemma_inv_f_neg(d: int)
    ensures
        inv_f(modp(-d)) == modp(-inv_f(d)),
{
    lemma_modp_range(-inv_f(d));
    if is_unit(d) {
        let r = inv_f(d);
        lemma_mul_f_neg(d, r);
        lemma_inverse_unique(modp(-d), modp(-r));
    } else if is_unit(modp(-d)) {
        let r = inv_f(modp(-d));
        lemma_mul_f_neg(-d, r);
        lemma_mul_mod_noop_left(-d, r, P as int);
        lemma_modp_range(-r);
        assert(-(-d) == d);
        lemma_mul_mod_noop_left(d, modp(-r), P as int);
        assert(mul_f(d, modp(-r)) == 1);
        lemma_inverse_unique(d, modp(-r));
    } else {
    }
}

/// The kernel is symmetric: `u(x, y) = u(y, x)`.
pub proof fn lemma_kernel_symmetric(n: nat, x: int, y: int)
    ensures
        kernel(n, x, y) == kernel(n, y, x),
{
    if x != y {
        let a = vanishing(n, x) - vanishing(n, y);
        let d = x - y;
        lemma_inv_f_neg(d);
        assert(-d == y - x);
        assert(-a == vanishing(n, y) - vanishing(n, x));
        lemma_mul_f_neg(a, inv_f(modp(d)));
        lemma_inv_f_reduce(d);
        lemma_inv_f_reduce(-d);
        let m = P as int;
        lemma_mul_mod_noop_left(a, inv_f(modp(d)), m);
        lemma_mul_mod_noop_right(-a, -inv_f(modp(d)), m);
        lemma_mul_mod_noop_left(-a, modp(-inv_f(modp(d))), m);
    }
}

proof fn lemma_inv_f_reduce(d: int)
    ensures
        inv_f(modp(d)) == inv_f(d),
{
    let m = P as int;
    if is_unit(d) {
        let r = inv_f(d);
        lemma_mul_mod_noop_left(d, r, m);
        lemma_inverse_unique(modp(d), r);
    } else if is_unit(modp(d)) {
        let r = inv_f(modp(d));
        lemma_mul_mod_noop_left(d, r, m);
        lemma_inverse_unique(d, r);
    }
}

/// Off the point itself, `batch_evals` agrees with the kernel at each domain element:
/// `v(x) / (x - h) = u(x, h)` when `x != h`.
pub proof fn lemma_batch_evals_agree(d: &EvaluationDomain, x: int, i: int)
    requires
        d.wf(),
        0 <= x < P,
        0 <= i < d.size,
        x != d.element_spec(i),
    ensures
        mul_f(vanishing(d.size as nat, x), inv_f(sub_f(x, d.element_spec(i)))) == kernel(
            d.size as nat,
            x,
            d.element_spec(i),
        ),
{
    lemma_vanishing_on_domain(d, i);
    let vx = vanishing(d.size as nat, x);
    lemma_modp_range(pow_f(x, d.size as nat) - 1);
    lemma_small_mod(vx as nat, P as nat);
}

/// Up to the reversal of all but the first entry, `diagonal_evals` is the kernel on the
/// diagonal: entry `0` is `u(h[0], h[0])` and entry `i > 0` is `u(h[i], h[i])`.
pub proof fn lemma_diagonal_evals_agree(d: &EvaluationDomain, i: int)
    requires
        d.wf(),
        0 <= i < d.size,
    ensures
        i == 0 ==> mul_f(d.size as int, d.element_spec(0)) == kernel(
            d.size as nat,
            d.element_spec(0),
            d.element_spec(0),
        ),
        i > 0 ==> mul_f(d.size as int, d.element_spec(d.size - i)) == kernel(
            d.size as nat,
            d.element_spec(i),
            d.element_spec(i),
        ),
{
    let n = d.size as nat;
    let g = d.generator@;
    if i == 0 {
        lemma_pow_f_one((n - 1) as nat);
    } else {
        lemma_domain_generator_order(d);
        lemma_pow_f_mul(g, i as nat, (n - 1) as nat);
        let k = ((i - 1) * n) as nat;
        assert(i * (n - 1) == (i - 1) * n + (n - i)) by (nonlinear_arith);
        assert((i - 1) * n >= 0) by (nonlinear_arith)
            requires
                i >= 1,
        ;
        lemma_pow_f_add(g, k, (n - i) as nat);
        lemma_mul_is_commutative(i - 1, n as int);
        lemma_pow_f_mul(g, n, (i - 1) as nat);
        lemma_pow_f_one((i - 1) as nat);
        lemma_pow_f_range(g, (n - i) as nat);
        lemma_mul_f_one(pow_f(g, (n - i) as nat));
    }
}

} // verus!
