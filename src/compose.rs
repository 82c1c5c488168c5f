//! Encoding a sparse matrix as polynomials over evaluation domains.
use crate::domain::{reindex_spec, EvaluationDomain};
use crate::field::{batch_inversion, inv_f, lemma_modp_range, mul_f, Fp, P};
use crate::matrix::{Entry, Matrix};
use vstd::prelude::*;
use vstd::string::StringExecFns;

verus! {

/// A polynomial (coefficients, lowest degree first) with the name it is committed under.
#[derive(Clone, Debug)]
pub struct LabeledPolynomial {
    pub label: String,
    pub polynomial: Vec<Fp>,
}

/// The row, column and value polynomials of a matrix and the product of the first two,
/// with their evaluations on the index domain `K` and on the larger domain `B`.
#[derive(Clone, Debug)]
pub struct MatrixPolynomials {
    pub row: LabeledPolynomial,
    pub col: LabeledPolynomial,
    pub val: LabeledPolynomial,
    pub row_col: LabeledPolynomial,
    pub row_evals_on_k: Vec<Fp>,
    pub col_evals_on_k: Vec<Fp>,
    pub val_evals_on_k: Vec<Fp>,
    pub row_evals_on_b: Vec<Fp>,
    pub col_evals_on_b: Vec<Fp>,
    pub val_evals_on_b: Vec<Fp>,
    pub row_col_evals_on_b: Vec<Fp>,
}

/// Why a matrix could not be encoded.
#[derive(Clone, Copy, Debug, PartialEq, Eq)]
pub enum ComposeError {
    /// The matrix has more nonzero entries than the index domain has elements.
    IndexDomainTooSmall,
}

/// The entries of row `i`, each as (row, value, column).
pub open spec fn row_entries(rows: Seq<Vec<Entry>>, i: int) -> Seq<(int, int, usize)> {
    Seq::new(rows[i]@.len(), |t: int| (i, rows[i]@[t].0@, rows[i]@[t].1))
}

/// The entries of the first `i` rows in matrix order, each as (row, value, column).
pub open spec fn flat_entries(rows: Seq<Vec<Entry>>, i: int) -> Seq<(int, int, usize)>
    decreases i,
{
    if i <= 0 {
        Seq::empty()
    } else {
        flat_entries(rows, i - 1) + row_entries(rows, i - 1)
    }
}

pub open spec fn all_entries(m: &Matrix) -> Seq<(int, int, usize)> {
    flat_entries(m.0@, m.0@.len() as int)
}

/// Position in `h` of the entry's column, renumbered from the public-input domain `x`.
pub open spec fn column_position(x: &EvaluationDomain, h: &EvaluationDomain, col: usize) -> int {
    reindex_spec(h.size as int, x.size as int, col as int)
}

/// What `diagonal_evals` of `h` holds at position `j`.
pub open spec fn diagonal_spec(h: &EvaluationDomain, j: int) -> int {
    if j == 0 {
        mul_f(h.size as int, h.element_spec(0))
    } else {
        mul_f(h.size as int, h.element_spec(h.size - j))
    }
}

/// The value-vectors on `K`: entry `t < count` comes from the `t`-th nonzero entry, the rest
/// are padding `(h[0], h[0], 0)`.
pub open spec fn row_value(m: &Matrix, x: &EvaluationDomain, h: &EvaluationDomain, t: int) -> int {
    let e = all_entries(m);
    if t < e.len() {
        h.element_spec(column_position(x, h, e[t].2))
    } else {
        h.element_spec(0)
    }
}

pub open spec fn col_value(m: &Matrix, h: &EvaluationDomain, t: int) -> int {
    let e = all_entries(m);
    if t < e.len() {
        h.element_spec(e[t].0)
    } else {
        h.element_spec(0)
    }
}

pub open spec fn val_value(m: &Matrix, x: &EvaluationDomain, h: &EvaluationDomain, t: int) -> int {
    let e = all_entries(m);
    if t < e.len() {
        mul_f(e[t].1, inv_f(diagonal_spec(h, column_position(x, h, e[t].2))))
    } else {
        0
    }
}

/// The pointwise product of two value-vectors.
pub open spec fn pointwise_product(a: Seq<Fp>, b: Seq<Fp>) -> Seq<Fp> {
    Seq::new(a.len(), |i: int| Fp { v: mul_f(a[i]@, b[i]@) as u64 })
}

/// The matrix meets what the composer reads of it: rows and columns index `h`.
pub open spec fn fits_domains(m: &Matrix, h: &EvaluationDomain) -> bool {
    &&& m.0@.len() <= h.size
    &&& forall|i: int, t: int|
        0 <= i < m.0@.len() && 0 <= t < m.0@[i]@.len() ==> (#[trigger] m.0@[i]@[t]).1 < h.size
}

/// Everything `compose_matrix_polynomials` promises of a successful result.
pub open spec fn is_composition(
    name: Seq<char>,
    m: &Matrix,
    x: &EvaluationDomain,
    h: &EvaluationDomain,
    k: &EvaluationDomain,
    b: &EvaluationDomain,
    r: &MatrixPolynomials,
) -> bool {
    &&& r.row_evals_on_k@.len() == k.size
    &&& r.col_evals_on_k@.len() == k.size
    &&& r.val_evals_on_k@.len() == k.size
    &&& forall|t: int| 0 <= t < k.size ==> #[trigger] r.row_evals_on_k@[t]@ == row_value(m, x, h, t)
    &&& forall|t: int| 0 <= t < k.size ==> #[trigger] r.col_evals_on_k@[t]@ == col_value(m, h, t)
    &&& forall|t: int| 0 <= t < k.size ==> #[trigger] r.val_evals_on_k@[t]@ == val_value(m, x, h, t)
    &&& k.is_interpolation_of(r.row_evals_on_k@, r.row.polynomial@)
    &&& k.is_interpolation_of(r.col_evals_on_k@, r.col.polynomial@)
    &&& k.is_interpolation_of(r.val_evals_on_k@, r.val.polynomial@)
    &&& k.is_interpolation_of(
        pointwise_product(r.row_evals_on_k@, r.col_evals_on_k@),
        r.row_col.polynomial@,
    )
    &&& b.is_evaluation_of(r.row.polynomial@, r.row_evals_on_b@)
    &&& b.is_evaluation_of(r.col.polynomial@, r.col_evals_on_b@)
    &&& b.is_evaluation_of(r.val.polynomial@, r.val_evals_on_b@)
    &&& b.is_evaluation_of(r.row_col.polynomial@, r.row_col_evals_on_b@)
    &&& r.row.label@ == name + "_row"@
    &&& r.col.label@ == name + "_col"@
    &&& r.val.label@ == name + "_val"@
    &&& r.row_col.label@ == name + "_row_col"@
}

/// Encodes `matrix` as row, column and value polynomials over `domain_k`, re-evaluated on
/// `domain_b`; fails where the matrix has more nonzero entries than `domain_k` has elements.
pub fn compose_matrix_polynomials(
    matrix_name: &str,
    matrix: &Matrix,
    domain_x: &EvaluationDomain,
    domain_h: &EvaluationDomain,
    domain_k: &EvaluationDomain,
    domain_b: &EvaluationDomain,
) -> (r: Result<MatrixPolynomials, ComposeError>)
    requires
        domain_x.wf(),
        domain_h.wf(),
        domain_k.wf(),
        domain_b.wf(),
        domain_x.size <= domain_h.size,
        domain_k.size <= domain_b.size,
        fits_domains(matrix, domain_h),
    ensures
        r is Err <==> all_entries(matrix).len() > domain_k.size,
        r matches Err(e) ==> e == ComposeError::IndexDomainTooSmall,
        r matches Ok(p) ==> is_composition(
            matrix_name@,
            matrix,
            domain_x,
            domain_h,
            domain_k,
            domain_b,
            &p,
        ),
{
    let h_elements = domain_h.elements();
    let h_diag_evals = domain_h.diagonal_evals();
    let ghost rows = matrix.0@;
    let mut row_vec: Vec<Fp> = Vec::new();
    let mut col_vec: Vec<Fp> = Vec::new();
    let mut val_vec: Vec<Fp> = Vec::new();
    let mut denom_vec: Vec<Fp> = Vec::new();
    let n_rows = matrix.0.len();
    let mut i: usize = 0;
    while i < n_rows
        invariant
            n_rows == rows.len(),
            rows == matrix.0@,
            i <= n_rows,
            domain_x.wf(),
            domain_h.wf(),
            domain_x.size <= domain_h.size,
            fits_domains(matrix, domain_h),
            h_elements@.len() == domain_h.size,
            forall|j: int|
                0 <= j < domain_h.size ==> #[trigger] h_elements@[j]@ == domain_h.element_spec(j),
            h_diag_evals@.len() == domain_h.size,
            forall|j: int|
                0 <= j < domain_h.size ==> #[trigger] h_diag_evals@[j]@ == diagonal_spec(domain_h, j),
            row_vec@.len() == flat_entries(rows, i as int).len(),
            col_vec@.len() == row_vec@.len(),
            val_vec@.len() == row_vec@.len(),
            denom_vec@.len() == row_vec@.len(),
            forall|t: int|
                0 <= t < row_vec@.len() ==> {
                    let e = #[trigger] flat_entries(rows, i as int)[t];
                    &&& row_vec@[t]@ == domain_h.element_spec(
                        column_position(domain_x, domain_h, e.2),
                    )
                    &&& col_vec@[t]@ == domain_h.element_spec(e.0)
                    &&& val_vec@[t]@ == e.1
                    &&& denom_vec@[t]@ == diagonal_spec(
                        domain_h,
                        column_position(domain_x, domain_h, e.2),
                    )
                },
        decreases n_rows - i,
    {
        let row = &matrix.0[i];
        let ghost before = flat_entries(rows, i as int);
        let mut t: usize = 0;
        while t < row.len()
            invariant
                n_rows == rows.len(),
                rows == matrix.0@,
                i < n_rows,
                *row == rows[i as int],
                t <= row@.len(),
                domain_x.wf(),
                domain_h.wf(),
                domain_x.size <= domain_h.size,
                fits_domains(matrix, domain_h),
                before == flat_entries(rows, i as int),
                h_elements@.len() == domain_h.size,
                forall|j: int|
                    0 <= j < domain_h.size ==> #[trigger] h_elements@[j]@ == domain_h.element_spec(j),
                h_diag_evals@.len() == domain_h.size,
                forall|j: int|
                    0 <= j < domain_h.size ==> #[trigger] h_diag_evals@[j]@ == diagonal_spec(
                        domain_h,
                        j,
                    ),
                row_vec@.len() == before.len() + t,
                col_vec@.len() == row_vec@.len(),
                val_vec@.len() == row_vec@.len(),
                denom_vec@.len() == row_vec@.len(),
                forall|s: int|
                    0 <= s < row_vec@.len() ==> {
                        let e = #[trigger] (before + row_entries(rows, i as int))[s];
                        &&& row_vec@[s]@ == domain_h.element_spec(
                            column_position(domain_x, domain_h, e.2),
                        )
                        &&& col_vec@[s]@ == domain_h.element_spec(e.0)
                        &&& val_vec@[s]@ == e.1
                        &&& denom_vec@[s]@ == diagonal_spec(
                            domain_h,
                            column_position(domain_x, domain_h, e.2),
                        )
                    },
            decreases row@.len() - t,
        {
            let (v, j) = row[t];
            proof {
                assert(rows[i as int]@[t as int] == matrix.0@[i as int]@[t as int]);
            }
            let jj = domain_h.reindex_by_subdomain(domain_x, j);
            row_vec.push(h_elements[jj]);
            col_vec.push(h_elements[i]);
            val_vec.push(v);
            denom_vec.push(h_diag_evals[jj]);
            proof {
                let all = before + row_entries(rows, i as int);
                assert(all[before.len() + t] == row_entries(rows, i as int)[t as int]);
            }
            t = t + 1;
        }
        proof {
            assert(flat_entries(rows, i as int + 1) == before + row_entries(rows, i as int));
        }
        i = i + 1;
    }
    let count = row_vec.len();
    let ghost entries = flat_entries(rows, n_rows as int);
    if count > domain_k.size() {
        return Err(ComposeError::IndexDomainTooSmall);
    }
    let ghost denoms = denom_vec@;
    batch_inversion(&mut denom_vec);
    let mut t: usize = 0;
    while t < count
        invariant
            count == val_vec@.len(),
            count == denom_vec@.len(),
            count == entries.len(),
            count == denoms.len(),
            t <= count,
            forall|s: int| 0 <= s < count ==> #[trigger] denom_vec@[s]@ == inv_f(denoms[s]@),
            forall|s: int|
                0 <= s < count ==> #[trigger] denoms[s]@ == diagonal_spec(
                    domain_h,
                    column_position(domain_x, domain_h, entries[s].2),
                ),
            forall|s: int| t <= s < count ==> #[trigger] val_vec@[s]@ == entries[s].1,
            forall|s: int|
                0 <= s < t ==> #[trigger] val_vec@[s]@ == mul_f(
                    entries[s].1,
                    inv_f(diagonal_spec(domain_h, column_position(domain_x, domain_h, entries[s].2))),
                ),
        decreases count - t,
    {
        let scaled = val_vec[t].mul(&denom_vec[t]);
        val_vec.set(t, scaled);
        t = t + 1;
    }
    let k_size = domain_k.size();
    while row_vec.len() < k_size
        invariant
            k_size == domain_k.size,
            count <= row_vec@.len() <= k_size,
            count == entries.len(),
            entries == all_entries(matrix),
            col_vec@.len() == row_vec@.len(),
            val_vec@.len() == row_vec@.len(),
            h_elements@.len() == domain_h.size,
            domain_h.size >= 1,
            forall|j: int|
                0 <= j < domain_h.size ==> #[trigger] h_elements@[j]@ == domain_h.element_spec(j),
            forall|s: int|
                0 <= s < row_vec@.len() ==> #[trigger] row_vec@[s]@ == row_value(
                    matrix,
                    domain_x,
                    domain_h,
                    s,
                ),
            forall|s: int| 0 <= s < row_vec@.len() ==> #[trigger] col_vec@[s]@ == col_value(matrix, domain_h, s),
            forall|s: int|
                0 <= s < row_vec@.len() ==> #[trigger] val_vec@[s]@ == val_value(
                    matrix,
                    domain_x,
                    domain_h,
                    s,
                ),
        decreases k_size - row_vec@.len(),
    {
        row_vec.push(h_elements[0]);
        col_vec.push(h_elements[0]);
        val_vec.push(Fp::zero());
    }
    let mut row_col_vec: Vec<Fp> = Vec::new();
    let mut t: usize = 0;
    while t < k_size
        invariant
            k_size == row_vec@.len(),
            k_size == col_vec@.len(),
            t <= k_size,
            row_col_vec@.len() == t,
            forall|s: int|
                0 <= s < t ==> #[trigger] row_col_vec@[s] == pointwise_product(row_vec@, col_vec@)[s],
        decreases k_size - t,
    {
        row_col_vec.push(row_vec[t].mul(&col_vec[t]));
        t = t + 1;
    }
    proof {
        assert(row_col_vec@ == pointwise_product(row_vec@, col_vec@));
    }
    let row = domain_k.interpolate(&row_vec);
    let col = domain_k.interpolate(&col_vec);
    let val = domain_k.interpolate(&val_vec);
    let row_col = domain_k.interpolate(&row_col_vec);
    let row_evals_on_b = domain_b.fft(&row);
    let col_evals_on_b = domain_b.fft(&col);
    let val_evals_on_b = domain_b.fft(&val);
    let row_col_evals_on_b = domain_b.fft(&row_col);
    let name = String::from_str(matrix_name);
    Ok(
        MatrixPolynomials {
            row: LabeledPolynomial { label: name.clone().concat("_row"), polynomial: row },
            col: LabeledPolynomial { label: name.clone().concat("_col"), polynomial: col },
            val: LabeledPolynomial { label: name.clone().concat("_val"), polynomial: val },
            row_col: LabeledPolynomial { label: name.concat("_row_col"), polynomial: row_col },
            row_evals_on_k: row_vec,
            col_evals_on_k: col_vec,
            val_evals_on_k: val_vec,
            row_evals_on_b,
            col_evals_on_b,
            val_evals_on_b,
            row_col_evals_on_b,
        },
    )
}

/// In a composed bundle the product polynomial is the interpolant on `K` of the pointwise
/// product of the row and column values, padding included, where each product is
/// `row_value * col_value`.
pub proof fn lemma_row_col_interpolates_product(
    name: Seq<char>,
    m: &Matrix,
    x: &EvaluationDomain,
    h: &EvaluationDomain,
    k: &EvaluationDomain,
    b: &EvaluationDomain,
    p: &MatrixPolynomials,
)
    requires
        is_composition(name, m, x, h, k, b, p),
    ensures
        k.is_interpolation_of(
            pointwise_product(p.row_evals_on_k@, p.col_evals_on_k@),
            p.row_col.polynomial@,
        ),
        forall|t: int|
            0 <= t < k.size ==> #[trigger] pointwise_product(p.row_evals_on_k@, p.col_evals_on_k@)[t]@
                == mul_f(row_value(m, x, h, t), col_value(m, h, t)),
{
    assert forall|t: int| 0 <= t < k.size implies #[trigger] pointwise_product(
        p.row_evals_on_k@,
        p.col_evals_on_k@,
    )[t]@ == mul_f(row_value(m, x, h, t), col_value(m, h, t)) by {
        let v = mul_f(p.row_evals_on_k@[t]@, p.col_evals_on_k@[t]@);
        lemma_modp_range(p.row_evals_on_k@[t]@ * p.col_evals_on_k@[t]@);
        assert((v as u64) % P == v);
    }
}
impl Matrix {
    /// Whether every row and every column index addresses an element of `h`, as the composer
    /// requires.
    pub fn fits_domain(&self, h: &EvaluationDomain) -> (r: bool)
        requires
            h.wf(),
        ensures
            r == fits_domains(self, h),
    {
        let n = h.size();
        if self.0.len() > n {
            return false;
        }
        let mut i: usize = 0;
        while i < self.0.len()
            invariant
                n == h.size,
                i <= self.0@.len(),
                forall|a: int, t: int|
                    0 <= a < i && 0 <= t < self.0@[a]@.len() ==> (#[trigger] self.0@[a]@[t]).1 < n,
            decreases self.0@.len() - i,
        {
            let row = &self.0[i];
            let mut t: usize = 0;
            while t < row.len()
                invariant
                    n == h.size,
                    i < self.0@.len(),
                    *row == self.0@[i as int],
                    t <= row@.len(),
                    forall|a: int, s: int|
                        0 <= a < i && 0 <= s < self.0@[a]@.len() ==> (#[trigger] self.0@[a]@[s]).1 < n,
                    forall|s: int| 0 <= s < t ==> (#[trigger] row@[s]).1 < n,
                decreases row@.len() - t,
            {
                if row[t].1 >= n {
                    return false;
                }
                t = t + 1;
            }
            i = i + 1;
        }
        true
    }
}
} // verus!
