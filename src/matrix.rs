//! Sparse matrices: each row lists its nonzero entries as (value, column index) pairs.
use crate::field::Fp;
use vstd::multiset::group_multiset_axioms;
use vstd::prelude::*;
use vstd::seq_lib::to_multiset_update;

verus! {

pub type Entry = (Fp, usize);

/// A sparse matrix, row by row.
#[derive(Clone, Debug)]
pub struct Matrix(pub Vec<Vec<Entry>>);

impl View for Matrix {
    type V = Seq<Seq<(int, usize)>>;

    /// Each entry as its field value and column.
    open spec fn view(&self) -> Seq<Seq<(int, usize)>> {
        rows_view(self.0@)
    }
}

pub open spec fn rows_view(rows: Seq<Vec<Entry>>) -> Seq<Seq<(int, usize)>> {
    Seq::new(rows.len(), |i: int| entries_view(rows[i]@))
}

pub open spec fn entries_view(row: Seq<Entry>) -> Seq<(int, usize)> {
    Seq::new(row.len(), |k: int| (row[k].0@, row[k].1))
}

/// The number of entries in the first `i` rows.
pub open spec fn count_prefix(rows: Seq<Vec<Entry>>, i: int) -> int
    decreases i,
{
    if i <= 0 {
        0
    } else {
        count_prefix(rows, i - 1) + rows[i - 1]@.len()
    }
}

/// The number of nonzero entries of `m`.
pub open spec fn density(m: &Matrix) -> int {
    count_prefix(m.0@, m.0@.len() as int)
}

/// Column indices never decrease along the row.
pub open spec fn column_sorted(row: Seq<Entry>) -> bool {
    forall|a: int, b: int| 0 <= a < b < row.len() ==> #[trigger] row[a].1 <= #[trigger] row[b].1
}

/// Column indices strictly increase along the row.
pub open spec fn strictly_ascending(row: Seq<Entry>) -> bool {
    forall|i: int| 1 <= i < row.len() ==> #[trigger] row[i - 1].1 < row[i].1
}

/// `sorted` holds the entries of `row` ordered by column, and is `row` itself where
/// that was ordered already.
pub open spec fn is_sorted_version(row: Seq<Entry>, sorted: Seq<Entry>) -> bool {
    &&& column_sorted(sorted)
    &&& sorted.to_multiset() == row.to_multiset()
    &&& column_sorted(row) ==> sorted == row
}

pub proof fn lemma_count_prefix_monotone(rows: Seq<Vec<Entry>>, i: int, j: int)
    requires
        0 <= i <= j <= rows.len(),
    ensures
        0 <= count_prefix(rows, i) <= count_prefix(rows, j),
    decreases j - i,
{
    if i < j {
        lemma_count_prefix_monotone(rows, i, j - 1);
    } else {
        lemma_count_prefix_nonneg(rows, i);
    }
}

proof fn lemma_count_prefix_nonneg(rows: Seq<Vec<Entry>>, i: int)
    requires
        0 <= i <= rows.len(),
    ensures
        0 <= count_prefix(rows, i),
    decreases i,
{
    if i > 0 {
        lemma_count_prefix_nonneg(rows, i - 1);
    }
}

/// The total number of nonzero entries.
pub fn matrix_density(m: &Matrix) -> (r: usize)
    requires
        density(m) <= usize::MAX,
    ensures
        r == density(m),
{
    let n = m.0.len();
    let mut total: usize = 0;
    let mut i: usize = 0;
    while i < n
        invariant
            n == m.0@.len(),
            i <= n,
            total == count_prefix(m.0@, i as int),
            density(m) <= usize::MAX,
        decreases n - i,
    {
        proof {
            lemma_count_prefix_monotone(m.0@, i as int + 1, n as int);
        }
        total = total + m.0[i].len();
        i = i + 1;
    }
    total
}

/// Whether the column indices of `row` strictly increase, stopping at the first that does not.
fn is_in_ascending_order(row: &Vec<Entry>) -> (r: bool)
    ensures
        r == strictly_ascending(row@),
{
    if row.len() == 0 {
        return true;
    }
    let mut i: usize = 1;
    while i < row.len()
        invariant
            1 <= i <= row@.len(),
            forall|k: int| 1 <= k < i ==> #[trigger] row@[k - 1].1 < row@[k].1,
        decreases row@.len() - i,
    {
        if !(row[i - 1].1 < row[i].1) {
            return false;
        }
        i = i + 1;
    }
    true
}

proof fn lemma_strict_is_sorted(row: Seq<Entry>)
    requires
        strictly_ascending(row),
    ensures
        column_sorted(row),
{
    assert forall|a: int, b: int| 0 <= a < b < row.len() implies row[a].1 <= row[b].1 by {
        lemma_strict_chain(row, a, b);
    }
}

proof fn lemma_strict_chain(row: Seq<Entry>, a: int, b: int)
    requires
        strictly_ascending(row),
        0 <= a < b < row.len(),
    ensures
        row[a].1 < row[b].1,
    decreases b - a,
{
    assert(row[b - 1].1 < row[b].1);
    if a < b - 1 {
        lemma_strict_chain(row, a, b - 1);
    }
}

/// Stable insertion sort of the row's entries by column.
fn sort_row_by_column(row: &mut Vec<Entry>)
    ensures
        is_sorted_version(old(row)@, final(row)@),
{
    let ghost orig = row@;
    let n = row.len();
    if n == 0 {
        return;
    }
    let mut i: usize = 1;
    while i < n
        invariant
            n == row@.len(),
            1 <= i <= n,
            forall|a: int, b: int| 0 <= a < b < i ==> #[trigger] row@[a].1 <= #[trigger] row@[b].1,
            row@.to_multiset() == orig.to_multiset(),
            column_sorted(orig) ==> row@ == orig,
        decreases n - i,
    {
        let mut j: usize = i;
        while j > 0 && row[j - 1].1 > row[j].1
            invariant
                n == row@.len(),
                0 <= j <= i < n,
                forall|a: int, b: int|
                    0 <= a < b <= i && a != j && b != j ==> #[trigger] row@[a].1
                        <= #[trigger] row@[b].1,
                forall|b: int| j < b <= i ==> row@[j as int].1 <= #[trigger] row@[b].1,
                row@.to_multiset() == orig.to_multiset(),
                column_sorted(orig) ==> row@ == orig && j == i,
            decreases j,
        {
            let x = row[j - 1];
            let y = row[j];
            let ghost s0 = row@;
            row.set(j - 1, y);
            proof {
                to_multiset_update(s0, j - 1, y);
            }
            let ghost s1 = row@;
            row.set(j, x);
            proof {
                to_multiset_update(s1, j as int, x);
                broadcast use group_multiset_axioms;

                s0.to_multiset_ensures();
                assert(s0.contains(x));
                let ms = s0.to_multiset();
                assert(ms.insert(y).remove(x).insert(x).remove(y) =~= ms);
            }
            j = j - 1;
        }
        i = i + 1;
    }
}

/// Orders the entries of every row by column, leaving rows that are already in strictly
/// ascending order untouched.
pub fn sort_matrix_columns(m: &mut Matrix)
    ensures
        final(m).0@.len() == old(m).0@.len(),
        forall|i: int|
            0 <= i < old(m).0@.len() ==> is_sorted_version(
                #[trigger] old(m).0@[i]@,
                final(m).0@[i]@,
            ),
{
    let ghost orig = m.0@;
    let mut rows: Vec<Vec<Entry>> = Vec::new();
    std::mem::swap(&mut m.0, &mut rows);
    let n = rows.len();
    let mut reversed: Vec<Vec<Entry>> = Vec::new();
    while rows.len() > 0
        invariant
            n == orig.len(),
            rows@.len() + reversed@.len() == n,
            forall|k: int| 0 <= k < rows@.len() ==> #[trigger] rows@[k] == orig[k],
            forall|k: int|
                0 <= k < reversed@.len() ==> is_sorted_version(
                    orig[n - 1 - k]@,
                    #[trigger] reversed@[k]@,
                ),
        decreases rows@.len(),
    {
        let mut row = rows.pop().unwrap();
        if !is_in_ascending_order(&row) {
            sort_row_by_column(&mut row);
        } else {
            proof {
                lemma_strict_is_sorted(row@);
            }
        }
        reversed.push(row);
    }
    let mut out: Vec<Vec<Entry>> = Vec::new();
    while reversed.len() > 0
        invariant
            n == orig.len(),
            reversed@.len() + out@.len() == n,
            forall|k: int|
                0 <= k < reversed@.len() ==> is_sorted_version(
                    orig[n - 1 - k]@,
                    #[trigger] reversed@[k]@,
                ),
            forall|k: int| 0 <= k < out@.len() ==> is_sorted_version(orig[k]@, #[trigger] out@[k]@),
        decreases reversed@.len(),
    {
        let row = reversed.pop().unwrap();
        out.push(row);
    }
    m.0 = out;
}

/// Sorting the columns twice gives what sorting once gave.
pub proof fn lemma_sort_idempotent(m0: Matrix, m1: Matrix, m2: Matrix)
    requires
        m1.0@.len() == m0.0@.len(),
        forall|i: int| 0 <= i < m0.0@.len() ==> is_sorted_version(#[trigger] m0.0@[i]@, m1.0@[i]@),
        m2.0@.len() == m1.0@.len(),
        forall|i: int| 0 <= i < m1.0@.len() ==> is_sorted_version(#[trigger] m1.0@[i]@, m2.0@[i]@),
    ensures
        forall|i: int| 0 <= i < m1.0@.len() ==> #[trigger] m2.0@[i]@ == m1.0@[i]@,
{
    assert forall|i: int| 0 <= i < m1.0@.len() implies #[trigger] m2.0@[i]@ == m1.0@[i]@ by {
        assert(is_sorted_version(m0.0@[i]@, m1.0@[i]@));
        assert(is_sorted_version(m1.0@[i]@, m2.0@[i]@));
    }
}

} // verus!
