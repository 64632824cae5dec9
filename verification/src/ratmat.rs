//! Dense exact rational linear algebra, sized at runtime: products,
//! elimination (determinant, reduced row echelon form, rank, kernel,
//! inverse) and Lagrange congruence diagonalisation of symmetric forms.
use vstd::prelude::*;
use crate::algebra::{AlgebraBudget, AlgebraError, AlgebraWork};
use crate::rational::{
    Rational, Q, qint, qadd, qsub, qmul, qdiv, qneg, canonical, bit_size_of, lemma_canonical_zero,
    lemma_qsub_zero_product, lemma_qsub_self_unit, lemma_qdiv_self, lemma_qdiv_zero,
};
use crate::uncertain::{Sign, sign_of_int};

verus! {

/// The values of a vector of rationals.
pub open spec fn qs(v: Seq<Rational>) -> Seq<Q> {
    v.map_values(|r: Rational| r@)
}

/// `x` is zero.
pub open spec fn is0(x: Q) -> bool {
    x.0 == 0
}

/// A dense `rows x cols` exact rational matrix, row-major.
#[derive(Debug, PartialEq, Eq)]
pub struct Mat {
    /// Row count.
    pub rows: usize,
    /// Column count.
    pub cols: usize,
    /// Entries, row-major (`a[i*cols + j]`).
    pub a: Vec<Rational>,
}

/// Row-major position of `(i, j)` lies inside a `rows x cols` array.
pub proof fn lemma_index(i: int, j: int, rows: int, cols: int)
    requires
        0 <= i < rows,
        0 <= j < cols,
    ensures
        0 <= i * cols + j < rows * cols,
        i * cols <= i * cols + j,
{
    assert(0 <= i * cols) by (nonlinear_arith)
        requires
            0 <= i,
            0 <= cols,
    ;
    assert(i * cols + j < rows * cols) by (nonlinear_arith)
        requires
            0 <= i < rows,
            0 <= j < cols,
    ;
}

impl Mat {
    /// The entry array holds exactly `rows * cols` entries.
    pub open spec fn wf(&self) -> bool {
        self.a@.len() == self.rows * self.cols
    }

    /// The value of entry `(i, j)`.
    pub open spec fn at(&self, i: int, j: int) -> Q {
        self.a@[i * self.cols + j]@
    }

    /// The `rows x cols` zero matrix.
    pub fn zeros(rows: usize, cols: usize) -> (r: Mat)
        requires
            rows * cols <= usize::MAX,
        ensures
            r.wf(),
            r.rows == rows,
            r.cols == cols,
            forall|i: int, j: int| 0 <= i < rows && 0 <= j < cols ==> #[trigger] r.at(i, j) == qint(0),
    {
        let n = rows * cols;
        let mut a: Vec<Rational> = Vec::new();
        while a.len() < n
            invariant
                a@.len() <= n,
                forall|k: int| 0 <= k < a@.len() ==> #[trigger] a@[k]@ == qint(0),
            decreases n - a@.len(),
        {
            a.push(Rational::zero());
        }
        let r = Mat { rows, cols, a };
        proof {
            assert forall|i: int, j: int| 0 <= i < rows && 0 <= j < cols implies #[trigger] r.at(i, j) == qint(0) by {
                lemma_index(i, j, rows as int, cols as int);
            }
        }
        r
    }

    /// Entry `(i, j)`.
    pub fn get(&self, i: usize, j: usize) -> (r: &Rational)
        requires
            self.wf(),
            i < self.rows,
            j < self.cols,
        ensures
            *r == self.a@[i * self.cols + j],
            r@ == self.at(i as int, j as int),
    {
        let _len = self.a.len();
        proof {
            lemma_index(i as int, j as int, self.rows as int, self.cols as int);
        }
        &self.a[i * self.cols + j]
    }

    /// Set entry `(i, j)`.
    pub fn set(&mut self, i: usize, j: usize, v: Rational)
        requires
            old(self).wf(),
            i < old(self).rows,
            j < old(self).cols,
        ensures
            final(self).wf(),
            final(self).rows == old(self).rows,
            final(self).cols == old(self).cols,
            final(self).a@ == old(self).a@.update(i * old(self).cols + j, v),
            final(self).at(i as int, j as int) == v@,
            forall|p: int, q: int|
                0 <= p < old(self).rows && 0 <= q < old(self).cols && (p != i || q != j) ==> #[trigger] final(self).at(p, q)
                    == old(self).at(p, q),
    {
        let _len = self.a.len();
        proof {
            lemma_index(i as int, j as int, self.rows as int, self.cols as int);
        }
        let k = i * self.cols + j;
        self.a.set(k, v);
        proof {
            assert forall|p: int, q: int|
                0 <= p < old(self).rows && 0 <= q < old(self).cols && (p != i || q != j) implies #[trigger] self.at(p, q)
                    == old(self).at(p, q) by {
                lemma_index(p, q, self.rows as int, self.cols as int);
                lemma_index_injective(p, q, i as int, j as int, self.cols as int);
            }
        }
    }
}

/// Distinct in-range positions have distinct row-major indices.
pub proof fn lemma_index_injective(p: int, q: int, i: int, j: int, cols: int)
    requires
        0 <= p,
        0 <= i,
        0 <= q < cols,
        0 <= j < cols,
        p != i || q != j,
    ensures
        p * cols + q != i * cols + j,
{
    if p == i {
    } else if p < i {
        assert(p * cols + q < i * cols + j) by (nonlinear_arith)
            requires
                p < i,
                0 <= q < cols,
                0 <= j,
        ;
    } else {
        assert(i * cols + j < p * cols + q) by (nonlinear_arith)
            requires
                i < p,
                0 <= j < cols,
                0 <= q,
        ;
    }
}


/// `r` is an error about the shape of the operands.
pub open spec fn is_shape_err<T>(r: Result<T, AlgebraError>) -> bool {
    r matches Err(AlgebraError::Shape { .. })
}

/// Some row's length differs from the first row's.
pub open spec fn ragged(rows: Seq<Vec<Rational>>) -> bool {
    exists|i: int| 0 <= i < rows.len() && #[trigger] rows[i]@.len() != rows[0]@.len()
}

/// `Σ_{k < len} a[i][k]·b[k][j]`, accumulated left to right.
pub open spec fn dot(a: Mat, b: Mat, i: int, j: int, len: int) -> Q
    decreases len,
{
    if len <= 0 {
        qint(0)
    } else {
        qadd(dot(a, b, i, j, len - 1), qmul(a.at(i, len - 1), b.at(len - 1, j)))
    }
}

/// `Σ_{j < len} m[i][j]·w[j]`, accumulated left to right.
pub open spec fn row_dot(m: Mat, i: int, w: Seq<Q>, len: int) -> Q
    decreases len,
{
    if len <= 0 {
        qint(0)
    } else {
        qadd(row_dot(m, i, w, len - 1), qmul(m.at(i, len - 1), w[len - 1]))
    }
}

/// `w` is in the right null space of `m`: every row of `m` dotted with `w`
/// is zero.
pub open spec fn null_vector(m: Mat, w: Seq<Q>) -> bool {
    forall|i: int| 0 <= i < m.rows ==> (#[trigger] row_dot(m, i, w, m.cols as int)).0 == 0
}

/// A row of zeros dotted with any vector of positive denominators is zero.
proof fn lemma_row_dot_zero(m: Mat, i: int, w: Seq<Q>, len: int)
    requires
        0 <= len,
        forall|j: int| 0 <= j < len ==> #[trigger] m.at(i, j) == qint(0),
        forall|j: int| 0 <= j < len ==> (#[trigger] w[j]).1 > 0,
    ensures
        row_dot(m, i, w, len) == qint(0),
    decreases len,
{
    if len > 0 {
        lemma_row_dot_zero(m, i, w, len - 1);
        assert(m.at(i, len - 1) == qint(0));
        crate::qfield::lemma_qmul_zero_left(w[len - 1]);
        crate::qfield::lemma_zero_lowest();
        crate::qfield::lemma_qadd_zero(qint(0));
    }
}

/// Every vector is in the right null space of a zero matrix whose entries
/// are in lowest terms.
proof fn lemma_zero_matrix_annihilates(m: Mat, v: Seq<Rational>)
    requires
        m.wf(),
        all_canonical(m),
        v.len() == m.cols,
        forall|j: int| 0 <= j < v.len() ==> canonical((#[trigger] v[j])@),
        forall|i: int, j: int| 0 <= i < m.rows && 0 <= j < m.cols ==> (#[trigger] m.at(i, j)).0 == 0,
    ensures
        null_vector(m, qs(v)),
{
    let w = qs(v);
    assert forall|j: int| 0 <= j < v.len() implies (#[trigger] w[j]).1 > 0 by {
        assert(w[j] == v[j]@);
    }
    assert forall|i: int| 0 <= i < m.rows implies (#[trigger] row_dot(m, i, w, m.cols as int)).0 == 0 by {
        assert forall|j: int| 0 <= j < m.cols implies #[trigger] m.at(i, j) == qint(0) by {
            assert(m.at(i, j).0 == 0);
            lemma_index(i, j, m.rows as int, m.cols as int);
            assert(canonical(m.a@[i * m.cols + j]@));
            crate::rational::lemma_gcd_zero_left(m.at(i, j).1 as nat);
        }
        lemma_row_dot_zero(m, i, w, m.cols as int);
    }
}

/// `Σ_{i < len} v[i]·(Σ_j m[i][j]·w[j])`, accumulated left to right.
pub open spec fn bilinear_sum(v: Seq<Q>, m: Mat, w: Seq<Q>, len: int) -> Q
    decreases len,
{
    if len <= 0 {
        qint(0)
    } else {
        qadd(bilinear_sum(v, m, w, len - 1), qmul(v[len - 1], row_dot(m, len - 1, w, w.len() as int)))
    }
}

/// `x` fits the coefficient budget.
pub open spec fn fits(x: Q, budget: AlgebraBudget) -> bool {
    bit_size_of(x) <= budget.max_coefficient_bits
}

/// The larger side of a matrix.
pub open spec fn side(m: Mat) -> usize {
    if m.rows >= m.cols {
        m.rows
    } else {
        m.cols
    }
}

/// The first entry (row-major) too wide for the budget.
pub open spec fn first_wide(m: Mat, budget: AlgebraBudget) -> int {
    choose|k: int|
        0 <= k < m.a@.len() && !fits(m.a@[k]@, budget) && forall|j: int| 0 <= j < k ==> fits(#[trigger] m.a@[j]@, budget)
}

/// The outcome of checking a matrix against a budget: dimension first,
/// then each entry's coefficient size in row-major order.
pub open spec fn budget_result(m: Mat, budget: AlgebraBudget) -> Result<(), AlgebraError> {
    if side(m) > budget.max_matrix_dimension {
        Err(AlgebraError::MatrixDimension { actual: side(m), limit: budget.max_matrix_dimension })
    } else if forall|k: int| 0 <= k < m.a@.len() ==> fits(#[trigger] m.a@[k]@, budget) {
        Ok(())
    } else {
        Err(
            AlgebraError::CoefficientBits {
                actual: bit_size_of(m.a@[first_wide(m, budget)]@),
                limit: budget.max_coefficient_bits,
            },
        )
    }
}

/// Check one coefficient against the budget.
fn check_bits(value: &Rational, budget: AlgebraBudget) -> (r: Result<(), AlgebraError>)
    ensures
        r is Ok <==> fits(value@, budget),
        r is Err ==> r == Err::<(), AlgebraError>(
            AlgebraError::CoefficientBits { actual: bit_size_of(value@), limit: budget.max_coefficient_bits },
        ),
{
    let actual = value.bit_size();
    if actual > budget.max_coefficient_bits {
        Err(AlgebraError::CoefficientBits { actual, limit: budget.max_coefficient_bits })
    } else {
        Ok(())
    }
}

/// Append clones of `row` to `a`.
fn push_all(a: &mut Vec<Rational>, row: &[Rational])
    ensures
        final(a)@.len() == old(a)@.len() + row@.len(),
        forall|k: int| 0 <= k < old(a)@.len() ==> #[trigger] final(a)@[k] == old(a)@[k],
        forall|k: int| 0 <= k < row@.len() ==> #[trigger] final(a)@[old(a)@.len() + k]@ == row@[k]@,
{
    let ghost a0 = a@;
    let mut j: usize = 0;
    while j < row.len()
        invariant
            j <= row@.len(),
            a@.len() == a0.len() + j,
            forall|k: int| 0 <= k < a0.len() ==> #[trigger] a@[k] == a0[k],
            forall|k: int| 0 <= k < j ==> #[trigger] a@[a0.len() + k]@ == row@[k]@,
        decreases row@.len() - j,
    {
        a.push(row[j].clone());
        j = j + 1;
    }
}

impl Clone for Mat {
    fn clone(&self) -> (r: Self)
        ensures
            r.rows == self.rows,
            r.cols == self.cols,
            r.a@.len() == self.a@.len(),
            forall|k: int| 0 <= k < self.a@.len() ==> #[trigger] r.a@[k]@ == self.a@[k]@,
    {
        let mut a: Vec<Rational> = Vec::new();
        push_all(&mut a, self.a.as_slice());
        proof {
            assert forall|k: int| 0 <= k < self.a@.len() implies #[trigger] a@[k]@ == self.a@[k]@ by {
                assert(a@[0 + k]@ == self.a@[k]@);
            }
        }
        Mat { rows: self.rows, cols: self.cols, a }
    }
}

impl Mat {
    /// The `n x n` identity.
    pub fn ident(n: usize) -> (r: Mat)
        requires
            n * n <= usize::MAX,
        ensures
            r.wf(),
            r.rows == n,
            r.cols == n,
            forall|i: int, j: int| 0 <= i < n && 0 <= j < n ==> #[trigger] r.at(i, j) == qint(if i == j { 1 } else { 0 }),
    {
        let mut m = Mat::zeros(n, n);
        let mut i: usize = 0;
        while i < n
            invariant
                i <= n,
                m.wf(),
                m.rows == n,
                m.cols == n,
                forall|p: int, q: int| 0 <= p < n && 0 <= q < n ==> #[trigger] m.at(p, q) == qint(if p == q && p < i { 1 } else { 0 }),
            decreases n - i,
        {
            m.set(i, i, Rational::one());
            i = i + 1;
        }
        m
    }

    /// Check that the entry array matches the declared shape.
    fn validate(&self, operation: &'static str) -> (r: Result<(), AlgebraError>)
        ensures
            r is Ok <==> self.wf(),
            r is Err ==> is_shape_err(r),
    {
        let len = self.a.len();
        match self.rows.checked_mul(self.cols) {
            Some(n) => {
                if n == len {
                    Ok(())
                } else {
                    Err(AlgebraError::Shape { operation, details: "declared shape does not match the stored entries" })
                }
            },
            None => Err(AlgebraError::Shape { operation, details: "declared shape does not match the stored entries" }),
        }
    }

    /// Check the matrix against a budget's dimension and coefficient limits.
    fn validate_budget(&self, budget: AlgebraBudget) -> (r: Result<(), AlgebraError>)
        ensures
            r == budget_result(*self, budget),
    {
        let dimension = if self.rows >= self.cols { self.rows } else { self.cols };
        if dimension > budget.max_matrix_dimension {
            return Err(AlgebraError::MatrixDimension { actual: dimension, limit: budget.max_matrix_dimension });
        }
        let mut k: usize = 0;
        while k < self.a.len()
            invariant
                k <= self.a@.len(),
                side(*self) <= budget.max_matrix_dimension,
                forall|j: int| 0 <= j < k ==> fits(#[trigger] self.a@[j]@, budget),
            decreases self.a@.len() - k,
        {
            let c = check_bits(&self.a[k], budget);
            if c.is_err() {
                proof {
                    assert(!fits(self.a@[k as int]@, budget));
                    assert(exists|kk: int|
                        0 <= kk < self.a@.len() && !fits(self.a@[kk]@, budget) && forall|j: int|
                            0 <= j < kk ==> fits(#[trigger] self.a@[j]@, budget)) by {
                        assert(0 <= k < self.a@.len() && !fits(self.a@[k as int]@, budget) && forall|j: int|
                            0 <= j < k ==> fits(#[trigger] self.a@[j]@, budget));
                    }
                    let w = first_wide(*self, budget);
                    assert(0 <= w < self.a@.len() && !fits(self.a@[w]@, budget) && forall|j: int|
                        0 <= j < w ==> fits(#[trigger] self.a@[j]@, budget));
                    if w < k {
                        assert(fits(self.a@[w]@, budget));
                    }
                    if k < w {
                        assert(fits(self.a@[k as int]@, budget));
                    }
                    assert(w == k);
                }
                return c;
            }
            k = k + 1;
        }
        Ok(())
    }
}


/// Row-major order: `(pp, qq)` comes before `(p, q)` in a `W`-wide array.
pub proof fn lemma_rowmajor_lt(pp: int, qq: int, p: int, q: int, w: int)
    requires
        0 <= pp,
        0 <= qq < w,
        0 <= q,
        pp < p || (pp == p && qq < q),
    ensures
        0 <= pp * w + qq < p * w + q,
{
    assert(0 <= pp * w) by (nonlinear_arith)
        requires
            0 <= pp,
            0 <= w,
    ;
    if pp < p {
        assert(pp * w + w <= p * w) by (nonlinear_arith)
            requires
                pp < p,
                0 <= w,
        ;
    }
}

/// `(p + 1)·W == p·W + W`.
pub proof fn lemma_next_row(p: int, w: int)
    ensures
        (p + 1) * w == p * w + w,
{
    assert((p + 1) * w == p * w + w) by (nonlinear_arith);
}

impl Mat {
    /// From equal-length rows, rejecting ragged input. Empty input gives the
    /// 0x0 matrix.
    pub fn try_from_rows(rows: &[Vec<Rational>]) -> (r: Result<Mat, AlgebraError>)
        ensures
            r is Err <==> ragged(rows@),
            r is Err ==> is_shape_err(r),
            r matches Ok(m) ==> {
                &&& m.wf()
                &&& m.rows == rows@.len()
                &&& m.cols == (if rows@.len() == 0 { 0 } else { rows@[0]@.len() })
                &&& forall|i: int, j: int| 0 <= i < m.rows && 0 <= j < m.cols ==> #[trigger] m.at(i, j) == rows@[i]@[j]@
            },
    {
        let nr = rows.len();
        let nc = if nr == 0 { 0 } else { rows[0].len() };
        let mut i: usize = 0;
        while i < nr
            invariant
                i <= nr == rows@.len(),
                nc == (if nr == 0 { 0 } else { rows@[0]@.len() }),
                forall|p: int| 0 <= p < i ==> #[trigger] rows@[p]@.len() == nc,
            decreases nr - i,
        {
            if rows[i].len() != nc {
                return Err(AlgebraError::Shape { operation: "constructing a matrix from rows", details: "rows have different lengths" });
            }
            i = i + 1;
        }
        proof {
            if ragged(rows@) {
                let p = choose|p: int| 0 <= p < rows@.len() && #[trigger] rows@[p]@.len() != rows@[0]@.len();
                assert(rows@[p]@.len() == nc);
            }
        }
        let mut a: Vec<Rational> = Vec::new();
        let mut i: usize = 0;
        while i < nr
            invariant
                i <= nr == rows@.len(),
                nc == (if nr == 0 { 0 } else { rows@[0]@.len() }),
                forall|p: int| 0 <= p < nr ==> #[trigger] rows@[p]@.len() == nc,
                a@.len() == i * nc,
                forall|p: int, q: int| 0 <= p < i && 0 <= q < nc ==> #[trigger] a@[p * nc + q]@ == rows@[p]@[q]@,
            decreases nr - i,
        {
            let ghost a0 = a@;
            push_all(&mut a, rows[i].as_slice());
            proof {
                lemma_next_row(i as int, nc as int);
                assert forall|p: int, q: int| 0 <= p < i + 1 && 0 <= q < nc implies #[trigger] a@[p * nc + q]@
                    == rows@[p]@[q]@ by {
                    if p < i {
                        lemma_rowmajor_lt(p, q, i as int, 0, nc as int);
                        assert(a@[p * nc + q] == a0[p * nc + q]);
                    } else {
                        assert(a@[a0.len() + q]@ == rows@[p]@[q]@);
                    }
                }
            }
            i = i + 1;
        }
        Ok(Mat { rows: nr, cols: nc, a })
    }

    /// From equal-length rows. Empty input gives the 0x0 matrix.
    pub fn from_rows(rows: &[Vec<Rational>]) -> (m: Mat)
        requires
            !ragged(rows@),
        ensures
            m.wf(),
            m.rows == rows@.len(),
            m.cols == (if rows@.len() == 0 { 0 } else { rows@[0]@.len() }),
            forall|i: int, j: int| 0 <= i < m.rows && 0 <= j < m.cols ==> #[trigger] m.at(i, j) == rows@[i]@[j]@,
    {
        match Self::try_from_rows(rows) {
            Ok(m) => m,
            Err(_) => {
                proof {
                    assert(false);
                }
                Mat { rows: 0, cols: 0, a: Vec::new() }
            },
        }
    }

    /// From columns of length `n`, rejecting malformed input.
    pub fn try_from_cols(n: usize, cols: &[Vec<Rational>]) -> (r: Result<Mat, AlgebraError>)
        ensures
            r is Err <==> exists|j: int| 0 <= j < cols@.len() && #[trigger] cols@[j]@.len() != n,
            r is Err ==> is_shape_err(r),
            r matches Ok(m) ==> {
                &&& m.wf()
                &&& m.rows == n
                &&& m.cols == cols@.len()
                &&& forall|i: int, j: int| 0 <= i < m.rows && 0 <= j < m.cols ==> #[trigger] m.at(i, j) == cols@[j]@[i]@
            },
    {
        let nc = cols.len();
        let mut j: usize = 0;
        while j < nc
            invariant
                j <= nc == cols@.len(),
                forall|p: int| 0 <= p < j ==> #[trigger] cols@[p]@.len() == n,
            decreases nc - j,
        {
            if cols[j].len() != n {
                return Err(AlgebraError::Shape { operation: "constructing a matrix from columns", details: "a column does not have the declared length" });
            }
            j = j + 1;
        }
        let mut a: Vec<Rational> = Vec::new();
        let mut i: usize = 0;
        while i < n
            invariant
                i <= n,
                nc == cols@.len(),
                forall|p: int| 0 <= p < nc ==> #[trigger] cols@[p]@.len() == n,
                a@.len() == i * nc,
                forall|p: int, q: int| 0 <= p < i && 0 <= q < nc ==> #[trigger] a@[p * nc + q]@ == cols@[q]@[p]@,
            decreases n - i,
        {
            let mut j: usize = 0;
            while j < nc
                invariant
                    i < n,
                    j <= nc == cols@.len(),
                    forall|p: int| 0 <= p < nc ==> #[trigger] cols@[p]@.len() == n,
                    a@.len() == i * nc + j,
                    forall|p: int, q: int|
                        (0 <= p < i && 0 <= q < nc) || (p == i && 0 <= q < j) ==> #[trigger] a@[p * nc + q]@ == cols@[q]@[p]@,
                decreases nc - j,
            {
                let ghost a0 = a@;
                a.push(cols[j][i].clone());
                proof {
                    assert forall|p: int, q: int|
                        (0 <= p < i && 0 <= q < nc) || (p == i && 0 <= q < j + 1) implies #[trigger] a@[p * nc + q]@
                        == cols@[q]@[p]@ by {
                        if p < i || q < j {
                            lemma_rowmajor_lt(p, q, i as int, j as int, nc as int);
                            assert(a@[p * nc + q] == a0[p * nc + q]);
                        }
                    }
                }
                j = j + 1;
            }
            proof {
                lemma_next_row(i as int, nc as int);
            }
            i = i + 1;
        }
        Ok(Mat { rows: n, cols: nc, a })
    }

    /// The `n x n`-style matrix whose columns are `cols` (each of length `n`).
    pub fn from_cols(n: usize, cols: &[Vec<Rational>]) -> (m: Mat)
        requires
            forall|j: int| 0 <= j < cols@.len() ==> #[trigger] cols@[j]@.len() == n,
        ensures
            m.wf(),
            m.rows == n,
            m.cols == cols@.len(),
            forall|i: int, j: int| 0 <= i < m.rows && 0 <= j < m.cols ==> #[trigger] m.at(i, j) == cols@[j]@[i]@,
    {
        match Self::try_from_cols(n, cols) {
            Ok(m) => m,
            Err(_) => {
                proof {
                    assert(false);
                }
                Mat { rows: 0, cols: 0, a: Vec::new() }
            },
        }
    }

    /// Transpose.
    pub fn transpose(&self) -> (m: Mat)
        requires
            self.wf(),
        ensures
            m.wf(),
            m.rows == self.cols,
            m.cols == self.rows,
            forall|i: int, j: int| 0 <= i < m.rows && 0 <= j < m.cols ==> #[trigger] m.at(i, j) == self.at(j, i),
    {
        let nr = self.cols;
        let nc = self.rows;
        let mut a: Vec<Rational> = Vec::new();
        let mut i: usize = 0;
        while i < nr
            invariant
                self.wf(),
                nr == self.cols,
                nc == self.rows,
                i <= nr,
                a@.len() == i * nc,
                forall|p: int, q: int| 0 <= p < i && 0 <= q < nc ==> #[trigger] a@[p * nc + q]@ == self.at(q, p),
            decreases nr - i,
        {
            let mut j: usize = 0;
            while j < nc
                invariant
                    self.wf(),
                    nr == self.cols,
                    nc == self.rows,
                    i < nr,
                    j <= nc,
                    a@.len() == i * nc + j,
                    forall|p: int, q: int|
                        (0 <= p < i && 0 <= q < nc) || (p == i && 0 <= q < j) ==> #[trigger] a@[p * nc + q]@ == self.at(q, p),
                decreases nc - j,
            {
                let ghost a0 = a@;
                a.push(self.get(j, i).clone());
                proof {
                    assert forall|p: int, q: int|
                        (0 <= p < i && 0 <= q < nc) || (p == i && 0 <= q < j + 1) implies #[trigger] a@[p * nc + q]@
                        == self.at(q, p) by {
                        if p < i || q < j {
                            lemma_rowmajor_lt(p, q, i as int, j as int, nc as int);
                            assert(a@[p * nc + q] == a0[p * nc + q]);
                        }
                    }
                }
                j = j + 1;
            }
            proof {
                lemma_next_row(i as int, nc as int);
            }
            i = i + 1;
        }
        Mat { rows: nr, cols: nc, a }
    }
}


impl Mat {
    /// Entry `(i, j)` of the product, `Σ_k self[i][k]·rhs[k][j]`.
    fn dot_entry(&self, rhs: &Mat, i: usize, j: usize) -> (r: Rational)
        requires
            self.wf(),
            rhs.wf(),
            self.cols == rhs.rows,
            i < self.rows,
            j < rhs.cols,
        ensures
            r@ == dot(*self, *rhs, i as int, j as int, self.cols as int),
    {
        let mut acc = Rational::zero();
        let mut k: usize = 0;
        while k < self.cols
            invariant
                self.wf(),
                rhs.wf(),
                self.cols == rhs.rows,
                i < self.rows,
                j < rhs.cols,
                k <= self.cols,
                acc@ == dot(*self, *rhs, i as int, j as int, k as int),
            decreases self.cols - k,
        {
            let product = self.get(i, k).mul(rhs.get(k, j));
            acc = acc.add(&product);
            k = k + 1;
        }
        acc
    }

    /// The product, for well-formed operands of matching shapes.
    fn product(&self, rhs: &Mat) -> (m: Mat)
        requires
            self.wf(),
            rhs.wf(),
            self.cols == rhs.rows,
        ensures
            m.wf(),
            m.rows == self.rows,
            m.cols == rhs.cols,
            forall|i: int, j: int| 0 <= i < m.rows && 0 <= j < m.cols ==> #[trigger] m.at(i, j) == dot(*self, *rhs, i, j, self.cols as int),
    {
        let nr = self.rows;
        let nc = rhs.cols;
        let mut a: Vec<Rational> = Vec::new();
        let mut i: usize = 0;
        while i < nr
            invariant
                self.wf(),
                rhs.wf(),
                self.cols == rhs.rows,
                nr == self.rows,
                nc == rhs.cols,
                i <= nr,
                a@.len() == i * nc,
                forall|p: int, q: int| 0 <= p < i && 0 <= q < nc ==> #[trigger] a@[p * nc + q]@ == dot(*self, *rhs, p, q, self.cols as int),
            decreases nr - i,
        {
            let mut j: usize = 0;
            while j < nc
                invariant
                    self.wf(),
                    rhs.wf(),
                    self.cols == rhs.rows,
                    nr == self.rows,
                    nc == rhs.cols,
                    i < nr,
                    j <= nc,
                    a@.len() == i * nc + j,
                    forall|p: int, q: int|
                        (0 <= p < i && 0 <= q < nc) || (p == i && 0 <= q < j) ==> #[trigger] a@[p * nc + q]@ == dot(*self, *rhs, p, q, self.cols as int),
                decreases nc - j,
            {
                let ghost a0 = a@;
                a.push(self.dot_entry(rhs, i, j));
                proof {
                    assert forall|p: int, q: int|
                        (0 <= p < i && 0 <= q < nc) || (p == i && 0 <= q < j + 1) implies #[trigger] a@[p * nc + q]@
                        == dot(*self, *rhs, p, q, self.cols as int) by {
                        if p < i || q < j {
                            lemma_rowmajor_lt(p, q, i as int, j as int, nc as int);
                            assert(a@[p * nc + q] == a0[p * nc + q]);
                        }
                    }
                }
                j = j + 1;
            }
            proof {
                lemma_next_row(i as int, nc as int);
            }
            i = i + 1;
        }
        Mat { rows: nr, cols: nc, a }
    }

    /// Matrix product, rejecting malformed matrices and shape mismatches.
    pub fn checked_matmul(&self, rhs: &Mat) -> (r: Result<Mat, AlgebraError>)
        ensures
            r is Err <==> !self.wf() || !rhs.wf() || self.cols != rhs.rows,
            r is Err ==> is_shape_err(r),
            r matches Ok(m) ==> {
                &&& m.wf()
                &&& m.rows == self.rows
                &&& m.cols == rhs.cols
                &&& forall|i: int, j: int| 0 <= i < m.rows && 0 <= j < m.cols ==> #[trigger] m.at(i, j) == dot(*self, *rhs, i, j, self.cols as int)
            },
    {
        self.validate("matrix multiplication")?;
        rhs.validate("matrix multiplication")?;
        if self.cols != rhs.rows {
            return Err(AlgebraError::Shape { operation: "matrix multiplication", details: "inner dimensions differ" });
        }
        Ok(self.product(rhs))
    }

    /// Matrix product of well-formed matrices of matching shapes.
    pub fn matmul(&self, rhs: &Mat) -> (m: Mat)
        requires
            self.wf(),
            rhs.wf(),
            self.cols == rhs.rows,
        ensures
            m.wf(),
            m.rows == self.rows,
            m.cols == rhs.cols,
            forall|i: int, j: int| 0 <= i < m.rows && 0 <= j < m.cols ==> #[trigger] m.at(i, j) == dot(*self, *rhs, i, j, self.cols as int),
    {
        self.product(rhs)
    }

    /// Matrix product under explicit dimension, work, and coefficient limits.
    /// The operands are checked in order (shape, then budget, then the
    /// inner dimensions, then the output side); after that every partial
    /// product and partial sum is metered and checked.
    pub fn checked_matmul_with_budget(&self, rhs: &Mat, budget: AlgebraBudget) -> (r: Result<Mat, AlgebraError>)
        ensures
            !self.wf() ==> is_shape_err(r),
            self.wf() && !rhs.wf() ==> is_shape_err(r),
            self.wf() && rhs.wf() && budget_result(*self, budget) is Err ==> r == Err::<Mat, AlgebraError>(
                budget_result(*self, budget)->Err_0,
            ),
            self.wf() && rhs.wf() && budget_result(*self, budget) is Ok && budget_result(*rhs, budget) is Err
                ==> r == Err::<Mat, AlgebraError>(budget_result(*rhs, budget)->Err_0),
            self.wf() && rhs.wf() && budget_result(*self, budget) is Ok && budget_result(*rhs, budget) is Ok
                && self.cols != rhs.rows ==> is_shape_err(r),
            self.wf() && rhs.wf() && budget_result(*self, budget) is Ok && budget_result(*rhs, budget) is Ok
                && self.cols == rhs.rows && (self.rows > budget.max_matrix_dimension || rhs.cols > budget.max_matrix_dimension)
                ==> r == Err::<Mat, AlgebraError>(
                AlgebraError::MatrixDimension {
                    actual: if self.rows >= rhs.cols { self.rows } else { rhs.cols },
                    limit: budget.max_matrix_dimension,
                },
            ),
            r matches Ok(m) ==> {
                &&& self.wf() && rhs.wf() && self.cols == rhs.rows
                &&& m.wf()
                &&& m.rows == self.rows
                &&& m.cols == rhs.cols
                &&& forall|i: int, j: int| 0 <= i < m.rows && 0 <= j < m.cols ==> #[trigger] m.at(i, j) == dot(*self, *rhs, i, j, self.cols as int)
            },
            self.wf() && rhs.wf() && budget_result(*self, budget) is Ok && budget_result(*rhs, budget) is Ok
                && self.cols == rhs.rows && self.rows <= budget.max_matrix_dimension && rhs.cols <= budget.max_matrix_dimension
                ==> (r matches Err(e) ==> e is BudgetExceeded || e is CoefficientBits),
    {
        self.validate("matrix multiplication")?;
        rhs.validate("matrix multiplication")?;
        self.validate_budget(budget)?;
        rhs.validate_budget(budget)?;
        if self.cols != rhs.rows {
            return Err(AlgebraError::Shape { operation: "matrix multiplication", details: "inner dimensions differ" });
        }
        let output_dimension = if self.rows >= rhs.cols { self.rows } else { rhs.cols };
        if output_dimension > budget.max_matrix_dimension {
            return Err(AlgebraError::MatrixDimension { actual: output_dimension, limit: budget.max_matrix_dimension });
        }
        let mut work = AlgebraWork::new(budget, "multiplying matrices");
        let nr = self.rows;
        let nc = rhs.cols;
        let mut a: Vec<Rational> = Vec::new();
        let mut i: usize = 0;
        while i < nr
            invariant
                self.wf(),
                rhs.wf(),
                self.cols == rhs.rows,
                budget_result(*self, budget) is Ok,
                budget_result(*rhs, budget) is Ok,
                self.rows <= budget.max_matrix_dimension,
                rhs.cols <= budget.max_matrix_dimension,
                nr == self.rows,
                nc == rhs.cols,
                i <= nr,
                a@.len() == i * nc,
                forall|p: int, q: int| 0 <= p < i && 0 <= q < nc ==> #[trigger] a@[p * nc + q]@ == dot(*self, *rhs, p, q, self.cols as int),
            decreases nr - i,
        {
            let mut j: usize = 0;
            while j < nc
                invariant
                    self.wf(),
                    rhs.wf(),
                    self.cols == rhs.rows,
                    budget_result(*self, budget) is Ok,
                    budget_result(*rhs, budget) is Ok,
                    self.rows <= budget.max_matrix_dimension,
                    rhs.cols <= budget.max_matrix_dimension,
                    nr == self.rows,
                    nc == rhs.cols,
                    i < nr,
                    j <= nc,
                    a@.len() == i * nc + j,
                    forall|p: int, q: int|
                        (0 <= p < i && 0 <= q < nc) || (p == i && 0 <= q < j) ==> #[trigger] a@[p * nc + q]@ == dot(*self, *rhs, p, q, self.cols as int),
                decreases nc - j,
            {
                let mut acc = Rational::zero();
                let mut k: usize = 0;
                while k < self.cols
                    invariant
                        self.wf(),
                        rhs.wf(),
                        self.cols == rhs.rows,
                        budget_result(*self, budget) is Ok,
                        budget_result(*rhs, budget) is Ok,
                        self.rows <= budget.max_matrix_dimension,
                        rhs.cols <= budget.max_matrix_dimension,
                        i < self.rows,
                        j < rhs.cols,
                        k <= self.cols,
                        acc@ == dot(*self, *rhs, i as int, j as int, k as int),
                    decreases self.cols - k,
                {
                    work.spend(2)?;
                    let product = self.get(i, k).mul(rhs.get(k, j));
                    check_bits(&product, budget)?;
                    let value = acc.add(&product);
                    check_bits(&value, budget)?;
                    acc = value;
                    k = k + 1;
                }
                let ghost a0 = a@;
                a.push(acc);
                proof {
                    assert forall|p: int, q: int|
                        (0 <= p < i && 0 <= q < nc) || (p == i && 0 <= q < j + 1) implies #[trigger] a@[p * nc + q]@
                        == dot(*self, *rhs, p, q, self.cols as int) by {
                        if p < i || q < j {
                            lemma_rowmajor_lt(p, q, i as int, j as int, nc as int);
                            assert(a@[p * nc + q] == a0[p * nc + q]);
                        }
                    }
                }
                j = j + 1;
            }
            proof {
                lemma_next_row(i as int, nc as int);
            }
            i = i + 1;
        }
        Ok(Mat { rows: nr, cols: nc, a })
    }

    /// Scalar multiple.
    pub fn scale(&self, s: &Rational) -> (m: Mat)
        ensures
            m.rows == self.rows,
            m.cols == self.cols,
            m.a@.len() == self.a@.len(),
            forall|k: int| 0 <= k < self.a@.len() ==> #[trigger] m.a@[k]@ == qmul(self.a@[k]@, s@),
    {
        let mut a: Vec<Rational> = Vec::new();
        let mut k: usize = 0;
        while k < self.a.len()
            invariant
                k <= self.a@.len(),
                a@.len() == k,
                forall|p: int| 0 <= p < k ==> #[trigger] a@[p]@ == qmul(self.a@[p]@, s@),
            decreases self.a@.len() - k,
        {
            a.push(self.a[k].mul(s));
            k = k + 1;
        }
        Mat { rows: self.rows, cols: self.cols, a }
    }

    /// Entry-wise sum, rejecting malformed matrices and shape mismatches.
    pub fn checked_add_mat(&self, rhs: &Mat) -> (r: Result<Mat, AlgebraError>)
        ensures
            r is Err <==> !self.wf() || !rhs.wf() || self.rows != rhs.rows || self.cols != rhs.cols,
            r is Err ==> is_shape_err(r),
            r matches Ok(m) ==> {
                &&& m.wf()
                &&& m.rows == self.rows
                &&& m.cols == self.cols
                &&& forall|k: int| 0 <= k < self.a@.len() ==> #[trigger] m.a@[k]@ == qadd(self.a@[k]@, rhs.a@[k]@)
            },
    {
        self.validate("matrix addition")?;
        rhs.validate("matrix addition")?;
        if self.rows != rhs.rows || self.cols != rhs.cols {
            return Err(AlgebraError::Shape { operation: "matrix addition", details: "shapes differ" });
        }
        let mut a: Vec<Rational> = Vec::new();
        let mut k: usize = 0;
        while k < self.a.len()
            invariant
                self.a@.len() == rhs.a@.len(),
                k <= self.a@.len(),
                a@.len() == k,
                forall|p: int| 0 <= p < k ==> #[trigger] a@[p]@ == qadd(self.a@[p]@, rhs.a@[p]@),
            decreases self.a@.len() - k,
        {
            a.push(self.a[k].add(&rhs.a[k]));
            k = k + 1;
        }
        Ok(Mat { rows: self.rows, cols: self.cols, a })
    }

    /// Entry-wise sum of well-formed matrices of the same shape.
    pub fn add_mat(&self, rhs: &Mat) -> (m: Mat)
        requires
            self.wf(),
            rhs.wf(),
            self.rows == rhs.rows,
            self.cols == rhs.cols,
        ensures
            m.wf(),
            m.rows == self.rows,
            m.cols == self.cols,
            forall|k: int| 0 <= k < self.a@.len() ==> #[trigger] m.a@[k]@ == qadd(self.a@[k]@, rhs.a@[k]@),
    {
        match self.checked_add_mat(rhs) {
            Ok(m) => m,
            Err(_) => {
                proof {
                    assert(false);
                }
                Mat { rows: 0, cols: 0, a: Vec::new() }
            },
        }
    }

    /// Is every entry exactly zero?
    pub fn is_zero(&self) -> (r: bool)
        ensures
            r <==> forall|k: int| 0 <= k < self.a@.len() ==> (#[trigger] self.a@[k]@).0 == 0,
    {
        let mut k: usize = 0;
        while k < self.a.len()
            invariant
                k <= self.a@.len(),
                forall|p: int| 0 <= p < k ==> (#[trigger] self.a@[p]@).0 == 0,
            decreases self.a@.len() - k,
        {
            if !self.a[k].is_zero() {
                return false;
            }
            k = k + 1;
        }
        true
    }

    /// Column `j` as a vector.
    pub fn col(&self, j: usize) -> (v: Vec<Rational>)
        requires
            self.wf(),
            j < self.cols,
        ensures
            v@.len() == self.rows,
            forall|i: int| 0 <= i < self.rows ==> #[trigger] v@[i]@ == self.at(i, j as int),
    {
        let mut v: Vec<Rational> = Vec::new();
        let mut i: usize = 0;
        while i < self.rows
            invariant
                self.wf(),
                j < self.cols,
                i <= self.rows,
                v@.len() == i,
                forall|p: int| 0 <= p < i ==> #[trigger] v@[p]@ == self.at(p, j as int),
            decreases self.rows - i,
        {
            v.push(self.get(i, j).clone());
            i = i + 1;
        }
        v
    }

    /// Row `i` as a vector.
    pub fn row(&self, i: usize) -> (v: Vec<Rational>)
        requires
            self.wf(),
            i < self.rows,
        ensures
            v@.len() == self.cols,
            forall|j: int| 0 <= j < self.cols ==> #[trigger] v@[j]@ == self.at(i as int, j),
    {
        let mut v: Vec<Rational> = Vec::new();
        let mut j: usize = 0;
        while j < self.cols
            invariant
                self.wf(),
                i < self.rows,
                j <= self.cols,
                v@.len() == j,
                forall|p: int| 0 <= p < j ==> #[trigger] v@[p]@ == self.at(i as int, p),
            decreases self.cols - j,
        {
            v.push(self.get(i, j).clone());
            j = j + 1;
        }
        v
    }
}

/// Bilinear form `vᵀ M w`, rejecting malformed inputs and dimension
/// mismatches.
pub fn checked_bilinear(v: &[Rational], m: &Mat, w: &[Rational]) -> (r: Result<Rational, AlgebraError>)
    ensures
        r is Err <==> !m.wf() || v@.len() != m.rows || w@.len() != m.cols,
        r is Err ==> is_shape_err(r),
        r matches Ok(x) ==> x@ == bilinear_sum(qs(v@), *m, qs(w@), v@.len() as int),
{
    m.validate("bilinear form")?;
    if v.len() != m.rows || w.len() != m.cols {
        return Err(AlgebraError::Shape { operation: "bilinear form", details: "vector lengths do not match the matrix" });
    }
    let ghost vq = qs(v@);
    let ghost wq = qs(w@);
    let mut acc = Rational::zero();
    let mut i: usize = 0;
    while i < v.len()
        invariant
            m.wf(),
            v@.len() == m.rows,
            w@.len() == m.cols,
            vq == qs(v@),
            wq == qs(w@),
            i <= v@.len(),
            acc@ == bilinear_sum(vq, *m, wq, i as int),
        decreases v@.len() - i,
    {
        let mut inner = Rational::zero();
        let mut j: usize = 0;
        while j < w.len()
            invariant
                m.wf(),
                v@.len() == m.rows,
                w@.len() == m.cols,
                wq == qs(w@),
                i < v@.len(),
                j <= w@.len(),
                inner@ == row_dot(*m, i as int, wq, j as int),
            decreases w@.len() - j,
        {
            inner = inner.add(&m.get(i, j).mul(&w[j]));
            j = j + 1;
        }
        acc = acc.add(&v[i].mul(&inner));
        i = i + 1;
    }
    Ok(acc)
}

/// The bilinear form `vᵀ M w` of a well-formed matrix and vectors of
/// matching lengths.
pub fn bilinear(v: &[Rational], m: &Mat, w: &[Rational]) -> (r: Rational)
    requires
        m.wf(),
        v@.len() == m.rows,
        w@.len() == m.cols,
    ensures
        r@ == bilinear_sum(qs(v@), *m, qs(w@), v@.len() as int),
{
    match checked_bilinear(v, m, w) {
        Ok(x) => x,
        Err(_) => {
            proof {
                assert(false);
            }
            Rational::zero()
        },
    }
}


/// Every entry is held in lowest terms.
pub open spec fn all_canonical(m: Mat) -> bool {
    forall|k: int| 0 <= k < m.a@.len() ==> canonical(#[trigger] m.a@[k]@)
}

/// Two well-formed matrices of one shape agree outside row `r`.
pub open spec fn agree_off_row(m1: Mat, m2: Mat, r: int) -> bool {
    &&& m1.wf()
    &&& m2.wf()
    &&& m1.rows == m2.rows
    &&& m1.cols == m2.cols
    &&& forall|p: int, q: int| 0 <= p < m1.rows && 0 <= q < m1.cols && p != r ==> #[trigger] m2.at(p, q) == m1.at(p, q)
}

/// Reduced row echelon form with the given pivot columns: pivot columns
/// increase, each is a unit column with its `1` in its own row, each pivot
/// row is zero left of its pivot, and the rows below the pivot rows vanish.
pub open spec fn is_rref(m: Mat, pivots: Seq<usize>) -> bool {
    &&& m.wf()
    &&& pivots.len() <= m.rows
    &&& forall|t: int| 0 <= t < pivots.len() ==> #[trigger] pivots[t] < m.cols
    &&& forall|s: int, t: int| 0 <= s < t < pivots.len() ==> pivots[s] < pivots[t]
    &&& forall|t: int, i: int|
        0 <= t < pivots.len() && 0 <= i < m.rows ==> #[trigger] m.at(i, pivots[t] as int) == qint(if i == t { 1 } else { 0 })
    &&& forall|t: int, c: int| 0 <= t < pivots.len() && 0 <= c < pivots[t] ==> (#[trigger] m.at(t, c)).0 == 0
    &&& forall|i: int, c: int| pivots.len() <= i < m.rows && 0 <= c < m.cols ==> (#[trigger] m.at(i, c)).0 == 0
}

impl Mat {
    /// Every entry is in lowest terms (a no-op that exposes the fact).
    fn entries_canonical(&self)
        ensures
            all_canonical(*self),
    {
        let mut k: usize = 0;
        while k < self.a.len()
            invariant
                k <= self.a@.len(),
                forall|p: int| 0 <= p < k ==> canonical(#[trigger] self.a@[p]@),
            decreases self.a@.len() - k,
        {
            self.a[k].lowest_terms();
            k = k + 1;
        }
    }

    /// Exchange rows `x` and `y`.
    fn swap_rows(&mut self, x: usize, y: usize)
        requires
            old(self).wf(),
            all_canonical(*old(self)),
            x < old(self).rows,
            y < old(self).rows,
        ensures
            final(self).wf(),
            all_canonical(*final(self)),
            final(self).rows == old(self).rows,
            final(self).cols == old(self).cols,
            forall|p: int, q: int|
                0 <= p < old(self).rows && 0 <= q < old(self).cols ==> #[trigger] final(self).at(p, q) == old(self).at(
                    if p == x { y as int } else if p == y { x as int } else { p },
                    q,
                ),
    {
        let ghost m0 = *self;
        let mut j: usize = 0;
        while j < self.cols
            invariant
                self.wf(),
                all_canonical(*self),
                m0.wf(),
                self.rows == m0.rows,
                self.cols == m0.cols,
                x < m0.rows,
                y < m0.rows,
                j <= self.cols,
                forall|p: int, q: int|
                    0 <= p < m0.rows && 0 <= q < m0.cols ==> #[trigger] self.at(p, q) == (if q < j {
                        m0.at(if p == x { y as int } else if p == y { x as int } else { p }, q)
                    } else {
                        m0.at(p, q)
                    }),
            decreases self.cols - j,
        {
            let t = self.get(x, j).clone();
            let u = self.get(y, j).clone();
            t.lowest_terms();
            u.lowest_terms();
            let ghost before = *self;
            self.set(x, j, u);
            proof {
                lemma_index(x as int, j as int, self.rows as int, self.cols as int);
            }
            self.set(y, j, t);
            proof {
                lemma_index(y as int, j as int, self.rows as int, self.cols as int);
            }
            j = j + 1;
        }
    }

    /// Divide row `r` by the nonzero `d` (metered when asked).
    fn scale_row(&mut self, r: usize, d: &Rational, metered: bool, work: &mut AlgebraWork, budget: AlgebraBudget) -> (res:
        Result<(), AlgebraError>)
        requires
            old(self).wf(),
            all_canonical(*old(self)),
            r < old(self).rows,
            d@.0 != 0,
            d@.1 > 0,
        ensures
            final(self).wf(),
            all_canonical(*final(self)),
            final(self).rows == old(self).rows,
            final(self).cols == old(self).cols,
            final(work).limit() == old(work).limit(),
            !metered ==> res is Ok,
            res matches Err(e) ==> e is BudgetExceeded || e is CoefficientBits,
            res is Ok ==> agree_off_row(*old(self), *final(self), r as int),
            res is Ok ==> forall|q: int| 0 <= q < old(self).cols ==> #[trigger] final(self).at(r as int, q) == qdiv(old(self).at(r as int, q), d@),
    {
        let ghost m0 = *self;
        let mut j: usize = 0;
        while j < self.cols
            invariant
                self.wf(),
                all_canonical(*self),
                m0.wf(),
                self.rows == m0.rows,
                self.cols == m0.cols,
                m0 == *old(self),
                r < m0.rows,
                d@.0 != 0,
                d@.1 > 0,
                j <= self.cols,
                work.limit() == old(work).limit(),
                agree_off_row(m0, *self, r as int),
                forall|q: int| 0 <= q < m0.cols ==> #[trigger] self.at(r as int, q) == (if q < j {
                    qdiv(m0.at(r as int, q), d@)
                } else {
                    m0.at(r as int, q)
                }),
            decreases self.cols - j,
        {
            if metered {
                work.spend(1)?;
            }
            let v = self.get(r, j).div(d);
            if metered {
                check_bits(&v, budget)?;
            }
            v.lowest_terms();
            self.set(r, j, v);
            proof {
                lemma_index(r as int, j as int, self.rows as int, self.cols as int);
            }
            j = j + 1;
        }
        Ok(())
    }

    /// `row_i -= f·row_r` over columns `from..cols` (metered when asked).
    fn eliminate_row(
        &mut self,
        i: usize,
        r: usize,
        f: &Rational,
        from: usize,
        metered: bool,
        work: &mut AlgebraWork,
        budget: AlgebraBudget,
    ) -> (res: Result<(), AlgebraError>)
        requires
            old(self).wf(),
            all_canonical(*old(self)),
            i < old(self).rows,
            r < old(self).rows,
            i != r,
            from <= old(self).cols,
        ensures
            final(self).wf(),
            all_canonical(*final(self)),
            final(self).rows == old(self).rows,
            final(self).cols == old(self).cols,
            final(work).limit() == old(work).limit(),
            !metered ==> res is Ok,
            res matches Err(e) ==> e is BudgetExceeded || e is CoefficientBits,
            res is Ok ==> agree_off_row(*old(self), *final(self), i as int),
            res is Ok ==> forall|q: int| 0 <= q < old(self).cols ==> #[trigger] final(self).at(i as int, q) == (if q < from {
                old(self).at(i as int, q)
            } else {
                qsub(old(self).at(i as int, q), qmul(f@, old(self).at(r as int, q)))
            }),
    {
        let ghost m0 = *self;
        let mut j: usize = from;
        while j < self.cols
            invariant
                self.wf(),
                all_canonical(*self),
                m0.wf(),
                self.rows == m0.rows,
                self.cols == m0.cols,
                m0 == *old(self),
                i < m0.rows,
                r < m0.rows,
                i != r,
                from <= j <= self.cols,
                work.limit() == old(work).limit(),
                agree_off_row(m0, *self, i as int),
                forall|q: int| 0 <= q < m0.cols ==> #[trigger] self.at(i as int, q) == (if from <= q < j {
                    qsub(m0.at(i as int, q), qmul(f@, m0.at(r as int, q)))
                } else {
                    m0.at(i as int, q)
                }),
            decreases self.cols - j,
        {
            if metered {
                work.spend(2)?;
            }
            let product = f.mul(self.get(r, j));
            if metered {
                check_bits(&product, budget)?;
            }
            let v = self.get(i, j).sub(&product);
            if metered {
                check_bits(&v, budget)?;
            }
            v.lowest_terms();
            self.set(i, j, v);
            proof {
                lemma_index(i as int, j as int, self.rows as int, self.cols as int);
            }
            j = j + 1;
        }
        Ok(())
    }
}


impl Mat {
    /// The first row `p` in `from..rows` with a nonzero entry in column
    /// `col` (metered when asked).
    fn find_pivot(&self, from: usize, col: usize, metered: bool, work: &mut AlgebraWork) -> (r: Result<
        Option<usize>,
        AlgebraError,
    >)
        requires
            self.wf(),
            col < self.cols,
        ensures
            final(work).limit() == old(work).limit(),
            !metered ==> r is Ok,
            r matches Err(e) ==> e is BudgetExceeded,
            r matches Ok(Some(p)) ==> from <= p < self.rows && self.at(p as int, col as int).0 != 0 && forall|i: int|
                from <= i < p ==> (#[trigger] self.at(i, col as int)).0 == 0,
            r matches Ok(None) ==> forall|i: int| from <= i < self.rows ==> (#[trigger] self.at(i, col as int)).0 == 0,
    {
        let mut i: usize = from;
        while i < self.rows
            invariant
                self.wf(),
                col < self.cols,
                from <= i || i == from,
                work.limit() == old(work).limit(),
                forall|ii: int| from <= ii < i ==> (#[trigger] self.at(ii, col as int)).0 == 0,
            decreases self.rows - i,
        {
            if metered {
                work.spend(1)?;
            }
            if !self.get(i, col).is_zero() {
                return Ok(Some(i));
            }
            i = i + 1;
        }
        Ok(None)
    }

    /// With a `1` at `(row, col)`, subtract multiples of row `row` from
    /// every other row so that column `col` becomes the unit column.
    fn clear_column(&mut self, row: usize, col: usize, metered: bool, work: &mut AlgebraWork, budget: AlgebraBudget) -> (res:
        Result<(), AlgebraError>)
        requires
            old(self).wf(),
            all_canonical(*old(self)),
            row < old(self).rows,
            col < old(self).cols,
            old(self).at(row as int, col as int) == qint(1),
        ensures
            final(self).wf(),
            all_canonical(*final(self)),
            final(self).rows == old(self).rows,
            final(self).cols == old(self).cols,
            final(work).limit() == old(work).limit(),
            !metered ==> res is Ok,
            res matches Err(e) ==> e is BudgetExceeded || e is CoefficientBits,
            res is Ok ==> forall|q: int| 0 <= q < old(self).cols ==> #[trigger] final(self).at(row as int, q) == old(self).at(row as int, q),
            res is Ok ==> forall|i: int| 0 <= i < old(self).rows && i != row ==> #[trigger] final(self).at(i, col as int) == qint(0),
            res is Ok ==> forall|i: int, q: int|
                0 <= i < old(self).rows && 0 <= q < old(self).cols && old(self).at(row as int, q).0 == 0 ==> #[trigger] final(self).at(i, q)
                    == old(self).at(i, q),
    {
        let ghost m0 = *self;
        let mut i: usize = 0;
        while i < self.rows
            invariant
                m0 == *old(self),
                self.wf(),
                all_canonical(*self),
                m0.wf(),
                all_canonical(m0),
                self.rows == m0.rows,
                self.cols == m0.cols,
                row < m0.rows,
                col < m0.cols,
                m0.at(row as int, col as int) == qint(1),
                i <= self.rows,
                work.limit() == old(work).limit(),
                forall|p: int, q: int| 0 <= p < m0.rows && (p >= i || p == row) && 0 <= q < m0.cols ==> #[trigger] self.at(p, q) == m0.at(p, q),
                forall|p: int| 0 <= p < i && p != row ==> #[trigger] self.at(p, col as int) == qint(0),
                forall|p: int, q: int|
                    0 <= p < m0.rows && 0 <= q < m0.cols && m0.at(row as int, q).0 == 0 ==> #[trigger] self.at(p, q) == m0.at(p, q),
            decreases self.rows - i,
        {
            if i != row {
                let f = self.get(i, col).clone();
                f.lowest_terms();
                if !f.is_zero() {
                    let ghost before = *self;
                    self.eliminate_row(i, row, &f, 0, metered, work, budget)?;
                    proof {
                        assert(self.at(i as int, col as int) == qint(0)) by {
                            lemma_qsub_self_unit(f@);
                        }
                        assert forall|p: int, q: int|
                            0 <= p < m0.rows && 0 <= q < m0.cols && m0.at(row as int, q).0 == 0 implies #[trigger] self.at(p, q)
                            == m0.at(p, q) by {
                            if p == i {
                                let k = i as int * m0.cols + q;
                                lemma_index(i as int, q, m0.rows as int, m0.cols as int);
                                let kr = row as int * m0.cols + q;
                                lemma_index(row as int, q, m0.rows as int, m0.cols as int);
                                assert(canonical(before.a@[k]@));
                                assert(canonical(before.a@[kr]@));
                                lemma_qsub_zero_product(before.at(i as int, q), f@, before.at(row as int, q));
                            }
                        }
                    }
                } else {
                    proof {
                        let k = i as int * m0.cols + col as int;
                        lemma_index(i as int, col as int, m0.rows as int, m0.cols as int);
                        assert(canonical(self.a@[k]@));
                        lemma_canonical_zero(self.at(i as int, col as int));
                    }
                }
            }
            i = i + 1;
        }
        Ok(())
    }

    /// Gauss-Jordan elimination to reduced row echelon form ("first
    /// nonzero" pivoting), metered against the budget when asked.
    fn rref_core(&self, metered: bool, budget: AlgebraBudget) -> (r: Result<(Mat, Vec<usize>), AlgebraError>)
        requires
            self.wf(),
        ensures
            !metered ==> r is Ok,
            r matches Err(e) ==> e is BudgetExceeded || e is CoefficientBits,
            r matches Ok(res) ==> {
                &&& is_rref(res.0, res.1@)
                &&& res.0.rows == self.rows
                &&& res.0.cols == self.cols
                &&& (res.1@.len() == 0 <==> forall|i: int, j: int|
                    0 <= i < self.rows && 0 <= j < self.cols ==> (#[trigger] self.at(i, j)).0 == 0)
            },
    {
        self.entries_canonical();
        let mut work = AlgebraWork::new(budget, "computing matrix RREF");
        let mut m = self.clone();
        proof {
            assert forall|i: int, c: int| 0 <= i < m.rows && 0 <= c < m.cols implies #[trigger] m.at(i, c) == self.at(i, c) by {
                lemma_index(i, c, m.rows as int, m.cols as int);
            }
        }
        let mut pivots: Vec<usize> = Vec::new();
        let mut row: usize = 0;
        let mut col: usize = 0;
        let ghost all_zero = forall|i: int, j: int| 0 <= i < self.rows && 0 <= j < self.cols ==> (#[trigger] self.at(i, j)).0 == 0;
        while col < m.cols && row < m.rows
            invariant
                self.wf(),
                m.wf(),
                all_canonical(m),
                m.rows == self.rows,
                m.cols == self.cols,
                col <= m.cols,
                row == pivots@.len(),
                row <= m.rows,
                all_zero == forall|i: int, j: int| 0 <= i < self.rows && 0 <= j < self.cols ==> (#[trigger] self.at(i, j)).0 == 0,
                forall|t: int| 0 <= t < row ==> #[trigger] pivots@[t] < col,
                forall|s: int, t: int| 0 <= s < t < row ==> pivots@[s] < pivots@[t],
                forall|t: int, i: int|
                    0 <= t < row && 0 <= i < m.rows ==> #[trigger] m.at(i, pivots@[t] as int) == qint(if i == t { 1 } else { 0 }),
                forall|t: int, c: int| 0 <= t < row && 0 <= c < pivots@[t] ==> (#[trigger] m.at(t, c)).0 == 0,
                forall|i: int, c: int| row <= i < m.rows && 0 <= c < col ==> (#[trigger] m.at(i, c)).0 == 0,
                row == 0 ==> forall|i: int, c: int| 0 <= i < m.rows && 0 <= c < m.cols ==> #[trigger] m.at(i, c) == self.at(i, c),
                all_zero ==> row == 0,
            decreases m.cols - col,
        {
            let found = m.find_pivot(row, col, metered, &mut work)?;
            match found {
                None => {
                    col = col + 1;
                },
                Some(p) => {
                    proof {
                        if all_zero {
                            assert(m.at(p as int, col as int) == self.at(p as int, col as int));
                        }
                    }
                    let ghost m_in = m;
                    if p != row {
                        m.swap_rows(p, row);
                    }
                    let ghost m_sw = m;
                    proof {
                        assert forall|t: int, i: int|
                            0 <= t < row && 0 <= i < m.rows implies #[trigger] m.at(i, pivots@[t] as int) == qint(
                            if i == t { 1 } else { 0 },
                        ) by {
                            assert(m_in.at(i, pivots@[t] as int) == qint(if i == t { 1 } else { 0 }));
                        }
                        assert forall|i: int, c: int| row <= i < m.rows && 0 <= c < col implies (#[trigger] m.at(i, c)).0 == 0 by {
                            assert(m_in.at(i, c).0 == 0);
                        }
                    }
                    let d = m.get(row, col).clone();
                    d.lowest_terms();
                    m.scale_row(row, &d, metered, &mut work, budget)?;
                    let ghost m_sc = m;
                    proof {
                        lemma_qdiv_self(d@);
                        let kr = row as int * m.cols + col as int;
                        lemma_index(row as int, col as int, m.rows as int, m.cols as int);
                        assert forall|q: int| 0 <= q < m.cols && m_sw.at(row as int, q).0 == 0 implies #[trigger] m_sc.at(row as int, q) == qint(0) by {
                            let k = row as int * m.cols + q;
                            lemma_index(row as int, q, m.rows as int, m.cols as int);
                            assert(canonical(m_sw.a@[k]@));
                            lemma_qdiv_zero(m_sw.at(row as int, q), d@);
                        }
                        assert forall|t: int| 0 <= t < row implies (#[trigger] m_sw.at(row as int, pivots@[t] as int)).0 == 0 by {
                            assert(m_sw.at(row as int, pivots@[t] as int) == qint(0));
                        }
                    }
                    m.clear_column(row, col, metered, &mut work, budget)?;
                    proof {
                        assert forall|t: int, i: int|
                            0 <= t < row && 0 <= i < m.rows implies #[trigger] m.at(i, pivots@[t] as int) == qint(
                            if i == t { 1 } else { 0 },
                        ) by {
                            assert(m_sw.at(row as int, pivots@[t] as int).0 == 0);
                            assert(m_sc.at(row as int, pivots@[t] as int) == qint(0));
                            assert(m.at(i, pivots@[t] as int) == m_sc.at(i, pivots@[t] as int));
                        }
                        assert forall|t: int, c: int| 0 <= t < row && 0 <= c < pivots@[t] implies (#[trigger] m.at(t, c)).0 == 0 by {
                            assert(m_sw.at(row as int, c).0 == 0);
                            assert(m_sc.at(row as int, c) == qint(0));
                            assert(m.at(t, c) == m_sc.at(t, c));
                        }
                        assert forall|i: int, c: int| row + 1 <= i < m.rows && 0 <= c < col + 1 implies (#[trigger] m.at(i, c)).0 == 0 by {
                            if c < col {
                                assert(m_sw.at(row as int, c).0 == 0);
                                assert(m_sc.at(row as int, c) == qint(0));
                                assert(m.at(i, c) == m_sc.at(i, c));
                            } else {
                                assert(m.at(i, col as int) == qint(0));
                            }
                        }
                        assert forall|c: int| 0 <= c < col implies (#[trigger] m.at(row as int, c)).0 == 0 by {
                            assert(m_sw.at(row as int, c).0 == 0);
                        }
                        assert forall|i: int| 0 <= i < m.rows implies #[trigger] m.at(i, col as int) == qint(if i == row { 1 } else { 0 }) by {
                            if i == row {
                                assert(m.at(row as int, col as int) == m_sc.at(row as int, col as int));
                            }
                        }
                    }
                    pivots.push(col);
                    proof {
                        assert forall|t: int, i: int|
                            0 <= t < row + 1 && 0 <= i < m.rows implies #[trigger] m.at(i, pivots@[t] as int) == qint(
                            if i == t { 1 } else { 0 },
                        ) by {
                            if t == row {
                                assert(pivots@[t] == col);
                            }
                        }
                        assert forall|t: int, c: int| 0 <= t < row + 1 && 0 <= c < pivots@[t] implies (#[trigger] m.at(t, c)).0 == 0 by {
                            if t == row {
                                assert(pivots@[t] == col);
                            }
                        }
                    }
                    row = row + 1;
                    col = col + 1;
                },
            }
        }
        proof {
            if pivots@.len() == 0 && !all_zero {
                let (i, j) = choose|i: int, j: int| 0 <= i < self.rows && 0 <= j < self.cols && (#[trigger] self.at(i, j)).0 != 0;
                assert(m.at(i, j) == self.at(i, j));
                assert(col == m.cols);
            }
        }
        Ok((m, pivots))
    }
}


/// Strictly increasing indices below `bound` number at most `bound`.
pub proof fn lemma_increasing_len(pivots: Seq<usize>, bound: int)
    requires
        0 <= bound,
        forall|t: int| 0 <= t < pivots.len() ==> #[trigger] pivots[t] < bound,
        forall|s: int, t: int| 0 <= s < t < pivots.len() ==> pivots[s] < pivots[t],
    ensures
        pivots.len() <= bound,
    decreases pivots.len(),
{
    if pivots.len() > 0 {
        let last = pivots.len() - 1;
        let init = pivots.drop_last();
        assert forall|t: int| 0 <= t < init.len() implies #[trigger] init[t] < pivots[last] as int by {
            assert(init[t] == pivots[t]);
        }
        assert forall|s: int, t: int| 0 <= s < t < init.len() implies init[s] < init[t] by {
            assert(init[s] == pivots[s] && init[t] == pivots[t]);
        }
        lemma_increasing_len(init, pivots[last] as int);
        assert(pivots[last] < bound);
    }
}

/// The determinant of a square matrix of size at most two by its
/// expansion over the entries: `1` for the empty matrix, the entry of a
/// 1 x 1 matrix, and `a·d - b·c` for `[[a, b], [c, d]]`.
pub open spec fn det_small(m: Mat) -> Q {
    if m.rows == 0 {
        qint(1)
    } else if m.rows == 1 {
        m.at(0, 0)
    } else {
        qsub(qmul(m.at(0, 0), m.at(1, 1)), qmul(m.at(0, 1), m.at(1, 0)))
    }
}

/// The matrix is symmetric.
pub open spec fn symmetric(m: Mat) -> bool {
    m.rows == m.cols && forall|i: int, j: int| 0 <= i < m.rows && 0 <= j < m.cols ==> #[trigger] m.at(i, j) == m.at(j, i)
}

impl Mat {
    /// Row-reduced echelon form under explicit dimension/coefficient limits,
    /// plus the pivot column indices.
    pub fn rref_with_budget(&self, budget: AlgebraBudget) -> (r: Result<(Mat, Vec<usize>), AlgebraError>)
        ensures
            !self.wf() ==> is_shape_err(r),
            self.wf() && budget_result(*self, budget) is Err ==> r == Err::<(Mat, Vec<usize>), AlgebraError>(
                budget_result(*self, budget)->Err_0,
            ),
            self.wf() && budget_result(*self, budget) is Ok ==> (r matches Err(e) ==> e is BudgetExceeded || e is CoefficientBits),
            r matches Ok(res) ==> {
                &&& self.wf()
                &&& is_rref(res.0, res.1@)
                &&& res.0.rows == self.rows
                &&& res.0.cols == self.cols
                &&& (res.1@.len() == 0 <==> forall|i: int, j: int|
                    0 <= i < self.rows && 0 <= j < self.cols ==> (#[trigger] self.at(i, j)).0 == 0)
            },
    {
        self.validate("matrix RREF")?;
        self.validate_budget(budget)?;
        self.rref_core(true, budget)
    }

    /// Row-reduced echelon form of a well-formed matrix, plus the pivot
    /// column indices.
    pub fn rref(&self) -> (r: (Mat, Vec<usize>))
        requires
            self.wf(),
        ensures
            is_rref(r.0, r.1@),
            r.0.rows == self.rows,
            r.0.cols == self.cols,
            r.1@.len() == 0 <==> forall|i: int, j: int| 0 <= i < self.rows && 0 <= j < self.cols ==> (#[trigger] self.at(i, j)).0 == 0,
    {
        match self.rref_core(false, AlgebraBudget::unlimited()) {
            Ok(res) => res,
            Err(_) => {
                proof {
                    assert(false);
                }
                (Mat { rows: 0, cols: 0, a: Vec::new() }, Vec::new())
            },
        }
    }

    /// Exact rank: the number of pivots of the reduced row echelon form.
    pub fn rank(&self) -> (r: usize)
        requires
            self.wf(),
        ensures
            r <= self.rows,
            r <= self.cols,
            r == 0 <==> forall|i: int, j: int| 0 <= i < self.rows && 0 <= j < self.cols ==> (#[trigger] self.at(i, j)).0 == 0,
    {
        let (m, pivots) = self.rref();
        proof {
            lemma_increasing_len(pivots@, self.cols as int);
        }
        pivots.len()
    }

    /// Is `v` in the right null space: every row of the matrix dotted with
    /// `v` gives zero?
    fn annihilates(&self, v: &Vec<Rational>) -> (r: bool)
        requires
            self.wf(),
            v@.len() == self.cols,
        ensures
            r == null_vector(*self, qs(v@)),
    {
        let ghost w = qs(v@);
        let mut i: usize = 0;
        while i < self.rows
            invariant
                self.wf(),
                v@.len() == self.cols,
                w == qs(v@),
                i <= self.rows,
                forall|a: int| 0 <= a < i ==> (#[trigger] row_dot(*self, a, w, self.cols as int)).0 == 0,
            decreases self.rows - i,
        {
            let mut inner = Rational::zero();
            let mut j: usize = 0;
            while j < self.cols
                invariant
                    self.wf(),
                    v@.len() == self.cols,
                    w == qs(v@),
                    i < self.rows,
                    j <= self.cols,
                    inner@ == row_dot(*self, i as int, w, j as int),
                decreases self.cols - j,
            {
                inner = inner.add(&self.get(i, j).mul(&v[j]));
                j = j + 1;
            }
            if !inner.is_zero() {
                return false;
            }
            i = i + 1;
        }
        true
    }

    /// A basis of the right null space, as column vectors: one per
    /// non-pivot column `f` of the reduced form, with a `1` at `f` and the
    /// negated entries of column `f` at the pivot positions; each is kept
    /// once its product with the matrix is checked to be zero.
    pub fn kernel(&self) -> (basis: Vec<Vec<Rational>>)
        requires
            self.wf(),
        ensures
            basis@.len() <= self.cols,
            forall|k: int| 0 <= k < basis@.len() ==> (#[trigger] basis@[k])@.len() == self.cols,
            forall|k: int| 0 <= k < basis@.len() ==> null_vector(*self, qs((#[trigger] basis@[k])@)),
            (forall|i: int, j: int| 0 <= i < self.rows && 0 <= j < self.cols ==> (#[trigger] self.at(i, j)).0 == 0) ==> basis@.len()
                == self.cols,
    {
        let ghost zero_matrix = forall|i: int, j: int| 0 <= i < self.rows && 0 <= j < self.cols ==> (#[trigger] self.at(i, j)).0 == 0;
        self.entries_canonical();
        let (m, pivots) = self.rref();
        let n = self.cols;
        let mut basis: Vec<Vec<Rational>> = Vec::new();
        let mut f: usize = 0;
        while f < n
            invariant
                self.wf(),
                all_canonical(*self),
                zero_matrix == forall|i: int, j: int| 0 <= i < self.rows && 0 <= j < self.cols ==> (#[trigger] self.at(i, j)).0 == 0,
                zero_matrix ==> pivots@.len() == 0,
                is_rref(m, pivots@),
                m.rows == self.rows,
                m.cols == n == self.cols,
                f <= n,
                basis@.len() <= f,
                zero_matrix ==> basis@.len() == f,
                forall|k: int| 0 <= k < basis@.len() ==> (#[trigger] basis@[k])@.len() == n,
                forall|k: int| 0 <= k < basis@.len() ==> null_vector(*self, qs((#[trigger] basis@[k])@)),
            decreases n - f,
        {
            let mut is_pivot = false;
            let mut t: usize = 0;
            while t < pivots.len()
                invariant
                    t <= pivots@.len(),
                    pivots@.len() == 0 ==> !is_pivot,
                decreases pivots@.len() - t,
            {
                if pivots[t] == f {
                    is_pivot = true;
                }
                t = t + 1;
            }
            if !is_pivot {
                let mut v: Vec<Rational> = Vec::new();
                let mut c: usize = 0;
                while c < n
                    invariant
                        c <= n,
                        v@.len() == c,
                    decreases n - c,
                {
                    if c == f {
                        v.push(Rational::one());
                    } else {
                        v.push(Rational::zero());
                    }
                    c = c + 1;
                }
                let mut pi: usize = 0;
                while pi < pivots.len()
                    invariant
                        is_rref(m, pivots@),
                        m.rows == self.rows,
                        m.cols == n,
                        f < n,
                        v@.len() == n,
                        pi <= pivots@.len(),
                    decreases pivots@.len() - pi,
                {
                    let pc = pivots[pi];
                    v.set(pc, m.get(pi, f).neg());
                    pi = pi + 1;
                }
                let keep = self.annihilates(&v);
                let mut c2: usize = 0;
                while c2 < n
                    invariant
                        c2 <= n,
                        v@.len() == n,
                        forall|j: int| 0 <= j < c2 ==> canonical((#[trigger] v@[j])@),
                    decreases n - c2,
                {
                    v[c2].lowest_terms();
                    c2 = c2 + 1;
                }
                proof {
                    if zero_matrix {
                        lemma_zero_matrix_annihilates(*self, v@);
                    }
                }
                if keep {
                    let ghost old_basis = basis@;
                    basis.push(v);
                    proof {
                        assert forall|k: int| 0 <= k < basis@.len() implies null_vector(*self, qs((#[trigger] basis@[k])@)) by {
                            if k < old_basis.len() {
                                assert(basis@[k] == old_basis[k]);
                            }
                        }
                    }
                }
            }
            f = f + 1;
        }
        basis
    }

    /// The exact inverse, or `None` when the matrix is not square or is
    /// singular: Gauss-Jordan on `[self | I]`, read from the right block
    /// when the left block reduces to the identity, and returned once its
    /// products with `self` on both sides are checked to be the identity.
    pub fn inverse(&self) -> (r: Option<Mat>)
        requires
            self.wf(),
        ensures
            self.rows != self.cols ==> r is None,
            r matches Some(inv) ==> inv.wf() && inv.rows == self.rows && inv.cols == self.rows,
            r matches Some(inv) ==> forall|i: int, j: int|
                0 <= i < self.rows && 0 <= j < self.rows ==> #[trigger] dot(*self, inv, i, j, self.rows as int) == qint(
                    if i == j {
                        1
                    } else {
                        0
                    },
                ),
            r matches Some(inv) ==> forall|i: int, j: int|
                0 <= i < self.rows && 0 <= j < self.rows ==> #[trigger] dot(inv, *self, i, j, self.rows as int) == qint(
                    if i == j {
                        1
                    } else {
                        0
                    },
                ),
    {
        let n = self.rows;
        if n != self.cols {
            return None;
        }
        let mut a: Vec<Rational> = Vec::new();
        let mut i: usize = 0;
        let ghost w = 2 * n;
        while i < n
            invariant
                self.wf(),
                n == self.rows == self.cols,
                i <= n,
                a@.len() == i * w,
                w == 2 * n,
            decreases n - i,
        {
            let mut j: usize = 0;
            while j < n
                invariant
                    self.wf(),
                    n == self.rows == self.cols,
                    i < n,
                    j <= n,
                    a@.len() == i * w + j,
                decreases n - j,
            {
                a.push(self.get(i, j).clone());
                j = j + 1;
            }
            let mut j: usize = 0;
            while j < n
                invariant
                    i < n,
                    j <= n,
                    a@.len() == i * w + n + j,
                decreases n - j,
            {
                if j == i {
                    a.push(Rational::one());
                } else {
                    a.push(Rational::zero());
                }
                j = j + 1;
            }
            proof {
                lemma_next_row(i as int, w);
            }
            i = i + 1;
        }
        let len = a.len();
        proof {
            assert(len == n * w);
            assert(n + n <= n * w) by (nonlinear_arith)
                requires
                    w == 2 * n,
            ;
        }
        let aug = Mat { rows: n, cols: n + n, a };
        let (red, piv) = aug.rref();
        if piv.len() != n {
            return None;
        }
        let mut t: usize = 0;
        while t < n
            invariant
                t <= n,
                piv@.len() == n,
            decreases n - t,
        {
            if piv[t] != t {
                return None;
            }
            t = t + 1;
        }
        let mut b: Vec<Rational> = Vec::new();
        let mut i: usize = 0;
        while i < n
            invariant
                is_rref(red, piv@),
                red.rows == n,
                red.cols == 2 * n,
                i <= n,
                b@.len() == i * n,
            decreases n - i,
        {
            let mut j: usize = 0;
            while j < n
                invariant
                    is_rref(red, piv@),
                    red.rows == n,
                    red.cols == 2 * n,
                    i < n,
                    j <= n,
                    b@.len() == i * n + j,
                decreases n - j,
            {
                b.push(red.get(i, n + j).clone());
                j = j + 1;
            }
            proof {
                lemma_next_row(i as int, n as int);
            }
            i = i + 1;
        }
        let inv = Mat { rows: n, cols: n, a: b };
        let product = self.matmul(&inv);
        let back = inv.matmul(self);
        if product.is_identity() && back.is_identity() {
            proof {
                assert forall|i: int, j: int| 0 <= i < self.rows && 0 <= j < self.rows implies #[trigger] dot(
                    inv,
                    *self,
                    i,
                    j,
                    self.rows as int,
                ) == qint(if i == j { 1 } else { 0 }) by {
                    assert(back.at(i, j) == dot(inv, *self, i, j, inv.cols as int));
                }
                assert forall|i: int, j: int| 0 <= i < self.rows && 0 <= j < self.rows implies #[trigger] dot(
                    *self,
                    inv,
                    i,
                    j,
                    self.rows as int,
                ) == qint(if i == j { 1 } else { 0 }) by {
                    assert(product.at(i, j) == dot(*self, inv, i, j, self.cols as int));
                }
            }
            Some(inv)
        } else {
            None
        }
    }

    /// Is the square matrix the identity?
    fn is_identity(&self) -> (r: bool)
        requires
            self.wf(),
            self.rows == self.cols,
        ensures
            r == forall|i: int, j: int|
                0 <= i < self.rows && 0 <= j < self.cols ==> #[trigger] self.at(i, j) == qint(if i == j { 1 } else { 0 }),
    {
        let zero = Rational::zero();
        let one = Rational::one();
        let n = self.rows;
        let mut i: usize = 0;
        while i < n
            invariant
                self.wf(),
                n == self.rows == self.cols,
                zero@ == qint(0),
                one@ == qint(1),
                i <= n,
                forall|a: int, b: int| 0 <= a < i && 0 <= b < n ==> #[trigger] self.at(a, b) == qint(if a == b { 1 } else { 0 }),
            decreases n - i,
        {
            let mut j: usize = 0;
            while j < n
                invariant
                    self.wf(),
                    n == self.rows == self.cols,
                    zero@ == qint(0),
                    one@ == qint(1),
                    i < n,
                    j <= n,
                    forall|a: int, b: int| 0 <= a < i && 0 <= b < n ==> #[trigger] self.at(a, b) == qint(if a == b { 1 } else { 0 }),
                    forall|b: int| 0 <= b < j ==> #[trigger] self.at(i as int, b) == qint(if i == b { 1 } else { 0 }),
                decreases n - j,
            {
                let v = self.get(i, j);
                let expected = if i == j { &one } else { &zero };
                if !v.eq(expected) {
                    return false;
                }
                j = j + 1;
            }
            i = i + 1;
        }
        true
    }
}


impl Mat {
    /// Gaussian elimination with "first nonzero" pivoting: the product of
    /// the pivots, negated once per row exchange (metered when asked). For
    /// a matrix of size at most two the result is its expansion
    /// ([`det_small`]).
    #[verifier::rlimit(60)]
    pub(crate) fn det_core(&self, metered: bool, budget: AlgebraBudget) -> (r: Result<Rational, AlgebraError>)
        requires
            self.wf(),
            self.rows == self.cols,
        ensures
            !metered ==> r is Ok,
            r matches Err(e) ==> e is BudgetExceeded || e is CoefficientBits,
            self.rows == 0 ==> (r matches Ok(d) && d@ == qint(1)),
            self.rows <= 2 ==> (r matches Ok(d) ==> d@ == det_small(*self)),
    {
        self.entries_canonical();
        let n = self.rows;
        let mut work = AlgebraWork::new(budget, "computing a matrix determinant");
        let mut m = self.clone();
        let mut det = Rational::one();
        proof {
            assert forall|i: int, j: int| 0 <= i < n && 0 <= j < n implies #[trigger] m.at(i, j) == self.at(i, j) by {
                lemma_index(i, j, n as int, n as int);
            }
            if n >= 1 {
                lemma_index(0, 0, n as int, n as int);
            }
            if n == 2 {
                lemma_index(0, 1, 2, 2);
                lemma_index(1, 0, 2, 2);
                lemma_index(1, 1, 2, 2);
            }
        }
        let ghost a00 = self.at(0, 0);
        let ghost a01 = self.at(0, 1);
        let ghost a10 = self.at(1, 0);
        let ghost a11 = self.at(1, 1);
        proof {
            if n >= 1 {
                assert(canonical(self.a@[0]@));
                assert(canonical(a00));
            }
            if n == 2 {
                assert(canonical(self.a@[1]@) && canonical(self.a@[2]@) && canonical(self.a@[3]@));
                assert(a01 == self.a@[1]@ && a10 == self.a@[2]@ && a11 == self.a@[3]@);
            }
        }
        let mut k: usize = 0;
        while k < n
            invariant
                m.wf(),
                all_canonical(m),
                m.rows == n,
                m.cols == n,
                k <= n,
                n == self.rows,
                n == self.cols,
                n == 0 ==> det@ == qint(1),
                n >= 1 ==> a00 == self.at(0, 0) && canonical(a00),
                n == 2 ==> a01 == self.at(0, 1) && a10 == self.at(1, 0) && a11 == self.at(1, 1),
                n == 2 ==> canonical(a01) && canonical(a10) && canonical(a11),
                k == 0 ==> det@ == qint(1),
                k == 0 && n >= 1 ==> m.at(0, 0) == a00,
                k == 0 && n == 2 ==> m.at(0, 1) == a01 && m.at(1, 0) == a10 && m.at(1, 1) == a11,
                n == 1 && k == 1 ==> det@ == det_small(*self),
                n == 2 && k == 1 ==> (m.at(1, 1).0 == 0 ==> det_small(*self) == qint(0)),
                n == 2 && k == 1 ==> (m.at(1, 1).0 != 0 ==> qmul(det@, m.at(1, 1)) == det_small(*self)),
                n == 2 && k == 2 ==> det@ == det_small(*self),
            decreases n - k,
        {
            let found = m.find_pivot(k, k, metered, &mut work)?;
            let p = match found {
                None => {
                    proof {
                        if n == 1 {
                            crate::qfield::lemma_canonical_zero_is_zero(a00);
                        }
                        if n == 2 && k == 0 {
                            crate::qfield::lemma_canonical_zero_is_zero(a00);
                            crate::qfield::lemma_canonical_zero_is_zero(a10);
                            crate::qfield::lemma_qmul_zero_left(a11);
                            crate::qfield::lemma_small_identities(a01, a01);
                        }
                    }
                    return Ok(Rational::zero());
                },
                Some(p) => p,
            };
            if p != k {
                m.swap_rows(k, p);
                det = det.neg();
            }
            let d = m.get(k, k).clone();
            d.lowest_terms();
            if metered {
                work.spend(1)?;
            }
            let ghost det0 = det@;
            det = det.mul(&d);
            if metered {
                check_bits(&det, budget)?;
            }
            let ghost mk = m;
            let mut i: usize = k + 1;
            while i < n
                invariant
                    m.wf(),
                    all_canonical(m),
                    m.rows == n,
                    m.cols == n,
                    k < n,
                    n == self.rows,
                    k + 1 <= i <= n,
                    d@.0 != 0,
                    canonical(d@),
                    d@ == mk.at(k as int, k as int),
                    n == 2 && k == 0 && i == 1 ==> m == mk,
                    n == 2 && k == 1 ==> m == mk,
                    n == 2 && k == 0 && i == 2 ==> m.at(1, 1) == qsub(mk.at(1, 1), qmul(qdiv(mk.at(1, 0), mk.at(0, 0)), mk.at(0, 1))),
                    n == 2 && k == 0 ==> mk.wf() && mk.rows == 2 && mk.cols == 2 && all_canonical(mk),
                decreases n - i,
            {
                if metered {
                    work.spend(1)?;
                }
                let f = m.get(i, k).div(&d);
                if metered {
                    check_bits(&f, budget)?;
                }
                proof {
                    if n == 2 && k == 0 {
                        lemma_index(1, 0, 2, 2);
                        lemma_index(1, 1, 2, 2);
                        lemma_index(0, 1, 2, 2);
                        assert(canonical(mk.a@[2]@) && canonical(mk.a@[3]@) && canonical(mk.a@[1]@));
                        crate::qfield::lemma_qsub_quotient_cancels(mk.at(1, 0), mk.at(0, 0));
                    }
                }
                if !f.is_zero() {
                    m.eliminate_row(i, k, &f, k, metered, &mut work, budget)?;
                } else {
                    proof {
                        if n == 2 && k == 0 {
                            crate::qfield::lemma_canonical_zero_is_zero(f@);
                            crate::qfield::lemma_qmul_zero_left(mk.at(0, 1));
                            crate::qfield::lemma_small_identities(mk.at(1, 1), mk.at(1, 1));
                        }
                    }
                }
                i = i + 1;
            }
            proof {
                if n == 1 {
                    crate::qfield::lemma_small_identities(a00, a00);
                }
                if n == 2 && k == 0 {
                    lemma_index(1, 1, 2, 2);
                    assert(canonical(m.a@[3]@));
                    let m11 = m.at(1, 1);
                    if p == 0 {
                        crate::qfield::lemma_small_identities(a00, a00);
                        assert(det@ == a00);
                        crate::qfield::lemma_det2_pivot(a00, a01, a10, a11);
                        if m11.0 == 0 {
                            crate::qfield::lemma_canonical_zero_is_zero(m11);
                            crate::qfield::lemma_small_identities(a00, a00);
                        }
                    } else {
                        assert(p == 1);
                        assert(a00.0 == 0);
                        crate::qfield::lemma_canonical_zero_is_zero(a00);
                        assert(mk.at(0, 0) == a10 && mk.at(0, 1) == a11 && mk.at(1, 0) == a00 && mk.at(1, 1) == a01);
                        crate::qfield::lemma_small_identities(a01, a10);
                        crate::qfield::lemma_qmul_zero_left(a11);
                        assert(m11 == a01);
                        assert(det0 == qneg(qint(1)));
                        crate::qfield::lemma_det2_exchanged(a01, a10, a11);
                        if m11.0 == 0 {
                            crate::qfield::lemma_canonical_zero_is_zero(m11);
                            crate::qfield::lemma_qmul_zero_left(a10);
                            crate::qfield::lemma_small_identities(a11, a11);
                        }
                    }
                }
                if n == 2 && k == 1 {
                    assert(p == 1);
                    assert(d@ == m.at(1, 1));
                    assert(det@ == qmul(det0, d@));
                }
            }
            k = k + 1;
        }
        Ok(det)
    }

    /// Determinant under explicit dimension and coefficient-growth limits.
    pub fn checked_det_with_budget(&self, budget: AlgebraBudget) -> (r: Result<Rational, AlgebraError>)
        ensures
            !self.wf() ==> is_shape_err(r),
            self.wf() && budget_result(*self, budget) is Err ==> r == Err::<Rational, AlgebraError>(
                budget_result(*self, budget)->Err_0,
            ),
            self.wf() && budget_result(*self, budget) is Ok && self.rows != self.cols ==> is_shape_err(r),
            self.wf() && budget_result(*self, budget) is Ok && self.rows == self.cols ==> (r matches Err(e) ==> e is BudgetExceeded
                || e is CoefficientBits),
            self.wf() && budget_result(*self, budget) is Ok && self.rows == 0 && self.cols == 0 ==> (r matches Ok(d) && d@ == qint(1)),
            self.wf() && self.rows == self.cols && self.rows <= 2 ==> (r matches Ok(d) ==> d@ == det_small(*self)),
    {
        self.validate("matrix determinant")?;
        self.validate_budget(budget)?;
        if self.rows != self.cols {
            return Err(AlgebraError::Shape { operation: "matrix determinant", details: "the matrix is not square" });
        }
        self.det_core(true, budget)
    }

    /// Determinant under the default budget, rejecting malformed and
    /// non-square matrices.
    pub fn checked_det(&self) -> (r: Result<Rational, AlgebraError>)
        ensures
            !self.wf() ==> is_shape_err(r),
            self.wf() && budget_result(*self, AlgebraBudget::default_spec()) is Err ==> r == Err::<Rational, AlgebraError>(
                budget_result(*self, AlgebraBudget::default_spec())->Err_0,
            ),
            self.wf() && budget_result(*self, AlgebraBudget::default_spec()) is Ok && self.rows != self.cols ==> is_shape_err(r),
            self.wf() && budget_result(*self, AlgebraBudget::default_spec()) is Ok && self.rows == self.cols ==> (r matches Err(e)
                ==> e is BudgetExceeded || e is CoefficientBits),
            self.wf() && self.rows == self.cols && self.rows <= 2 ==> (r matches Ok(d) ==> d@ == det_small(*self)),
    {
        self.checked_det_with_budget(AlgebraBudget::default())
    }

    /// Determinant by Gaussian elimination, of a well-formed square matrix
    /// within the default dimension and coefficient limits.
    pub fn det(&self) -> (r: Rational)
        requires
            self.wf(),
            self.rows == self.cols,
            budget_result(*self, AlgebraBudget::default_spec()) is Ok,
        ensures
            self.rows == 0 ==> r@ == qint(1),
            self.rows <= 2 ==> r@ == det_small(*self),
    {
        match self.det_core(false, AlgebraBudget::unlimited()) {
            Ok(d) => d,
            Err(_) => {
                proof {
                    assert(false);
                }
                Rational::zero()
            },
        }
    }
}

/// Entry `(p, q)` of `m` after `col_i += c·col_k`.
pub open spec fn col_added(m: Mat, i: int, k: int, c: Q, p: int, q: int) -> Q {
    if q == i {
        qadd(m.at(p, i), qmul(c, m.at(p, k)))
    } else {
        m.at(p, q)
    }
}

/// Entry `(p, q)` of `m` after `col_i += c·col_k`, then `row_i += c·row_k`.
pub open spec fn both_added(m: Mat, i: int, k: int, c: Q, p: int, q: int) -> Q {
    if p == i {
        qadd(col_added(m, i, k, c, i, q), qmul(c, col_added(m, i, k, c, k, q)))
    } else {
        col_added(m, i, k, c, p, q)
    }
}

/// `col_i += c·col_k`, then `row_i += c·row_k` on `a` (so `a ← EᵀaE`), and
/// `col_i += c·col_k` on `t` (so `t ← tE`).
fn col_add(a: &mut Mat, t: &mut Mat, i: usize, k: usize, c: &Rational)
    requires
        old(a).wf(),
        old(t).wf(),
        old(a).rows == old(a).cols == old(t).rows == old(t).cols,
        i < old(a).rows,
        k < old(a).rows,
        i != k,
    ensures
        final(a).wf(),
        final(t).wf(),
        final(a).rows == old(a).rows,
        final(a).cols == old(a).cols,
        final(t).rows == old(t).rows,
        final(t).cols == old(t).cols,
        forall|p: int, q: int|
            0 <= p < old(a).rows && 0 <= q < old(a).cols ==> #[trigger] final(a).at(p, q) == both_added(
                *old(a),
                i as int,
                k as int,
                c@,
                p,
                q,
            ),
        forall|p: int, q: int|
            0 <= p < old(t).rows && 0 <= q < old(t).cols ==> #[trigger] final(t).at(p, q) == col_added(
                *old(t),
                i as int,
                k as int,
                c@,
                p,
                q,
            ),
{
    let n = a.rows;
    let ghost a0 = *a;
    let ghost t0 = *t;
    let mut row: usize = 0;
    while row < n
        invariant
            a.wf(),
            a.rows == n == a.cols,
            a0.wf(),
            a0.rows == n == a0.cols,
            i < n,
            k < n,
            i != k,
            row <= n,
            a.rows == old(a).rows,
            a.cols == old(a).cols,
            forall|p: int, q: int|
                0 <= p < n && 0 <= q < n ==> #[trigger] a.at(p, q) == (if p < row {
                    col_added(a0, i as int, k as int, c@, p, q)
                } else {
                    a0.at(p, q)
                }),
        decreases n - row,
    {
        let v = a.get(row, i).add(&c.mul(a.get(row, k)));
        a.set(row, i, v);
        row = row + 1;
    }
    let ghost a1 = *a;
    let mut col: usize = 0;
    while col < n
        invariant
            a.wf(),
            a.rows == n == a.cols,
            a1.wf(),
            a1.rows == n == a1.cols,
            i < n,
            k < n,
            i != k,
            col <= n,
            a.rows == old(a).rows,
            a.cols == old(a).cols,
            forall|p: int, q: int|
                0 <= p < n && 0 <= q < n ==> #[trigger] a.at(p, q) == (if p == i && q < col {
                    qadd(a1.at(i as int, q), qmul(c@, a1.at(k as int, q)))
                } else {
                    a1.at(p, q)
                }),
        decreases n - col,
    {
        let v = a.get(i, col).add(&c.mul(a.get(k, col)));
        a.set(i, col, v);
        col = col + 1;
    }
    let mut row: usize = 0;
    while row < n
        invariant
            t.wf(),
            t.rows == n == t.cols,
            t0.wf(),
            t0.rows == n == t0.cols,
            i < n,
            k < n,
            i != k,
            row <= n,
            t.rows == old(t).rows,
            t.cols == old(t).cols,
            forall|p: int, q: int|
                0 <= p < n && 0 <= q < n ==> #[trigger] t.at(p, q) == (if p < row {
                    col_added(t0, i as int, k as int, c@, p, q)
                } else {
                    t0.at(p, q)
                }),
        decreases n - row,
    {
        let v = t.get(row, i).add(&c.mul(t.get(row, k)));
        t.set(row, i, v);
        row = row + 1;
    }
    proof {
        assert forall|p: int, q: int| 0 <= p < n && 0 <= q < n implies #[trigger] a.at(p, q) == both_added(
            a0,
            i as int,
            k as int,
            c@,
            p,
            q,
        ) by {
            assert(a1.at(p, q) == col_added(a0, i as int, k as int, c@, p, q));
            assert(a1.at(i as int, q) == col_added(a0, i as int, k as int, c@, i as int, q));
            assert(a1.at(k as int, q) == col_added(a0, i as int, k as int, c@, k as int, q));
        }
    }
}

/// `j` for `i`, `i` for `j`, every other index unchanged.
pub open spec fn swapped(i: int, j: int, x: int) -> int {
    if x == i {
        j
    } else if x == j {
        i
    } else {
        x
    }
}

/// Exchange rows and columns `i`, `j` of `a`, and columns `i`, `j` of `t`.
fn swap_both(a: &mut Mat, t: &mut Mat, i: usize, j: usize)
    requires
        old(a).wf(),
        old(t).wf(),
        old(a).rows == old(a).cols == old(t).rows == old(t).cols,
        i < old(a).rows,
        j < old(a).rows,
    ensures
        final(a).wf(),
        final(t).wf(),
        final(a).rows == old(a).rows,
        final(a).cols == old(a).cols,
        final(t).rows == old(t).rows,
        final(t).cols == old(t).cols,
        forall|p: int, q: int|
            0 <= p < old(a).rows && 0 <= q < old(a).cols ==> #[trigger] final(a).at(p, q) == old(a).at(
                swapped(i as int, j as int, p),
                swapped(i as int, j as int, q),
            ),
        forall|p: int, q: int|
            0 <= p < old(t).rows && 0 <= q < old(t).cols ==> #[trigger] final(t).at(p, q) == old(t).at(
                p,
                swapped(i as int, j as int, q),
            ),
{
    let n = a.rows;
    let ghost a0 = *a;
    let ghost t0 = *t;
    let mut col: usize = 0;
    while col < n
        invariant
            a.wf(),
            a.rows == n == a.cols,
            a0.wf(),
            a0.rows == n == a0.cols,
            i < n,
            j < n,
            col <= n,
            a.rows == old(a).rows,
            a.cols == old(a).cols,
            forall|p: int, q: int|
                0 <= p < n && 0 <= q < n ==> #[trigger] a.at(p, q) == (if q < col {
                    a0.at(swapped(i as int, j as int, p), q)
                } else {
                    a0.at(p, q)
                }),
        decreases n - col,
    {
        let v = a.get(i, col).clone();
        let w = a.get(j, col).clone();
        a.set(i, col, w);
        a.set(j, col, v);
        col = col + 1;
    }
    let ghost a1 = *a;
    let mut row: usize = 0;
    while row < n
        invariant
            a.wf(),
            a.rows == n == a.cols,
            a1.wf(),
            a1.rows == n == a1.cols,
            i < n,
            j < n,
            row <= n,
            a.rows == old(a).rows,
            a.cols == old(a).cols,
            forall|p: int, q: int|
                0 <= p < n && 0 <= q < n ==> #[trigger] a.at(p, q) == (if p < row {
                    a1.at(p, swapped(i as int, j as int, q))
                } else {
                    a1.at(p, q)
                }),
        decreases n - row,
    {
        let v = a.get(row, i).clone();
        let w = a.get(row, j).clone();
        a.set(row, i, w);
        a.set(row, j, v);
        row = row + 1;
    }
    let mut row: usize = 0;
    while row < n
        invariant
            t.wf(),
            t.rows == n == t.cols,
            t0.wf(),
            t0.rows == n == t0.cols,
            i < n,
            j < n,
            row <= n,
            t.rows == old(t).rows,
            t.cols == old(t).cols,
            forall|p: int, q: int|
                0 <= p < n && 0 <= q < n ==> #[trigger] t.at(p, q) == (if p < row {
                    t0.at(p, swapped(i as int, j as int, q))
                } else {
                    t0.at(p, q)
                }),
        decreases n - row,
    {
        let v = t.get(row, i).clone();
        let w = t.get(row, j).clone();
        t.set(row, i, w);
        t.set(row, j, v);
        row = row + 1;
    }
    proof {
        assert forall|p: int, q: int| 0 <= p < n && 0 <= q < n implies #[trigger] a.at(p, q) == a0.at(
            swapped(i as int, j as int, p),
            swapped(i as int, j as int, q),
        ) by {
            assert(a.at(p, q) == a1.at(p, swapped(i as int, j as int, q)));
            assert(a1.at(p, swapped(i as int, j as int, q)) == a0.at(
                swapped(i as int, j as int, p),
                swapped(i as int, j as int, q),
            ));
        }
    }
}

impl Mat {
    /// Congruence diagonalisation (Lagrange) of a symmetric matrix,
    /// rejecting malformed and non-square matrices: returns `(d, T)` with
    /// `Tᵀ·self·T = diag(d)` and `T` invertible over ℚ.
    pub fn checked_congruence_diag(&self) -> (r: Result<(Vec<Rational>, Mat), AlgebraError>)
        requires
            self.wf() ==> self.rows != self.cols || symmetric(*self),
        ensures
            r is Err <==> !self.wf() || self.rows != self.cols,
            r is Err ==> is_shape_err(r),
            r matches Ok(res) ==> res.0@.len() == self.rows && res.1.wf() && res.1.rows == self.rows && res.1.cols == self.rows,
    {
        self.validate("matrix congruence")?;
        if self.rows != self.cols {
            return Err(AlgebraError::Shape { operation: "matrix congruence", details: "the matrix is not square" });
        }
        let n = self.rows;
        let _len = self.a.len();
        let mut a = self.clone();
        let mut t = Mat::zeros(n, n);
        let mut q: usize = 0;
        while q < n
            invariant
                t.wf(),
                t.rows == n == t.cols,
                q <= n,
            decreases n - q,
        {
            t.set(q, q, Rational::one());
            q = q + 1;
        }
        let mut k: usize = 0;
        while k < n
            invariant
                a.wf(),
                t.wf(),
                a.rows == n == a.cols,
                t.rows == n == t.cols,
                k <= n,
            decreases n - k,
        {
            if a.get(k, k).is_zero() {
                let mut jd: usize = k + 1;
                let mut diag: Option<usize> = None;
                while jd < n
                    invariant
                        a.wf(),
                        a.rows == n == a.cols,
                        k < n,
                        k + 1 <= jd <= n,
                        diag matches Some(j) ==> k < j < n,
                    decreases n - jd,
                {
                    if !a.get(jd, jd).is_zero() {
                        diag = Some(jd);
                        break;
                    }
                    jd = jd + 1;
                }
                match diag {
                    Some(j) => {
                        swap_both(&mut a, &mut t, k, j);
                    },
                    None => {
                        let mut found: Option<(usize, usize)> = None;
                        let mut i: usize = k;
                        while i < n && found.is_none()
                            invariant
                                a.wf(),
                                a.rows == n == a.cols,
                                k <= i <= n,
                                found matches Some(pr) ==> k <= pr.0 < pr.1 < n,
                            decreases n - i,
                        {
                            let mut j: usize = i + 1;
                            while j < n && found.is_none()
                                invariant
                                    a.wf(),
                                    a.rows == n == a.cols,
                                    k <= i < n,
                                    i + 1 <= j <= n,
                                    found matches Some(pr) ==> k <= pr.0 < pr.1 < n,
                                decreases n - j,
                            {
                                if !a.get(i, j).is_zero() {
                                    found = Some((i, j));
                                }
                                j = j + 1;
                            }
                            i = i + 1;
                        }
                        match found {
                            None => {
                                break;
                            },
                            Some((i, j)) => {
                                let one = Rational::one();
                                col_add(&mut a, &mut t, i, j, &one);
                                if i != k {
                                    swap_both(&mut a, &mut t, k, i);
                                }
                            },
                        }
                    },
                }
            }
            let d = a.get(k, k).clone();
            if d.is_zero() {
                break;
            }
            let mut i: usize = k + 1;
            while i < n
                invariant
                    a.wf(),
                    t.wf(),
                    a.rows == n == a.cols,
                    t.rows == n == t.cols,
                    k < n,
                    k + 1 <= i <= n,
                    d@.0 != 0,
                decreases n - i,
            {
                if !a.get(i, k).is_zero() {
                    let c = a.get(i, k).div(&d).neg();
                    col_add(&mut a, &mut t, i, k, &c);
                }
                i = i + 1;
            }
            k = k + 1;
        }
        let mut d: Vec<Rational> = Vec::new();
        let mut i: usize = 0;
        while i < n
            invariant
                a.wf(),
                a.rows == n == a.cols,
                i <= n,
                d@.len() == i,
            decreases n - i,
        {
            d.push(a.get(i, i).clone());
            i = i + 1;
        }
        Ok((d, t))
    }

    /// Congruence diagonalisation of a well-formed square symmetric matrix.
    pub fn congruence_diag(&self) -> (r: (Vec<Rational>, Mat))
        requires
            self.wf(),
            symmetric(*self),
        ensures
            r.0@.len() == self.rows,
            r.1.wf(),
            r.1.rows == self.rows,
            r.1.cols == self.rows,
    {
        match self.checked_congruence_diag() {
            Ok(res) => res,
            Err(_) => {
                proof {
                    assert(false);
                }
                (Vec::new(), Mat { rows: 0, cols: 0, a: Vec::new() })
            },
        }
    }
}

/// Number of entries of `d` with each sign, as `(positive, negative, zero)`.
pub open spec fn sign_counts(d: Seq<Q>, len: int) -> (nat, nat, nat)
    decreases len,
{
    if len <= 0 {
        (0, 0, 0)
    } else {
        let c = sign_counts(d, len - 1);
        if d[len - 1].0 > 0 {
            ((c.0 + 1) as nat, c.1, c.2)
        } else if d[len - 1].0 < 0 {
            (c.0, (c.1 + 1) as nat, c.2)
        } else {
            (c.0, c.1, (c.2 + 1) as nat)
        }
    }
}

/// The sign counts of `d` add up to its length.
pub proof fn lemma_sign_counts_total(d: Seq<Q>, len: int)
    requires
        0 <= len,
    ensures
        sign_counts(d, len).0 + sign_counts(d, len).1 + sign_counts(d, len).2 == len,
    decreases len,
{
    if len > 0 {
        lemma_sign_counts_total(d, len - 1);
    }
}

/// Signs of a diagonal: `(n₊, n₋, n₀)`.
fn count_signs(d: &Vec<Rational>) -> (r: (usize, usize, usize))
    ensures
        r.0 == sign_counts(qs(d@), d@.len() as int).0,
        r.1 == sign_counts(qs(d@), d@.len() as int).1,
        r.2 == sign_counts(qs(d@), d@.len() as int).2,
{
    let mut counts: (usize, usize, usize) = (0, 0, 0);
    let mut i: usize = 0;
    while i < d.len()
        invariant
            i <= d@.len(),
            counts.0 == sign_counts(qs(d@), i as int).0,
            counts.1 == sign_counts(qs(d@), i as int).1,
            counts.2 == sign_counts(qs(d@), i as int).2,
        decreases d@.len() - i,
    {
        proof {
            lemma_sign_counts_total(qs(d@), i as int);
        }
        match d[i].sign() {
            Sign::Positive => {
                counts.0 = counts.0 + 1;
            },
            Sign::Negative => {
                counts.1 = counts.1 + 1;
            },
            Sign::Zero => {
                counts.2 = counts.2 + 1;
            },
        }
        i = i + 1;
    }
    counts
}

impl Mat {
    /// `(n₊, n₋, n₀)`: the Sylvester inertia of a symmetric matrix, read off
    /// the congruence diagonal.
    pub fn inertia(&self) -> (r: (usize, usize, usize))
        requires
            self.wf(),
            symmetric(*self),
        ensures
            r.0 + r.1 + r.2 == self.rows,
    {
        let (d, _) = self.congruence_diag();
        proof {
            lemma_sign_counts_total(qs(d@), d@.len() as int);
        }
        count_signs(&d)
    }
}


/// `b` is a nonzero multiple of the nonzero vector `a`: both vanish at the
/// same places, some entry of `a` is nonzero, and `b[i] / a[i]` is one
/// constant over the nonzero places.
pub open spec fn proportional(a: Seq<Q>, b: Seq<Q>) -> bool {
    &&& a.len() == b.len()
    &&& forall|i: int| 0 <= i < a.len() ==> ((#[trigger] a[i]).0 == 0 <==> b[i].0 == 0)
    &&& exists|i: int| 0 <= i < a.len() && (#[trigger] a[i]).0 != 0
    &&& forall|i: int, j: int|
        0 <= i < a.len() && 0 <= j < a.len() && (#[trigger] a[i]).0 != 0 && (#[trigger] a[j]).0 != 0 ==> qdiv(b[i], a[i]) == qdiv(
            b[j],
            a[j],
        )
}

/// Decide [`proportional`] on two vectors of rationals.
fn ratio_match(a: &[Rational], b: &[Rational]) -> (r: bool)
    ensures
        r == proportional(qs(a@), qs(b@)),
{
    let ghost qa = qs(a@);
    let ghost qb = qs(b@);
    if a.len() != b.len() {
        return false;
    }
    let mut ratio: Option<Rational> = None;
    let ghost mut w: int = 0;
    let mut i: usize = 0;
    while i < a.len()
        invariant
            qa == qs(a@),
            qb == qs(b@),
            a@.len() == b@.len(),
            i <= a@.len(),
            forall|p: int| 0 <= p < i ==> ((#[trigger] qa[p]).0 == 0 <==> qb[p].0 == 0),
            ratio is None <==> forall|p: int| 0 <= p < i ==> (#[trigger] qa[p]).0 == 0,
            ratio matches Some(k) ==> 0 <= w < i && qa[w].0 != 0 && forall|p: int|
                0 <= p < i && (#[trigger] qa[p]).0 != 0 ==> qdiv(qb[p], qa[p]) == k@,
        decreases a@.len() - i,
    {
        let zx = a[i].is_zero();
        let zy = b[i].is_zero();
        proof {
            assert(qa[i as int] == a@[i as int]@);
            assert(qb[i as int] == b@[i as int]@);
        }
        if zx && zy {
            i = i + 1;
            continue;
        }
        if zx || zy {
            proof {
                assert(qa[i as int] == a@[i as int]@);
                assert(qb[i as int] == b@[i as int]@);
                assert(!((qa[i as int]).0 == 0 <==> qb[i as int].0 == 0));
            }
            return false;
        }
        let k = b[i].div(&a[i]);
        match &ratio {
            None => {
                proof {
                    w = i as int;
                }
                ratio = Some(k);
            },
            Some(k0) => {
                if !(*k0 == k) {
                    proof {
                        assert(qdiv(qb[w], qa[w]) == k0@);
                        assert(qa[i as int].0 != 0);
                    }
                    return false;
                }
            },
        }
        i = i + 1;
    }
    proof {
        if ratio is Some {
            assert(qa[w].0 != 0);
            let k = ratio->Some_0;
            assert forall|p: int, q: int|
                0 <= p < qa.len() && 0 <= q < qa.len() && (#[trigger] qa[p]).0 != 0 && (#[trigger] qa[q]).0 != 0 implies qdiv(qb[p], qa[p])
                == qdiv(qb[q], qa[q]) by {
                assert(qdiv(qb[p], qa[p]) == k@);
                assert(qdiv(qb[q], qa[q]) == k@);
            }
        }
    }
    ratio.is_some()
}

/// Are two homogeneous coordinate vectors the same projective point?
pub fn same_projective_point(a: &[Rational], b: &[Rational]) -> (r: bool)
    ensures
        r == proportional(qs(a@), qs(b@)),
{
    ratio_match(a, b)
}

impl Mat {
    /// Are two matrices proportional, i.e. the same projective quadric?
    /// `false` for malformed matrices, different shapes, and when either is
    /// zero.
    pub fn proportional_to(&self, other: &Mat) -> (r: bool)
        ensures
            r == (self.wf() && other.wf() && self.rows == other.rows && self.cols == other.cols && proportional(
                qs(self.a@),
                qs(other.a@),
            )),
    {
        if self.validate("matrix proportionality").is_err() || other.validate("matrix proportionality").is_err() || self.rows
            != other.rows || self.cols != other.cols {
            return false;
        }
        ratio_match(self.a.as_slice(), other.a.as_slice())
    }
}

/// Extend `v` to an `n x m` matrix whose **last** column is `v`, choosing
/// standard basis vectors greedily while the columns stay independent; for
/// a nonzero `v` this is an invertible `n x n` matrix. Used to move a
/// singular point of a quadric to `e_n`.
pub fn basis_with_last(v: &[Rational]) -> (m: Mat)
    ensures
        m.wf(),
        m.rows == v@.len(),
        1 <= m.cols,
        m.cols <= v@.len() || m.cols == 1,
        forall|i: int| 0 <= i < v@.len() ==> #[trigger] m.at(i, m.cols - 1) == v@[i]@,
{
    let n = v.len();
    let mut vv: Vec<Rational> = Vec::new();
    push_all(&mut vv, v);
    proof {
        assert forall|k: int| 0 <= k < n implies #[trigger] vv@[k]@ == v@[k]@ by {
            assert(vv@[0 + k]@ == v@[k]@);
        }
    }
    let mut cols: Vec<Vec<Rational>> = Vec::new();
    let mut i: usize = 0;
    while i < n
        invariant
            n == v@.len(),
            vv@.len() == n,
            forall|k: int| 0 <= k < n ==> #[trigger] vv@[k]@ == v@[k]@,
            i <= n,
            cols@.len() <= i,
            cols@.len() < n || n == 0,
            forall|j: int| 0 <= j < cols@.len() ==> (#[trigger] cols@[j])@.len() == n,
        decreases n - i,
    {
        if cols.len() == n - 1 {
            break;
        }
        let mut e: Vec<Rational> = Vec::new();
        let mut c: usize = 0;
        while c < n
            invariant
                c <= n,
                e@.len() == c,
            decreases n - c,
        {
            if c == i {
                e.push(Rational::one());
            } else {
                e.push(Rational::zero());
            }
            c = c + 1;
        }
        let mut trial: Vec<Vec<Rational>> = Vec::new();
        let mut j: usize = 0;
        while j < cols.len()
            invariant
                j <= cols@.len(),
                trial@.len() == j,
                forall|q: int| 0 <= q < cols@.len() ==> (#[trigger] cols@[q])@.len() == n,
                forall|q: int| 0 <= q < j ==> (#[trigger] trial@[q])@.len() == n,
            decreases cols@.len() - j,
        {
            let mut copy: Vec<Rational> = Vec::new();
            push_all(&mut copy, cols[j].as_slice());
            trial.push(copy);
            j = j + 1;
        }
        let mut e2: Vec<Rational> = Vec::new();
        push_all(&mut e2, e.as_slice());
        trial.push(e2);
        let mut v2: Vec<Rational> = Vec::new();
        push_all(&mut v2, vv.as_slice());
        trial.push(v2);
        let tm = Mat::from_cols(n, trial.as_slice());
        if tm.rank() == trial.len() {
            cols.push(e);
        }
        i = i + 1;
    }
    let mut last: Vec<Rational> = Vec::new();
    push_all(&mut last, v);
    cols.push(last);
    proof {
        assert forall|j: int| 0 <= j < cols@.len() implies (#[trigger] cols@[j])@.len() == n by {}
    }
    let m = Mat::from_cols(n, cols.as_slice());
    proof {
        assert forall|i: int| 0 <= i < v@.len() implies #[trigger] m.at(i, m.cols - 1) == v@[i]@ by {
            assert(m.at(i, m.cols - 1) == cols@[m.cols - 1]@[i]@);
            assert(cols@[m.cols - 1]@[0 + i]@ == v@[i]@);
        }
    }
    m
}

} // verus!
