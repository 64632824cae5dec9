//! Matrices of univariate rational polynomials, and the determinantal data a
//! matrix pencil `λA + B` is classified by: minors by Laplace expansion,
//! determinantal divisors (monic gcds of all `k x k` minors) and invariant
//! factors, all inside ℚ[λ].
use vstd::prelude::*;
use crate::algebra::{AlgebraBudget, AlgebraError, AlgebraWork};
use crate::rational::{Rational, Q, qint, bit_size_of};
use crate::ratmat::{Mat, qs};
use crate::roots::{QPoly, poly_add, poly_sub, poly_mul, trim, trimmed, lemma_trim, max_len};

verus! {

/// A dense `n x n` matrix of polynomials, row-major.
#[derive(Debug, PartialEq, Eq)]
pub struct PolyMat {
    /// Side length.
    pub n: usize,
    /// Entries, row-major.
    pub a: Vec<QPoly>,
}

impl PolyMat {
    /// The entry array holds exactly `n * n` entries.
    pub open spec fn wf(&self) -> bool {
        self.a@.len() == self.n * self.n
    }

    /// Well-formed, within the dimension limit, and every entry's
    /// coefficients within the coefficient limit.
    pub open spec fn within_budget(&self, budget: AlgebraBudget) -> bool {
        &&& self.wf()
        &&& self.n <= budget.max_matrix_dimension
        &&& forall|k: int, i: int|
            0 <= k < self.a@.len() && 0 <= i < self.a@[k]@.len() ==> crate::ratmat::fits(#[trigger] self.a@[k]@[i], budget)
    }

    /// Entry `(i, j)` as a coefficient list.
    pub open spec fn entry(&self, i: int, j: int) -> Seq<Q> {
        self.a@[i * self.n + j]@
    }

    /// Entry `(i, j)`.
    pub fn get(&self, i: usize, j: usize) -> (r: &QPoly)
        requires
            self.wf(),
            i < self.n,
            j < self.n,
        ensures
            r@ == self.entry(i as int, j as int),
    {
        let _len = self.a.len();
        proof {
            crate::ratmat::lemma_index(i as int, j as int, self.n as int, self.n as int);
        }
        &self.a[i * self.n + j]
    }
}

/// The pencil entry `m0[i][j] + m1[i][j]·λ`.
pub open spec fn pencil_entry(m1: Mat, m0: Mat, i: int, j: int) -> Seq<Q> {
    trim(seq![m0.at(i, j), m1.at(i, j)])
}

/// Largest coefficient bit size of a coefficient list (`1` when empty).
pub open spec fn coeff_bits(s: Seq<Q>) -> u64
    decreases s.len(),
{
    if s.len() == 0 {
        1
    } else if s.len() == 1 {
        bit_size_of(s[0])
    } else {
        let rest = coeff_bits(s.drop_last());
        if bit_size_of(s.last()) > rest {
            bit_size_of(s.last())
        } else {
            rest
        }
    }
}

/// Largest [`coeff_bits`] over a list of polynomials (`1` when empty).
pub open spec fn entries_bits(s: Seq<QPoly>) -> u64
    decreases s.len(),
{
    if s.len() == 0 {
        1
    } else if s.len() == 1 {
        coeff_bits(s[0]@)
    } else {
        let rest = entries_bits(s.drop_last());
        if coeff_bits(s.last()@) > rest {
            coeff_bits(s.last()@)
        } else {
            rest
        }
    }
}

/// The largest coefficient bit size in a polynomial (`1` for zero).
pub fn poly_bits(p: &QPoly) -> (r: u64)
    ensures
        r == coeff_bits(p@),
{
    let c = p.coefficients();
    if c.len() == 0 {
        return 1;
    }
    let mut best = c[0].bit_size();
    let mut i: usize = 1;
    while i < c.len()
        invariant
            qs(c@) == p@,
            1 <= i <= c@.len(),
            best == coeff_bits(p@.subrange(0, i as int)),
        decreases c@.len() - i,
    {
        let b = c[i].bit_size();
        proof {
            let t = p@.subrange(0, i + 1);
            assert(t.drop_last() =~= p@.subrange(0, i as int));
            assert(t.last() == c@[i as int]@);
        }
        if b > best {
            best = b;
        }
        i = i + 1;
    }
    proof {
        assert(p@.subrange(0, c@.len() as int) =~= p@);
        if c@.len() == 1 {
            assert(p@.subrange(0, 1) =~= p@);
        }
    }
    best
}

impl PolyMat {
    /// The largest coefficient bit size anywhere in the matrix, the
    /// coefficient-growth metric (`1` for an empty matrix).
    pub fn max_bits(&self) -> (r: u64)
        ensures
            r == entries_bits(self.a@),
    {
        if self.a.len() == 0 {
            return 1;
        }
        let mut best = poly_bits(&self.a[0]);
        proof {
            assert(self.a@.subrange(0, 1).len() == 1);
            assert(self.a@.subrange(0, 1)[0] == self.a@[0]);
        }
        let mut i: usize = 1;
        while i < self.a.len()
            invariant
                1 <= i <= self.a@.len(),
                best == entries_bits(self.a@.subrange(0, i as int)),
            decreases self.a@.len() - i,
        {
            let b = poly_bits(&self.a[i]);
            proof {
                let t = self.a@.subrange(0, i + 1);
                assert(t.drop_last() =~= self.a@.subrange(0, i as int));
                assert(t.last() == self.a@[i as int]);
            }
            if b > best {
                best = b;
            }
            i = i + 1;
        }
        proof {
            assert(self.a@.subrange(0, self.a@.len() as int) =~= self.a@);
        }
        best
    }

    /// The pencil `λ·m1 + m0`, entry-wise, for well-formed square matrices
    /// of one size (no budget).
    fn pencil_core(m1: &Mat, m0: &Mat) -> (r: PolyMat)
        requires
            m1.wf(),
            m0.wf(),
            m1.rows == m1.cols,
            m0.rows == m1.rows,
            m0.cols == m1.cols,
        ensures
            r.wf(),
            r.n == m1.rows,
            forall|i: int, j: int| 0 <= i < r.n && 0 <= j < r.n ==> #[trigger] r.entry(i, j) == pencil_entry(*m1, *m0, i, j),
    {
        let n = m1.rows;
        let mut a: Vec<QPoly> = Vec::new();
        let mut i: usize = 0;
        while i < n
            invariant
                m1.wf(),
                m0.wf(),
                m1.rows == m1.cols == n,
                m0.rows == n,
                m0.cols == n,
                i <= n,
                a@.len() == i * n,
                forall|p: int, q: int| 0 <= p < i && 0 <= q < n ==> #[trigger] a@[p * n + q]@ == pencil_entry(*m1, *m0, p, q),
            decreases n - i,
        {
            let mut j: usize = 0;
            while j < n
                invariant
                    m1.wf(),
                    m0.wf(),
                    m1.rows == m1.cols == n,
                    m0.rows == n,
                    m0.cols == n,
                    i < n,
                    j <= n,
                    a@.len() == i * n + j,
                    forall|p: int, q: int|
                        (0 <= p < i && 0 <= q < n) || (p == i && 0 <= q < j) ==> #[trigger] a@[p * n + q]@ == pencil_entry(*m1, *m0, p, q),
                decreases n - j,
            {
                let mut v: Vec<Rational> = Vec::new();
                v.push(m0.get(i, j).clone());
                v.push(m1.get(i, j).clone());
                proof {
                    assert(qs(v@) =~= seq![m0.at(i as int, j as int), m1.at(i as int, j as int)]);
                }
                let ghost a0 = a@;
                a.push(QPoly::new(v));
                proof {
                    assert forall|p: int, q: int|
                        (0 <= p < i && 0 <= q < n) || (p == i && 0 <= q < j + 1) implies #[trigger] a@[p * n + q]@
                        == pencil_entry(*m1, *m0, p, q) by {
                        if p < i || q < j {
                            crate::ratmat::lemma_rowmajor_lt(p, q, i as int, j as int, n as int);
                            assert(a@[p * n + q] == a0[p * n + q]);
                        }
                    }
                }
                j = j + 1;
            }
            proof {
                crate::ratmat::lemma_next_row(i as int, n as int);
            }
            i = i + 1;
        }
        PolyMat { n, a }
    }

    /// The pencil `λ·m1 + m0`, entry-wise, under explicit shape/resource
    /// limits: both matrices must be well-formed, square and of one size,
    /// the side within the dimension limit, and every coefficient within
    /// the coefficient limit.
    pub fn pencil_with_budget(m1: &Mat, m0: &Mat, budget: AlgebraBudget) -> (r: Result<PolyMat, AlgebraError>)
        ensures
            !(m1.wf() && m0.wf() && m1.rows == m1.cols && m0.rows == m1.rows && m0.cols == m1.cols) ==> crate::ratmat::is_shape_err(r),
            (m1.wf() && m0.wf() && m1.rows == m1.cols && m0.rows == m1.rows && m0.cols == m1.cols) && m1.rows
                > budget.max_matrix_dimension ==> r == Err::<PolyMat, AlgebraError>(
                AlgebraError::MatrixDimension { actual: m1.rows, limit: budget.max_matrix_dimension },
            ),
            r matches Err(e) ==> e is Shape || e is MatrixDimension || e is CoefficientBits,
            r matches Ok(pm) ==> {
                &&& pm.wf()
                &&& pm.n == m1.rows
                &&& forall|i: int, j: int| 0 <= i < pm.n && 0 <= j < pm.n ==> #[trigger] pm.entry(i, j) == pencil_entry(*m1, *m0, i, j)
            },
    {
        if m1.rows != m1.cols || m0.rows != m0.cols || m1.rows != m0.rows || m1.cols != m0.cols {
            return Err(AlgebraError::Shape { operation: "constructing a polynomial pencil", details: "matrices must be well-formed, square, and equal-sized" });
        }
        if !shape_ok(m1) || !shape_ok(m0) {
            return Err(AlgebraError::Shape { operation: "constructing a polynomial pencil", details: "matrices must be well-formed, square, and equal-sized" });
        }
        let n = m1.rows;
        if n > budget.max_matrix_dimension {
            return Err(AlgebraError::MatrixDimension { actual: n, limit: budget.max_matrix_dimension });
        }
        let result = PolyMat::pencil_core(m1, m0);
        result.validate_budget(budget)?;
        Ok(result)
    }

    /// The pencil `λ·m1 + m0` of two well-formed square matrices of one
    /// size within the default budget.
    pub fn pencil(m1: &Mat, m0: &Mat) -> (r: PolyMat)
        requires
            m1.wf(),
            m0.wf(),
            m1.rows == m1.cols,
            m0.rows == m1.rows,
            m0.cols == m1.cols,
            m1.rows <= AlgebraBudget::default_spec().max_matrix_dimension,
        ensures
            r.wf(),
            r.n == m1.rows,
            forall|i: int, j: int| 0 <= i < r.n && 0 <= j < r.n ==> #[trigger] r.entry(i, j) == pencil_entry(*m1, *m0, i, j),
    {
        PolyMat::pencil_core(m1, m0)
    }

    /// Check the matrix against a budget: side, then shape, then every
    /// coefficient.
    fn validate_budget(&self, budget: AlgebraBudget) -> (r: Result<(), AlgebraError>)
        ensures
            self.n > budget.max_matrix_dimension ==> r == Err::<(), AlgebraError>(
                AlgebraError::MatrixDimension { actual: self.n, limit: budget.max_matrix_dimension },
            ),
            self.n <= budget.max_matrix_dimension && !self.wf() ==> crate::ratmat::is_shape_err(r),
            r matches Err(e) ==> e is Shape || e is MatrixDimension || e is CoefficientBits,
            r is Ok ==> self.wf() && self.n <= budget.max_matrix_dimension,
            r is Ok <==> self.within_budget(budget),
    {
        if self.n > budget.max_matrix_dimension {
            return Err(AlgebraError::MatrixDimension { actual: self.n, limit: budget.max_matrix_dimension });
        }
        let len = self.a.len();
        match self.n.checked_mul(self.n) {
            Some(nn) => {
                if nn != len {
                    return Err(AlgebraError::Shape { operation: "validating a polynomial matrix", details: "the entry count does not match the side" });
                }
            },
            None => {
                return Err(AlgebraError::Shape { operation: "validating a polynomial matrix", details: "the entry count does not match the side" });
            },
        }
        let mut k: usize = 0;
        while k < self.a.len()
            invariant
                k <= self.a@.len(),
                self.wf(),
                self.n <= budget.max_matrix_dimension,
                forall|t: int, i: int|
                    0 <= t < k && 0 <= i < self.a@[t]@.len() ==> crate::ratmat::fits(#[trigger] self.a@[t]@[i], budget),
            decreases self.a@.len() - k,
        {
            match validate_poly(&self.a[k], budget) {
                Ok(()) => {},
                Err(e) => {
                    proof {
                        let i = choose|i: int| 0 <= i < self.a@[k as int]@.len() && !crate::ratmat::fits(self.a@[k as int]@[i], budget);
                        assert(!crate::ratmat::fits(self.a@[k as int]@[i], budget));
                    }
                    return Err(e);
                },
            }
            k = k + 1;
        }
        Ok(())
    }
}

/// A matrix's entry count matches its declared shape.
fn shape_ok(m: &Mat) -> (r: bool)
    ensures
        r == m.wf(),
{
    let len = m.a.len();
    match m.rows.checked_mul(m.cols) {
        Some(p) => p == len,
        None => false,
    }
}

/// Every coefficient of `p` fits the coefficient budget.
fn validate_poly(p: &QPoly, budget: AlgebraBudget) -> (r: Result<(), AlgebraError>)
    ensures
        r is Ok <==> forall|i: int| 0 <= i < p@.len() ==> crate::ratmat::fits(#[trigger] p@[i], budget),
        r matches Err(e) ==> e is CoefficientBits,
{
    let c = p.coefficients();
    let mut i: usize = 0;
    while i < c.len()
        invariant
            qs(c@) == p@,
            i <= c@.len(),
            forall|k: int| 0 <= k < i ==> crate::ratmat::fits(#[trigger] p@[k], budget),
        decreases c@.len() - i,
    {
        let b = c[i].bit_size();
        if b > budget.max_coefficient_bits {
            proof {
                assert(!crate::ratmat::fits(p@[i as int], budget));
            }
            return Err(AlgebraError::CoefficientBits { actual: b, limit: budget.max_coefficient_bits });
        }
        i = i + 1;
    }
    Ok(())
}

/// The `need`-element ascending selections from `lo..hi` whose first
/// element is below `hi`, each a strictly increasing list drawn from
/// `lo..n`, in lexicographic order.
pub open spec fn combs_range(lo: int, hi: int, n: int, need: nat) -> Seq<Seq<usize>>
    decreases need, 0int, hi - lo,
{
    if hi <= lo || need == 0 {
        Seq::empty()
    } else {
        combs_range(lo, hi - 1, n, need) + combs(hi, n, (need - 1) as nat).map_values(|s: Seq<usize>| seq![(hi - 1) as usize] + s)
    }
}

/// All `need`-element strictly increasing lists drawn from `start..n`, in
/// lexicographic order.
pub open spec fn combs(start: int, n: int, need: nat) -> Seq<Seq<usize>>
    decreases need, 1int, 0int,
{
    if need == 0 {
        seq![Seq::empty()]
    } else {
        combs_range(start, n, n, need)
    }
}

/// Prefix every list with `cur`.
pub open spec fn prefixed(cur: Seq<usize>, ss: Seq<Seq<usize>>) -> Seq<Seq<usize>> {
    ss.map_values(|s: Seq<usize>| cur + s)
}

/// The views of a list of index vectors.
pub open spec fn views(v: Seq<Vec<usize>>) -> Seq<Seq<usize>> {
    v.map_values(|s: Vec<usize>| s@)
}


/// Copy of an index vector.
fn copy_indices(v: &Vec<usize>) -> (r: Vec<usize>)
    ensures
        r@ == v@,
{
    let mut r: Vec<usize> = Vec::new();
    let mut i: usize = 0;
    while i < v.len()
        invariant
            i <= v@.len(),
            r@ == v@.subrange(0, i as int),
        decreases v@.len() - i,
    {
        r.push(v[i]);
        i = i + 1;
        proof {
            assert(r@ =~= v@.subrange(0, i as int));
        }
    }
    proof {
        assert(v@.subrange(0, v@.len() as int) =~= v@);
    }
    r
}

/// Append, after `out`, every completion of `cur` by `k - |cur|` ascending
/// indices from `start..n`.
fn extend_combinations(start: usize, n: usize, k: usize, cur: &mut Vec<usize>, out: &mut Vec<Vec<usize>>)
    requires
        old(cur)@.len() <= k,
        start <= n,
    ensures
        final(cur)@ == old(cur)@,
        views(final(out)@) == views(old(out)@) + prefixed(old(cur)@, combs(start as int, n as int, (k - old(cur)@.len()) as nat)),
    decreases k - old(cur)@.len(),
{
    let ghost cur0 = cur@;
    let ghost out0 = views(out@);
    if cur.len() == k {
        let c = copy_indices(cur);
        out.push(c);
        proof {
            assert(cur0 + Seq::<usize>::empty() =~= cur0);
            assert(views(out@) =~= out0 + prefixed(cur0, combs(start as int, n as int, 0)));
        }
        return;
    }
    let ghost need: nat = (k - cur0.len()) as nat;
    let mut i: usize = start;
    proof {
        assert(views(out@) =~= out0 + prefixed(cur0, combs_range(start as int, i as int, n as int, need)));
    }
    while i < n
        invariant
            start <= i <= n,
            cur@ == cur0,
            cur0 == old(cur)@,
            cur0.len() < k,
            need == k - cur0.len(),
            views(out@) == out0 + prefixed(cur0, combs_range(start as int, i as int, n as int, need)),
        decreases n - i,
    {
        cur.push(i);
        let ghost before = views(out@);
        extend_combinations(i + 1, n, k, cur, out);
        cur.pop();
        proof {
            assert(cur@ =~= cur0);
            let tail = combs((i + 1) as int, n as int, (need - 1) as nat);
            let lifted = tail.map_values(|s: Seq<usize>| seq![i] + s);
            assert(combs_range(start as int, i + 1, n as int, need) == combs_range(start as int, i as int, n as int, need) + lifted);
            assert(prefixed(cur0.push(i), tail) =~= prefixed(cur0, lifted)) by {
                assert forall|t: int| 0 <= t < tail.len() implies prefixed(cur0.push(i), tail)[t] == prefixed(cur0, lifted)[t] by {
                    assert(cur0.push(i) + tail[t] =~= cur0 + (seq![i] + tail[t]));
                }
            }
            assert(prefixed(cur0, combs_range(start as int, i as int, n as int, need) + lifted) =~= prefixed(
                cur0,
                combs_range(start as int, i as int, n as int, need),
            ) + prefixed(cur0, lifted));
            assert(views(out@) =~= out0 + prefixed(cur0, combs_range(start as int, i + 1, n as int, need)));
        }
        i = i + 1;
    }
}

/// All `k`-subsets of `0..n` as ascending index lists, in lexicographic
/// order.
pub fn combinations(n: usize, k: usize) -> (r: Vec<Vec<usize>>)
    ensures
        views(r@) == combs(0, n as int, k as nat),
{
    let mut out: Vec<Vec<usize>> = Vec::new();
    let mut cur: Vec<usize> = Vec::new();
    extend_combinations(0, n, k, &mut cur, &mut out);
    proof {
        assert(views(Seq::<Vec<usize>>::empty()) =~= Seq::<Seq<usize>>::empty());
        let cs = combs(0, n as int, k as nat);
        assert(prefixed(Seq::<usize>::empty(), cs) =~= cs) by {
            assert forall|t: int| 0 <= t < cs.len() implies prefixed(Seq::<usize>::empty(), cs)[t] == cs[t] by {
                assert(Seq::<usize>::empty() + cs[t] =~= cs[t]);
            }
        }
    }
    out
}

/// The binomial coefficient `C(n, k)` (Pascal's rule).
pub open spec fn binom(n: nat, k: nat) -> nat
    decreases n,
{
    if k == 0 {
        1
    } else if n == 0 {
        0
    } else {
        binom((n - 1) as nat, (k - 1) as nat) + binom((n - 1) as nat, k)
    }
}

/// `C(n, k) == 0` for `k > n`.
pub proof fn lemma_binom_beyond(n: nat, k: nat)
    requires
        k > n,
    ensures
        binom(n, k) == 0,
    decreases n,
{
    if n > 0 {
        lemma_binom_beyond((n - 1) as nat, (k - 1) as nat);
        lemma_binom_beyond((n - 1) as nat, k);
    }
}

/// `C(n, n) == 1`.
pub proof fn lemma_binom_all(n: nat)
    ensures
        binom(n, n) == 1,
    decreases n,
{
    if n > 0 {
        lemma_binom_all((n - 1) as nat);
        lemma_binom_beyond((n - 1) as nat, n);
    }
}

/// `C(n, 1) == n`.
proof fn lemma_binom_one(n: nat)
    ensures
        binom(n, 1) == n,
    decreases n,
{
    if n > 0 {
        lemma_binom_one((n - 1) as nat);
        assert(binom(n, 1) == binom((n - 1) as nat, 0) + binom((n - 1) as nat, 1));
    }
}

/// `C(n, i+1)·(i+1) == C(n, i)·(n-i)` for `i < n`.
pub proof fn lemma_binom_step(n: nat, i: nat)
    requires
        i < n,
    ensures
        binom(n, i + 1) * (i + 1) == binom(n, i) * (n - i),
    decreases n,
{
    let m = (n - 1) as nat;
    if i == 0 {
        lemma_binom_one(n);
        assert(binom(n, 0) == 1);
        assert(binom(n, 1) * 1 == binom(n, 0) * (n - 0));
    } else {
        let a = binom(m, i);
        let b = binom(m, i + 1);
        let c = binom(m, (i - 1) as nat);
        assert(binom(n, i + 1) == a + b);
        assert(binom(n, i) == c + a);
        if i < m {
            lemma_binom_step(m, i);
        } else {
            lemma_binom_beyond(m, i + 1);
            assert(b * (i + 1) == a * (m - i)) by (nonlinear_arith)
                requires
                    b == 0,
                    m - i == 0,
            ;
        }
        assert(b * (i + 1) == a * (m - i));
        lemma_binom_step(m, (i - 1) as nat);
        assert(a * i == c * (m - i + 1));
        assert((a + b) * (i + 1) == a * (m + 1)) by (nonlinear_arith)
            requires
                b * (i + 1) == a * (m - i),
                i <= m,
        ;
        assert((c + a) * (m + 1 - i) == a * (m + 1)) by (nonlinear_arith)
            requires
                a * i == c * (m - i + 1),
                i <= m,
        ;
        assert(n - i == m + 1 - i);
        assert(binom(n, i + 1) * (i + 1) == (a + b) * (i + 1));
        assert(binom(n, i) * (n - i) == (c + a) * (m + 1 - i));
    }
}

/// `C(n, k) == C(n, n-k)`.
pub proof fn lemma_binom_symmetric(n: nat, k: nat)
    requires
        k <= n,
    ensures
        binom(n, k) == binom(n, (n - k) as nat),
    decreases n,
{
    if k == 0 {
        lemma_binom_all(n);
    } else if k == n {
        lemma_binom_all(n);
    } else {
        let m = (n - 1) as nat;
        lemma_binom_symmetric(m, (k - 1) as nat);
        lemma_binom_symmetric(m, k);
        assert((m - (k - 1)) as nat == (n - k) as nat);
        assert(binom(n, (n - k) as nat) == binom(m, (n - k - 1) as nat) + binom(m, (n - k) as nat));
    }
}

/// Below the middle, binomial coefficients grow: `C(n, i) <= C(n, j)` for
/// `i <= j` with `2j <= n`.
pub proof fn lemma_binom_grows(n: nat, i: nat, j: nat)
    requires
        i <= j,
        2 * j <= n,
    ensures
        binom(n, i) <= binom(n, j),
    decreases j - i,
{
    if i < j {
        lemma_binom_grows(n, i, (j - 1) as nat);
        lemma_binom_step(n, (j - 1) as nat);
        let x = binom(n, (j - 1) as nat);
        let y = binom(n, j);
        assert(y * j == x * (n - (j - 1)));
        assert(y >= x) by (nonlinear_arith)
            requires
                y * j == x * (n - (j - 1)),
                j >= 1,
                n - (j - 1) >= j,
        ;
    }
}

/// `C(n, k) >= 1` for `k <= n`.
pub proof fn lemma_binom_positive(n: nat, k: nat)
    requires
        k <= n,
    ensures
        binom(n, k) >= 1,
    decreases n,
{
    if k > 0 && n > 0 {
        if k - 1 <= n - 1 {
            lemma_binom_positive((n - 1) as nat, (k - 1) as nat);
        }
    }
}

/// `C(n, k)` by the running product `C(n, i+1) = C(n, i)·(n-i)/(i+1)`
/// over `i < min(k, n-k)`, reported as `cap + 1` (saturating) once it
/// exceeds `cap` or a running product overflows.
fn binomial_capped(n: usize, k: usize, cap: usize) -> (r: usize)
    requires
        k <= n,
    ensures
        r <= cap || r == (if cap == usize::MAX { cap } else { (cap + 1) as usize }),
        r <= cap && r != (if cap == usize::MAX { cap } else { (cap + 1) as usize }) ==> r == binom(n as nat, k as nat),
        binom(n as nat, k as nat) > cap ==> r == (if cap == usize::MAX { cap } else { (cap + 1) as usize }),
        binom(n as nat, k as nat) <= cap && binom(n as nat, k as nat) * n <= usize::MAX ==> r == binom(
            n as nat,
            k as nat,
        ),
{
    let kk = if k <= n - k { k } else { n - k };
    let over = if cap == usize::MAX { cap } else { cap + 1 };
    let mut value: usize = 1;
    let mut i: usize = 0;
    proof {
        lemma_binom_symmetric(n as nat, k as nat);
        assert(binom(n as nat, kk as nat) == binom(n as nat, k as nat));
        lemma_binom_positive(n as nat, kk as nat);
    }
    if value > cap {
        return over;
    }
    while i < kk
        invariant
            kk <= n,
            2 * kk <= n,
            i <= kk,
            value <= cap,
            value == binom(n as nat, i as nat),
            binom(n as nat, kk as nat) == binom(n as nat, k as nat),
            kk <= k,
            over == (if cap == usize::MAX { cap } else { (cap + 1) as usize }),
        decreases kk - i,
    {
        proof {
            lemma_binom_step(n as nat, i as nat);
            lemma_binom_grows(n as nat, (i + 1) as nat, kk as nat);
        }
        let product = match value.checked_mul(n - i) {
            Some(p) => p,
            None => {
                proof {
                    let big = binom(n as nat, kk as nat);
                    assert(binom(n as nat, (i + 1) as nat) * (i + 1) <= big * n) by (nonlinear_arith)
                        requires
                            binom(n as nat, (i + 1) as nat) <= big,
                            i + 1 <= n,
                    ;
                }
                return over;
            },
        };
        proof {
            vstd::arithmetic::div_mod::lemma_div_multiples_vanish(
                binom(n as nat, (i + 1) as nat) as int,
                (i + 1) as int,
            );
            assert(binom(n as nat, (i + 1) as nat) * (i + 1) == (i + 1) * binom(n as nat, (i + 1) as nat)) by (nonlinear_arith);
        }
        value = product / (i + 1);
        if value > cap {
            return over;
        }
        i = i + 1;
    }
    value
}

/// All `k`-subsets under explicit dimension and output-count limits.
pub fn combinations_with_budget(n: usize, k: usize, budget: AlgebraBudget) -> (r: Result<Vec<Vec<usize>>, AlgebraError>)
    ensures
        n > budget.max_matrix_dimension ==> r == Err::<Vec<Vec<usize>>, AlgebraError>(
            AlgebraError::MatrixDimension { actual: n, limit: budget.max_matrix_dimension },
        ),
        n <= budget.max_matrix_dimension && k > n ==> (r matches Ok(v) && v@.len() == 0),
        r matches Ok(v) ==> views(v@) == combs(0, n as int, k as nat),
        r matches Err(e) ==> e is MatrixDimension || e is BudgetExceeded,
{
    if n > budget.max_matrix_dimension {
        return Err(AlgebraError::MatrixDimension { actual: n, limit: budget.max_matrix_dimension });
    }
    if k > n {
        let v: Vec<Vec<usize>> = Vec::new();
        proof {
            lemma_combs_too_many(0, n as int, k as nat);
            assert(views(v@) =~= combs(0, n as int, k as nat));
        }
        return Ok(v);
    }
    if binomial_capped(n, k, budget.max_expression_nodes) > budget.max_expression_nodes {
        return Err(AlgebraError::BudgetExceeded { operation: "enumerating index combinations", limit: budget.max_expression_nodes });
    }
    Ok(combinations(n, k))
}

/// There are no `need`-element selections from fewer than `need` indices.
pub proof fn lemma_combs_too_many(start: int, n: int, need: nat)
    requires
        need > n - start,
        need > 0,
    ensures
        combs(start, n, need).len() == 0,
    decreases need, 1int, 0int,
{
    lemma_combs_range_too_many(start, n, n, need);
}

/// Range form of [`lemma_combs_too_many`].
pub proof fn lemma_combs_range_too_many(lo: int, hi: int, n: int, need: nat)
    requires
        need > n - lo,
        need > 0,
        hi <= n,
    ensures
        combs_range(lo, hi, n, need).len() == 0,
    decreases need, 0int, hi - lo,
{
    if hi > lo {
        lemma_combs_range_too_many(lo, hi - 1, n, need);
        if need - 1 > 0 {
            lemma_combs_too_many(hi, n, (need - 1) as nat);
        } else {
            assert(hi - 1 >= lo);
            assert(false);
        }
    }
}


/// Determinant of the submatrix on `rows x cols`, by Laplace expansion along
/// the first selected row (cofactor signs alternate with the position in
/// `cols`; zero entries contribute nothing). The empty minor is `1`.
pub open spec fn minor_spec(pm: PolyMat, rows: Seq<usize>, cols: Seq<usize>) -> Seq<Q>
    decreases rows.len(), cols.len() + 1,
{
    if rows.len() == 0 {
        seq![qint(1)]
    } else if rows.len() == 1 {
        pm.entry(rows[0] as int, cols[0] as int)
    } else {
        laplace(pm, rows, cols, cols.len() as int)
    }
}

/// The first `m` terms of the Laplace expansion of [`minor_spec`].
pub open spec fn laplace(pm: PolyMat, rows: Seq<usize>, cols: Seq<usize>, m: int) -> Seq<Q>
    decreases rows.len(), m,
{
    if m <= 0 || rows.len() == 0 {
        Seq::empty()
    } else {
        let acc = laplace(pm, rows, cols, m - 1);
        let e = pm.entry(rows[0] as int, cols[m - 1] as int);
        if e.len() == 0 {
            acc
        } else {
            let term = poly_mul(e, minor_spec(pm, rows.drop_first(), cols.remove(m - 1)));
            if (m - 1) % 2 == 0 {
                poly_add(acc, term)
            } else {
                poly_sub(acc, term)
            }
        }
    }
}

/// The longest coefficient list among the entries.
pub open spec fn max_entry_len(s: Seq<QPoly>) -> nat
    decreases s.len(),
{
    if s.len() == 0 {
        0
    } else {
        let rest = max_entry_len(s.drop_last());
        if s.last()@.len() > rest {
            s.last()@.len()
        } else {
            rest
        }
    }
}

/// Every entry is at most [`max_entry_len`] long.
pub proof fn lemma_max_entry_len(s: Seq<QPoly>)
    ensures
        forall|k: int| 0 <= k < s.len() ==> (#[trigger] s[k])@.len() <= max_entry_len(s),
    decreases s.len(),
{
    if s.len() > 0 {
        lemma_max_entry_len(s.drop_last());
        assert forall|k: int| 0 <= k < s.len() implies (#[trigger] s[k])@.len() <= max_entry_len(s) by {
            if k < s.len() - 1 {
                assert(s.drop_last()[k] == s[k]);
            }
        }
    }
}

/// Indices all below `n`.
pub open spec fn in_range(ix: Seq<usize>, n: int) -> bool {
    forall|t: int| 0 <= t < ix.len() ==> #[trigger] ix[t] < n
}

/// Sum and difference are no longer than the longer operand.
pub proof fn lemma_add_sub_len(a: Seq<Q>, b: Seq<Q>)
    ensures
        poly_add(a, b).len() <= max_len(a, b),
        poly_sub(a, b).len() <= max_len(a, b),
{
    lemma_trim(Seq::new(max_len(a, b), |i: int| crate::rational::qadd(crate::roots::coef(a, i), crate::roots::coef(b, i))));
    lemma_trim(Seq::new(max_len(a, b), |i: int| crate::rational::qsub(crate::roots::coef(a, i), crate::roots::coef(b, i))));
}

/// A product is no longer than `|a| + |b| - 1`.
pub proof fn lemma_mul_len(a: Seq<Q>, b: Seq<Q>)
    ensures
        poly_mul(a, b).len() <= if a.len() == 0 || b.len() == 0 { 0 } else { a.len() + b.len() - 1 },
{
    if a.len() > 0 && b.len() > 0 {
        lemma_trim(Seq::new((a.len() + b.len() - 1) as nat, |k: int| crate::roots::conv_at(a, b, k, a.len() as int)));
    }
}

/// A `k x k` minor of a matrix whose entries have at most `bound`
/// coefficients has at most `k·bound + 1` coefficients.
pub proof fn lemma_minor_len(pm: PolyMat, rows: Seq<usize>, cols: Seq<usize>, bound: nat)
    requires
        pm.wf(),
        rows.len() == cols.len(),
        in_range(rows, pm.n as int),
        in_range(cols, pm.n as int),
        forall|k: int| 0 <= k < pm.a@.len() ==> (#[trigger] pm.a@[k])@.len() <= bound,
    ensures
        minor_spec(pm, rows, cols).len() <= rows.len() * bound + 1,
    decreases rows.len(), cols.len() + 1,
{
    if rows.len() == 1 {
        crate::ratmat::lemma_index(rows[0] as int, cols[0] as int, pm.n as int, pm.n as int);
        assert(rows.len() * bound == bound) by (nonlinear_arith)
            requires
                rows.len() == 1,
        ;
    } else if rows.len() > 1 {
        lemma_laplace_len(pm, rows, cols, cols.len() as int, bound);
    } else {
        assert(rows.len() * bound == 0) by (nonlinear_arith)
            requires
                rows.len() == 0,
        ;
    }
}

/// Length bound for every partial Laplace sum.
pub proof fn lemma_laplace_len(pm: PolyMat, rows: Seq<usize>, cols: Seq<usize>, m: int, bound: nat)
    requires
        pm.wf(),
        rows.len() == cols.len(),
        rows.len() >= 2,
        m <= cols.len(),
        in_range(rows, pm.n as int),
        in_range(cols, pm.n as int),
        forall|k: int| 0 <= k < pm.a@.len() ==> (#[trigger] pm.a@[k])@.len() <= bound,
    ensures
        laplace(pm, rows, cols, m).len() <= rows.len() * bound + 1,
    decreases rows.len(), m,
{
    if m > 0 {
        lemma_laplace_len(pm, rows, cols, m - 1, bound);
        let acc = laplace(pm, rows, cols, m - 1);
        crate::ratmat::lemma_index(rows[0] as int, cols[m - 1] as int, pm.n as int, pm.n as int);
        let e = pm.entry(rows[0] as int, cols[m - 1] as int);
        if e.len() > 0 {
            let r2 = rows.drop_first();
            let c2 = cols.remove(m - 1);
            assert(in_range(r2, pm.n as int)) by {
                assert forall|t: int| 0 <= t < r2.len() implies #[trigger] r2[t] < pm.n by {
                    assert(r2[t] == rows[t + 1]);
                }
            }
            assert(in_range(c2, pm.n as int)) by {
                assert forall|t: int| 0 <= t < c2.len() implies #[trigger] c2[t] < pm.n by {
                    if t < m - 1 {
                        assert(c2[t] == cols[t]);
                    } else {
                        assert(c2[t] == cols[t + 1]);
                    }
                }
            }
            lemma_minor_len(pm, r2, c2, bound);
            let sub = minor_spec(pm, r2, c2);
            lemma_mul_len(e, sub);
            let term = poly_mul(e, sub);
            assert(term.len() <= rows.len() * bound + 1) by (nonlinear_arith)
                requires
                    term.len() <= e.len() + sub.len() - 1 || term.len() == 0,
                    e.len() <= bound,
                    sub.len() <= (rows.len() - 1) * bound + 1,
                    rows.len() >= 2,
            ;
            lemma_add_sub_len(acc, term);
        }
    }
}


/// Every selection in [`combs`] has `need` strictly increasing indices in
/// `start..n`.
pub proof fn lemma_combs_shape(start: int, n: int, need: nat)
    requires
        0 <= start,
        n <= usize::MAX,
    ensures
        forall|t: int| 0 <= t < combs(start, n, need).len() ==> (#[trigger] combs(start, n, need)[t]).len() == need && in_range(
            combs(start, n, need)[t],
            n,
        ) && (forall|x: int| 0 <= x < need ==> combs(start, n, need)[t][x] >= start) && (forall|x: int, y: int|
            0 <= x < y < need ==> combs(start, n, need)[t][x] < combs(start, n, need)[t][y]),
    decreases need, 1int, 0int,
{
    if need > 0 {
        assert(combs(start, n, need) == combs_range(start, n, n, need));
        lemma_combs_range_shape(start, n, n, need);
    } else {
        assert(combs(start, n, need) == seq![Seq::<usize>::empty()]);
    }
}

/// Range form of [`lemma_combs_shape`].
pub proof fn lemma_combs_range_shape(lo: int, hi: int, n: int, need: nat)
    requires
        0 <= lo,
        hi <= n,
        n <= usize::MAX,
        need > 0,
    ensures
        forall|t: int| 0 <= t < combs_range(lo, hi, n, need).len() ==> (#[trigger] combs_range(lo, hi, n, need)[t]).len() == need
            && in_range(combs_range(lo, hi, n, need)[t], n) && (forall|x: int|
            0 <= x < need ==> combs_range(lo, hi, n, need)[t][x] >= lo) && (forall|x: int, y: int|
            0 <= x < y < need ==> combs_range(lo, hi, n, need)[t][x] < combs_range(lo, hi, n, need)[t][y]),
    decreases need, 0int, hi - lo,
{
    if hi > lo {
        lemma_combs_range_shape(lo, hi - 1, n, need);
        lemma_combs_shape(hi, n, (need - 1) as nat);
        let left = combs_range(lo, hi - 1, n, need);
        let tail = combs(hi, n, (need - 1) as nat);
        let lifted = tail.map_values(|s: Seq<usize>| seq![(hi - 1) as usize] + s);
        let all = combs_range(lo, hi, n, need);
        assert(all == left + lifted);
        assert forall|t: int| 0 <= t < all.len() implies (#[trigger] all[t]).len() == need && in_range(all[t], n) && (forall|
            x: int,
        | 0 <= x < need ==> all[t][x] >= lo) && (forall|x: int, y: int| 0 <= x < y < need ==> all[t][x] < all[t][y]) by {
            if t >= left.len() {
                let u = t - left.len();
                assert(all[t] == lifted[u]);
                assert(lifted[u] == seq![(hi - 1) as usize] + tail[u]);
                assert forall|x: int| 0 <= x < all[t].len() implies #[trigger] all[t][x] < n by {
                    if x > 0 {
                        assert(all[t][x] == tail[u][x - 1]);
                    }
                }
                assert forall|x: int| 0 <= x < need implies all[t][x] >= lo by {
                    if x > 0 {
                        assert(all[t][x] == tail[u][x - 1]);
                        assert(tail[u][x - 1] >= hi);
                    } else {
                        assert(all[t][0] == (hi - 1) as usize);
                    }
                }
                assert forall|x: int, y: int| 0 <= x < y < need implies all[t][x] < all[t][y] by {
                    assert(all[t][y] == tail[u][y - 1]);
                    if x > 0 {
                        assert(all[t][x] == tail[u][x - 1]);
                    }
                }
            } else {
                assert(all[t] == left[t]);
            }
        }
    }
}

/// `ix` without its first element.
fn tail_indices(ix: &[usize]) -> (r: Vec<usize>)
    requires
        ix@.len() > 0,
    ensures
        r@ == ix@.drop_first(),
{
    let mut r: Vec<usize> = Vec::new();
    let mut i: usize = 1;
    while i < ix.len()
        invariant
            1 <= i <= ix@.len(),
            r@ == ix@.subrange(1, i as int),
        decreases ix@.len() - i,
    {
        r.push(ix[i]);
        i = i + 1;
        proof {
            assert(r@ =~= ix@.subrange(1, i as int));
        }
    }
    proof {
        assert(ix@.subrange(1, ix@.len() as int) =~= ix@.drop_first());
    }
    r
}

/// `ix` without its element at position `j`.
fn remove_index(ix: &[usize], j: usize) -> (r: Vec<usize>)
    requires
        j < ix@.len(),
    ensures
        r@ == ix@.remove(j as int),
{
    let mut r: Vec<usize> = Vec::new();
    let mut i: usize = 0;
    while i < ix.len()
        invariant
            j < ix@.len(),
            i <= ix@.len(),
            r@ == (if i <= j { ix@.subrange(0, i as int) } else { ix@.subrange(0, i as int).remove(j as int) }),
        decreases ix@.len() - i,
    {
        if i != j {
            r.push(ix[i]);
        }
        i = i + 1;
        proof {
            if i <= j {
                assert(r@ =~= ix@.subrange(0, i as int));
            } else {
                assert(r@ =~= ix@.subrange(0, i as int).remove(j as int));
            }
        }
    }
    proof {
        assert(ix@.subrange(0, ix@.len() as int) =~= ix@);
    }
    r
}

/// Spend one unit of work when metering.
fn charge(metered: bool, work: &mut AlgebraWork) -> (r: Result<(), AlgebraError>)
    ensures
        final(work).limit() == old(work).limit(),
        final(work).operation() == old(work).operation(),
        !metered ==> r is Ok && final(work).spent() == old(work).spent(),
        metered ==> (r is Ok <==> old(work).spent() + 1 <= old(work).limit()),
        metered && r is Ok ==> final(work).spent() == old(work).spent() + 1,
        r is Err ==> final(work).spent() == old(work).spent() && r == Err::<(), AlgebraError>(
            AlgebraError::BudgetExceeded { operation: old(work).operation(), limit: old(work).limit() as usize },
        ),
        r matches Err(e) ==> e is BudgetExceeded,
{
    if metered {
        work.spend(1)
    } else {
        Ok(())
    }
}

/// Check a polynomial's coefficients when metering.
fn check_poly(metered: bool, p: &QPoly, budget: AlgebraBudget) -> (r: Result<(), AlgebraError>)
    ensures
        !metered ==> r is Ok,
        metered ==> (r is Ok <==> forall|i: int| 0 <= i < p@.len() ==> crate::ratmat::fits(#[trigger] p@[i], budget)),
        r matches Err(e) ==> e is CoefficientBits,
{
    if metered {
        validate_poly(p, budget)
    } else {
        Ok(())
    }
}

/// The one-coefficient polynomial `1`.
fn poly_one() -> (r: QPoly)
    ensures
        r@ == seq![qint(1)],
{
    let mut v: Vec<Rational> = Vec::new();
    v.push(Rational::one());
    proof {
        assert(qs(v@) =~= seq![qint(1)]);
        lemma_trim(seq![qint(1)]);
    }
    QPoly::new(v)
}

impl PolyMat {
    /// Laplace expansion of the minor on `rows x cols`, metered (one unit
    /// per expansion, per product and per sum, and every intermediate
    /// polynomial's coefficients checked) when asked.
    fn minor_rec(
        &self,
        rows: &[usize],
        cols: &[usize],
        metered: bool,
        budget: AlgebraBudget,
        work: &mut AlgebraWork,
    ) -> (r: Result<QPoly, AlgebraError>)
        requires
            self.wf(),
            rows@.len() == cols@.len(),
            in_range(rows@, self.n as int),
            in_range(cols@, self.n as int),
            rows@.len() * max_entry_len(self.a@) <= usize::MAX,
        ensures
            final(work).limit() == old(work).limit(),
            !metered ==> r is Ok,
            r matches Err(e) ==> e is BudgetExceeded || e is CoefficientBits,
            r matches Ok(p) ==> p@ == minor_spec(*self, rows@, cols@),
        decreases rows@.len(),
    {
        charge(metered, work)?;
        let k = rows.len();
        if k == 0 {
            return Ok(poly_one());
        }
        if k == 1 {
            return Ok(self.get(rows[0], cols[0]).clone());
        }
        let ghost bound = max_entry_len(self.a@);
        proof {
            lemma_max_entry_len(self.a@);
        }
        let sub_rows = tail_indices(rows);
        proof {
            assert forall|t: int| 0 <= t < sub_rows@.len() implies #[trigger] sub_rows@[t] < self.n by {
                assert(sub_rows@[t] == rows@[t + 1]);
            }
            assert((k - 1) * bound <= k * bound) by (nonlinear_arith)
                requires
                    k >= 1,
            ;
        }
        let mut acc = QPoly::zero_poly();
        let mut j: usize = 0;
        while j < cols.len()
            invariant
                self.wf(),
                rows@.len() == cols@.len() == k,
                k >= 2,
                bound == max_entry_len(self.a@),
                forall|q: int| 0 <= q < self.a@.len() ==> (#[trigger] self.a@[q])@.len() <= bound,
                in_range(rows@, self.n as int),
                in_range(cols@, self.n as int),
                sub_rows@ == rows@.drop_first(),
                in_range(sub_rows@, self.n as int),
                k * bound <= usize::MAX,
                (k - 1) * bound <= usize::MAX,
                j <= k,
                acc@ == laplace(*self, rows@, cols@, j as int),
                work.limit() == old(work).limit(),
                !metered ==> true,
            decreases k - j,
        {
            let c = cols[j];
            let e = self.get(rows[0], c);
            proof {
                crate::ratmat::lemma_index(rows@[0] as int, c as int, self.n as int, self.n as int);
            }
            if !e.is_zero() {
                let sub_cols = remove_index(cols, j);
                proof {
                    assert forall|t: int| 0 <= t < sub_cols@.len() implies #[trigger] sub_cols@[t] < self.n by {
                        if t < j {
                            assert(sub_cols@[t] == cols@[t]);
                        } else {
                            assert(sub_cols@[t] == cols@[t + 1]);
                        }
                    }
                }
                let sub = self.minor_rec(sub_rows.as_slice(), sub_cols.as_slice(), metered, budget, work)?;
                proof {
                    lemma_minor_len(*self, sub_rows@, sub_cols@, bound);
                    assert(e@.len() + sub@.len() <= usize::MAX + 1) by (nonlinear_arith)
                        requires
                            e@.len() <= bound,
                            sub@.len() <= (k - 1) * bound + 1,
                            k * bound <= usize::MAX,
                            k >= 2,
                    ;
                }
                charge(metered, work)?;
                let term = e.mul_poly(&sub);
                check_poly(metered, &term, budget)?;
                charge(metered, work)?;
                acc = if j % 2 == 0 {
                    acc.add_poly(&term)
                } else {
                    acc.sub_poly(&term)
                };
                check_poly(metered, &acc, budget)?;
            }
            j = j + 1;
        }
        Ok(acc)
    }

    /// Determinant of the submatrix on `rows x cols` under explicit work and
    /// growth limits: the matrix is checked against the budget first, then
    /// the selections (equal sizes, indices in range).
    pub fn minor_with_budget(&self, rows: &[usize], cols: &[usize], budget: AlgebraBudget) -> (r: Result<QPoly, AlgebraError>)
        ensures
            self.n > budget.max_matrix_dimension ==> r == Err::<QPoly, AlgebraError>(
                AlgebraError::MatrixDimension { actual: self.n, limit: budget.max_matrix_dimension },
            ),
            self.n <= budget.max_matrix_dimension && !self.wf() ==> crate::ratmat::is_shape_err(r),
            r matches Ok(p) ==> {
                &&& self.wf()
                &&& rows@.len() == cols@.len()
                &&& in_range(rows@, self.n as int)
                &&& in_range(cols@, self.n as int)
                &&& p@ == minor_spec(*self, rows@, cols@)
            },
            self.wf() && self.n <= budget.max_matrix_dimension && (rows@.len() != cols@.len() || !in_range(rows@, self.n as int)
                || !in_range(cols@, self.n as int)) ==> (r is Err),
    {
        self.validate_budget(budget)?;
        if !self.selections_ok(rows, cols) {
            return Err(AlgebraError::Shape { operation: "computing a polynomial minor", details: "row/column selections must be equal-sized and in range" });
        }
        let bound = self.longest_entry();
        match rows.len().checked_mul(bound) {
            Some(_) => {},
            None => {
                return Err(AlgebraError::BudgetExceeded { operation: "computing a polynomial matrix minor", limit: budget.max_expression_nodes });
            },
        }
        let mut work = AlgebraWork::new(budget, "computing a polynomial matrix minor");
        self.minor_rec(rows, cols, true, budget, &mut work)
    }

    /// Determinant of the submatrix on `rows x cols`, by Laplace expansion.
    /// The empty minor is `1`.
    pub fn minor(&self, rows: &[usize], cols: &[usize]) -> (r: QPoly)
        requires
            self.wf(),
            rows@.len() == cols@.len(),
            in_range(rows@, self.n as int),
            in_range(cols@, self.n as int),
            rows@.len() * max_entry_len(self.a@) <= usize::MAX,
        ensures
            r@ == minor_spec(*self, rows@, cols@),
    {
        let mut work = AlgebraWork::new(AlgebraBudget::unlimited(), "computing a polynomial matrix minor");
        match self.minor_rec(rows, cols, false, AlgebraBudget::unlimited(), &mut work) {
            Ok(p) => p,
            Err(_) => {
                proof {
                    assert(false);
                }
                QPoly::zero_poly()
            },
        }
    }

    /// The selections have equal sizes and in-range indices.
    fn selections_ok(&self, rows: &[usize], cols: &[usize]) -> (r: bool)
        ensures
            r == (rows@.len() == cols@.len() && in_range(rows@, self.n as int) && in_range(cols@, self.n as int)),
    {
        if rows.len() != cols.len() {
            return false;
        }
        let mut t: usize = 0;
        while t < rows.len()
            invariant
                rows@.len() == cols@.len(),
                t <= rows@.len(),
                forall|u: int| 0 <= u < t ==> #[trigger] rows@[u] < self.n,
                forall|u: int| 0 <= u < t ==> #[trigger] cols@[u] < self.n,
            decreases rows@.len() - t,
        {
            if rows[t] >= self.n || cols[t] >= self.n {
                return false;
            }
            t = t + 1;
        }
        true
    }

    /// The longest entry's coefficient count.
    fn longest_entry(&self) -> (r: usize)
        ensures
            r == max_entry_len(self.a@),
    {
        let mut best: usize = 0;
        let mut k: usize = 0;
        while k < self.a.len()
            invariant
                k <= self.a@.len(),
                best == max_entry_len(self.a@.subrange(0, k as int)),
            decreases self.a@.len() - k,
        {
            let l = self.a[k].coefficients().len();
            proof {
                let t = self.a@.subrange(0, k + 1);
                assert(t.drop_last() =~= self.a@.subrange(0, k as int));
                assert(t.last() == self.a@[k as int]);
            }
            if l > best {
                best = l;
            }
            k = k + 1;
        }
        proof {
            assert(self.a@.subrange(0, self.a@.len() as int) =~= self.a@);
        }
        best
    }

    /// `0..n`.
    fn all_indices(&self) -> (r: Vec<usize>)
        ensures
            r@.len() == self.n,
            forall|t: int| 0 <= t < self.n ==> #[trigger] r@[t] == t,
            in_range(r@, self.n as int),
    {
        let mut v: Vec<usize> = Vec::new();
        let mut i: usize = 0;
        while i < self.n
            invariant
                i <= self.n,
                v@.len() == i,
                forall|t: int| 0 <= t < i ==> #[trigger] v@[t] == t,
            decreases self.n - i,
        {
            v.push(i);
            i = i + 1;
        }
        v
    }

    /// Full determinant under explicit work/growth limits.
    pub fn det_with_budget(&self, budget: AlgebraBudget) -> (r: Result<QPoly, AlgebraError>)
        ensures
            self.n > budget.max_matrix_dimension ==> r == Err::<QPoly, AlgebraError>(
                AlgebraError::MatrixDimension { actual: self.n, limit: budget.max_matrix_dimension },
            ),
            self.n <= budget.max_matrix_dimension && !self.wf() ==> crate::ratmat::is_shape_err(r),
            r matches Ok(p) ==> self.wf() && exists|all: Seq<usize>|
                all.len() == self.n && (forall|t: int| 0 <= t < self.n ==> #[trigger] all[t] == t) && p@ == minor_spec(*self, all, all),
    {
        let all = self.all_indices();
        let r = self.minor_with_budget(all.as_slice(), all.as_slice(), budget);
        proof {
            if r is Ok {
                assert(all@.len() == self.n && (forall|t: int| 0 <= t < self.n ==> #[trigger] all@[t] == t));
            }
        }
        r
    }

    /// The full determinant, `det(λ·m1 + m0)`, by Laplace expansion.
    pub fn det(&self) -> (r: QPoly)
        requires
            self.wf(),
            self.n * max_entry_len(self.a@) <= usize::MAX,
        ensures
            exists|all: Seq<usize>|
                all.len() == self.n && (forall|t: int| 0 <= t < self.n ==> #[trigger] all[t] == t) && r@ == minor_spec(*self, all, all),
    {
        let all = self.all_indices();
        let r = self.minor(all.as_slice(), all.as_slice());
        proof {
            assert(all@.len() == self.n && (forall|t: int| 0 <= t < self.n ==> #[trigger] all@[t] == t));
        }
        r
    }
}


/// Every `k x k` minor (rows and columns drawn from the ascending
/// `k`-subsets of `0..n`) is the zero polynomial.
pub open spec fn all_minors_zero(pm: PolyMat, k: nat) -> bool {
    let cs = combs(0, pm.n as int, k);
    forall|r: int, c: int| 0 <= r < cs.len() && 0 <= c < cs.len() ==> (#[trigger] minor_spec(pm, cs[r], cs[c])).len() == 0
}

impl PolyMat {
    /// The `k`-th determinantal divisor: `1` for `k == 0`, the zero
    /// polynomial for `k > n`, and otherwise the monic gcd of all `k x k`
    /// minors, stopping early at a unit (metered when asked).
    fn divisor_core(&self, k: usize, metered: bool, budget: AlgebraBudget, work: &mut AlgebraWork) -> (r: Result<
        QPoly,
        AlgebraError,
    >)
        requires
            self.wf(),
            self.n * max_entry_len(self.a@) <= usize::MAX,
        ensures
            final(work).limit() == old(work).limit(),
            !metered ==> r is Ok,
            metered && (k == 0 || k > self.n) ==> (r is Ok <==> self.within_budget(budget)),
            r matches Err(e) ==> e is BudgetExceeded || e is CoefficientBits || e is MatrixDimension || e is Shape,
            r matches Ok(g) ==> {
                &&& k == 0 ==> g@ == seq![qint(1)]
                &&& k > self.n ==> g@.len() == 0
                &&& 1 <= k <= self.n ==> (g@.len() == 0 <==> all_minors_zero(*self, k as nat))
                &&& g@.len() > 0 ==> g@.last() == qint(1)
            },
    {
        if metered {
            self.validate_budget(budget)?;
        }
        if k == 0 {
            return Ok(poly_one());
        }
        if k > self.n {
            return Ok(QPoly::zero_poly());
        }
        if metered {
            let count = binomial_capped(self.n, k, budget.max_expression_nodes);
            match count.checked_mul(count) {
                Some(w) => {
                    if w > budget.max_expression_nodes {
                        return Err(AlgebraError::BudgetExceeded { operation: "enumerating polynomial minors", limit: budget.max_expression_nodes });
                    }
                },
                None => {
                    return Err(AlgebraError::BudgetExceeded { operation: "enumerating polynomial minors", limit: budget.max_expression_nodes });
                },
            }
            work.spend(count)?;
        }
        let combos = combinations(self.n, k);
        let ghost cs = combs(0, self.n as int, k as nat);
        proof {
            lemma_combs_shape(0, self.n as int, k as nat);
            assert((k as int) * max_entry_len(self.a@) <= self.n * max_entry_len(self.a@)) by (nonlinear_arith)
                requires
                    k <= self.n,
            ;
        }
        let mut g = QPoly::zero_poly();
        let mut ri: usize = 0;
        while ri < combos.len()
            invariant
                self.wf(),
                1 <= k <= self.n,
                (k as int) * max_entry_len(self.a@) <= usize::MAX,
                cs == combs(0, self.n as int, k as nat),
                views(combos@) == cs,
                forall|t: int| 0 <= t < cs.len() ==> (#[trigger] cs[t]).len() == k && in_range(cs[t], self.n as int),
                ri <= combos@.len(),
                g@.len() == 0 <==> forall|r: int, c: int| 0 <= r < ri && 0 <= c < cs.len() ==> (#[trigger] minor_spec(*self, cs[r], cs[c])).len() == 0,
                g@.len() > 0 ==> g@.last() == qint(1),
                work.limit() == old(work).limit(),
            decreases combos@.len() - ri,
        {
            let mut ci: usize = 0;
            while ci < combos.len()
                invariant
                    self.wf(),
                    1 <= k <= self.n,
                    (k as int) * max_entry_len(self.a@) <= usize::MAX,
                    cs == combs(0, self.n as int, k as nat),
                    views(combos@) == cs,
                    forall|t: int| 0 <= t < cs.len() ==> (#[trigger] cs[t]).len() == k && in_range(cs[t], self.n as int),
                    ri < combos@.len(),
                    ci <= combos@.len(),
                    g@.len() == 0 <==> (forall|r: int, c: int|
                        0 <= r < ri && 0 <= c < cs.len() ==> (#[trigger] minor_spec(*self, cs[r], cs[c])).len() == 0) && (forall|c: int|
                        0 <= c < ci ==> (#[trigger] minor_spec(*self, cs[ri as int], cs[c])).len() == 0),
                    g@.len() > 0 ==> g@.last() == qint(1),
                    work.limit() == old(work).limit(),
                decreases combos@.len() - ci,
            {
                proof {
                    assert(combos@[ri as int]@ == cs[ri as int]);
                    assert(combos@[ci as int]@ == cs[ci as int]);
                }
                let m = self.minor_rec(combos[ri].as_slice(), combos[ci].as_slice(), metered, budget, work)?;
                if !m.is_zero() {
                    charge(metered, work)?;
                    g = g.gcd(&m);
                    check_poly(metered, &g, budget)?;
                    if g.degree() == Some(0) {
                        proof {
                            assert(minor_spec(*self, cs[ri as int], cs[ci as int]).len() != 0);
                        }
                        return Ok(poly_one());
                    }
                }
                ci = ci + 1;
            }
            ri = ri + 1;
            proof {
                if g@.len() == 0 {
                    assert forall|r: int, c: int| 0 <= r < ri && 0 <= c < cs.len() implies (#[trigger] minor_spec(*self, cs[r], cs[c])).len() == 0 by {
                        if r == ri - 1 {
                            assert(minor_spec(*self, cs[(ri - 1) as int], cs[c]).len() == 0);
                        }
                    }
                }
            }
        }
        check_poly(metered, &g, budget)?;
        Ok(g)
    }

    /// The `k`-th determinantal divisor `D_k` under explicit
    /// combination/work/growth limits.
    pub fn determinantal_divisor_with_budget(&self, k: usize, budget: AlgebraBudget) -> (r: Result<QPoly, AlgebraError>)
        ensures
            self.n > budget.max_matrix_dimension ==> r is Err,
            !self.within_budget(budget) ==> r is Err,
            self.within_budget(budget) && self.n * max_entry_len(self.a@) > usize::MAX ==> r matches Err(
                AlgebraError::BudgetExceeded { .. },
            ),
            self.within_budget(budget) && self.n * max_entry_len(self.a@) <= usize::MAX && (k == 0 || k > self.n)
                ==> r is Ok,
            r matches Ok(g) ==> {
                &&& self.wf()
                &&& k == 0 ==> g@ == seq![qint(1)]
                &&& k > self.n ==> g@.len() == 0
                &&& 1 <= k <= self.n ==> (g@.len() == 0 <==> all_minors_zero(*self, k as nat))
                &&& g@.len() > 0 ==> g@.last() == qint(1)
            },
    {
        self.validate_budget(budget)?;
        let bound = self.longest_entry();
        match self.n.checked_mul(bound) {
            Some(_) => {},
            None => {
                return Err(AlgebraError::BudgetExceeded { operation: "computing a polynomial determinantal divisor", limit: budget.max_expression_nodes });
            },
        }
        let mut work = AlgebraWork::new(budget, "computing a polynomial determinantal divisor");
        self.divisor_core(k, true, budget, &mut work)
    }

    /// The `k`-th determinantal divisor `D_k`: the monic gcd of all `k x k`
    /// minors. `D_0 = 1`; `D_k = 0` iff every `k x k` minor vanishes.
    pub fn determinantal_divisor(&self, k: usize) -> (r: QPoly)
        requires
            self.wf(),
            self.n * max_entry_len(self.a@) <= usize::MAX,
        ensures
            k == 0 ==> r@ == seq![qint(1)],
            k > self.n ==> r@.len() == 0,
            1 <= k <= self.n ==> (r@.len() == 0 <==> all_minors_zero(*self, k as nat)),
            r@.len() > 0 ==> r@.last() == qint(1),
    {
        let mut work = AlgebraWork::new(AlgebraBudget::unlimited(), "computing a polynomial determinantal divisor");
        match self.divisor_core(k, false, AlgebraBudget::unlimited(), &mut work) {
            Ok(g) => g,
            Err(_) => {
                proof {
                    assert(false);
                }
                QPoly::zero_poly()
            },
        }
    }

    /// The invariant factors `i_k = D_k / D_(k-1)`, `k = 1..n` (the zero
    /// polynomial where `D_k` or `D_(k-1)` vanishes), metered when asked.
    fn factors_core(&self, metered: bool, budget: AlgebraBudget) -> (r: Result<Vec<QPoly>, AlgebraError>)
        requires
            self.wf(),
            self.n * max_entry_len(self.a@) <= usize::MAX,
        ensures
            !metered ==> r is Ok,
            metered && self.n == 0 ==> (r is Ok <==> self.within_budget(budget)),
            r matches Ok(v) ==> v@.len() == self.n && forall|k: int|
                0 <= k < self.n && all_minors_zero(*self, (k + 1) as nat) ==> (#[trigger] v@[k])@.len() == 0,
            r matches Ok(v) ==> forall|k: int| 0 <= k < v@.len() ==> (#[trigger] v@[k])@.len() == 0 || v@[k]@.last() == qint(1),
    {
        if metered {
            self.validate_budget(budget)?;
        }
        let _len = self.a.len();
        proof {
            assert(self.n < usize::MAX) by (nonlinear_arith)
                requires
                    self.n * self.n <= usize::MAX,
                    usize::MAX >= 4,
            ;
        }
        let mut work = AlgebraWork::new(budget, "computing polynomial invariant factors");
        let mut ds: Vec<QPoly> = Vec::new();
        let mut k: usize = 0;
        while k <= self.n
            invariant
                self.wf(),
                self.n * max_entry_len(self.a@) <= usize::MAX,
                self.n < usize::MAX,
                k <= self.n + 1,
                ds@.len() == k,
                forall|t: int| 1 <= t < k ==> ((#[trigger] ds@[t])@.len() == 0 <==> all_minors_zero(*self, t as nat)),
                forall|t: int| 0 <= t < k ==> (#[trigger] ds@[t])@.len() > 0 ==> ds@[t]@.last() == qint(1),
                !metered ==> true,
            decreases self.n + 1 - k,
        {
            let d = self.divisor_core(k, metered, budget, &mut work)?;
            ds.push(d);
            k = k + 1;
        }
        let mut out: Vec<QPoly> = Vec::new();
        let mut k: usize = 1;
        while k <= self.n
            invariant
                1 <= k <= self.n + 1,
                self.n < usize::MAX,
                ds@.len() == self.n + 1,
                out@.len() == k - 1,
                forall|t: int| 1 <= t <= self.n ==> ((#[trigger] ds@[t])@.len() == 0 <==> all_minors_zero(*self, t as nat)),
                forall|t: int| 0 <= t <= self.n ==> (#[trigger] ds@[t])@.len() > 0 ==> ds@[t]@.last() == qint(1),
                forall|t: int| 0 <= t < k - 1 && all_minors_zero(*self, (t + 1) as nat) ==> (#[trigger] out@[t])@.len() == 0,
                forall|t: int| 0 <= t < k - 1 ==> (#[trigger] out@[t])@.len() == 0 || out@[t]@.last() == qint(1),
            decreases self.n + 1 - k,
        {
            if ds[k].is_zero() {
                out.push(QPoly::zero_poly());
            } else if ds[k - 1].is_zero() {
                out.push(QPoly::zero_poly());
            } else {
                charge(metered, &mut work)?;
                let (q, rm) = ds[k].div_rem(&ds[k - 1]).unwrap();
                ds[k].lowest_coefficients();
                ds[k - 1].lowest_coefficients();
                q.lowest_coefficients();
                rm.lowest_coefficients();
                q.is_trimmed();
                proof {
                    if ds@[k - 1]@.len() <= ds@[k as int]@.len() {
                        crate::polydiv::lemma_monic_quotient(ds@[k as int]@, ds@[k - 1]@, q@, rm@);
                    }
                }
                check_poly(metered, &q, budget)?;
                out.push(q);
            }
            k = k + 1;
        }
        Ok(out)
    }

    /// The invariant factors `i_1 | i_2 | … | i_n` of the pencil over
    /// ℚ[λ], as `i_k = D_k / D_(k-1)`, under explicit
    /// combination/work/growth limits.
    pub fn invariant_factors_with_budget(&self, budget: AlgebraBudget) -> (r: Result<Vec<QPoly>, AlgebraError>)
        ensures
            self.n > budget.max_matrix_dimension ==> r is Err,
            !self.within_budget(budget) ==> r is Err,
            self.within_budget(budget) && self.n * max_entry_len(self.a@) > usize::MAX ==> r matches Err(
                AlgebraError::BudgetExceeded { .. },
            ),
            self.within_budget(budget) && self.n == 0 ==> (r matches Ok(v) && v@.len() == 0),
            r matches Ok(v) ==> self.wf() && v@.len() == self.n && forall|k: int|
                0 <= k < self.n && all_minors_zero(*self, (k + 1) as nat) ==> (#[trigger] v@[k])@.len() == 0,
            r matches Ok(v) ==> forall|k: int| 0 <= k < v@.len() ==> (#[trigger] v@[k])@.len() == 0 || v@[k]@.last() == qint(1),
    {
        self.validate_budget(budget)?;
        let bound = self.longest_entry();
        proof {
            if self.n == 0 {
                assert(self.n * bound == 0) by (nonlinear_arith)
                    requires
                        self.n == 0,
                ;
            }
        }
        match self.n.checked_mul(bound) {
            Some(_) => {},
            None => {
                return Err(AlgebraError::BudgetExceeded { operation: "computing polynomial invariant factors", limit: budget.max_expression_nodes });
            },
        }
        self.factors_core(true, budget)
    }

    /// The invariant factors `i_1 | i_2 | … | i_n` of the pencil over ℚ[λ],
    /// as `i_k = D_k / D_(k-1)`: each zero or monic.
    pub fn invariant_factors(&self) -> (r: Vec<QPoly>)
        requires
            self.wf(),
            self.n * max_entry_len(self.a@) <= usize::MAX,
        ensures
            r@.len() == self.n,
            forall|k: int| 0 <= k < self.n && all_minors_zero(*self, (k + 1) as nat) ==> (#[trigger] r@[k])@.len() == 0,
            forall|k: int| 0 <= k < r@.len() ==> (#[trigger] r@[k])@.len() == 0 || r@[k]@.last() == qint(1),
    {
        match self.factors_core(false, AlgebraBudget::unlimited()) {
            Ok(v) => v,
            Err(_) => {
                proof {
                    assert(false);
                }
                Vec::new()
            },
        }
    }
}

} // verus!
