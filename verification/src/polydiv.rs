//! Why polynomial long division is exact: the bookkeeping identity
//! `p == quotient · divisor + remainder` that every elimination step of
//! [`crate::roots::QPoly::div_rem`] keeps, stated over coefficient lists.
use vstd::prelude::*;
use crate::rational::{Q, abs, qint, qadd, qsub, qmul, qdiv, qneg, canonical, lemma_canonical_zero};
use crate::polynomial::poly_neg;
use crate::qfield::{
    lemma_ops_lowest, lemma_zero_lowest, lemma_qadd_zero, lemma_qmul_zero_left, lemma_qadd_swap,
    lemma_qadd_sub_cancel, lemma_qsub_quotient_cancels,
};
use crate::roots::{coef, trim, trimmed, conv_at, poly_mul, poly_add, max_len, lemma_trim};

verus! {

/// Every coefficient is in lowest terms.
pub open spec fn all_lowest(s: Seq<Q>) -> bool {
    forall|i: int| 0 <= i < s.len() ==> canonical(#[trigger] s[i])
}

/// Convolution sums are in lowest terms.
pub proof fn lemma_conv_lowest(a: Seq<Q>, b: Seq<Q>, m: int, n: int)
    requires
        n <= a.len(),
        all_lowest(a),
        all_lowest(b),
    ensures
        canonical(conv_at(a, b, m, n)),
    decreases n,
{
    if n <= 0 {
        lemma_zero_lowest();
    } else {
        lemma_conv_lowest(a, b, m, n - 1);
        if 0 <= m - (n - 1) < b.len() {
            lemma_ops_lowest(a[n - 1], b[m - (n - 1)]);
            lemma_ops_lowest(conv_at(a, b, m, n - 1), qmul(a[n - 1], b[m - (n - 1)]));
        }
    }
}

/// A convolution sum reads only the first `n` coefficients of `a`.
pub proof fn lemma_conv_prefix(a: Seq<Q>, a2: Seq<Q>, b: Seq<Q>, m: int, n: int)
    requires
        n <= a.len(),
        n <= a2.len(),
        forall|i: int| 0 <= i < n ==> a[i] == a2[i],
    ensures
        conv_at(a, b, m, n) == conv_at(a2, b, m, n),
    decreases n,
{
    if n > 0 {
        lemma_conv_prefix(a, a2, b, m, n - 1);
        assert(a[n - 1] == a2[n - 1]);
    }
}

/// A convolution sum whose every term has a zero factor of `a` is zero.
pub proof fn lemma_conv_vanish(a: Seq<Q>, b: Seq<Q>, m: int, n: int)
    requires
        n <= a.len(),
        all_lowest(b),
        forall|i: int| 0 <= i < n && 0 <= m - i < b.len() ==> a[i] == qint(0),
    ensures
        conv_at(a, b, m, n) == qint(0),
    decreases n,
{
    if n > 0 {
        lemma_conv_vanish(a, b, m, n - 1);
        if 0 <= m - (n - 1) < b.len() {
            assert(a[n - 1] == qint(0));
            lemma_qmul_zero_left(b[m - (n - 1)]);
            lemma_zero_lowest();
            lemma_qadd_zero(qint(0));
        }
    }
}

/// Zero coefficients past `n0` add nothing to a convolution sum.
pub proof fn lemma_conv_tail(a: Seq<Q>, b: Seq<Q>, m: int, n0: int, n: int)
    requires
        0 <= n0 <= n <= a.len(),
        all_lowest(a),
        all_lowest(b),
        forall|i: int| n0 <= i < n ==> a[i] == qint(0),
    ensures
        conv_at(a, b, m, n) == conv_at(a, b, m, n0),
    decreases n,
{
    if n > n0 {
        lemma_conv_tail(a, b, m, n0, n - 1);
        if 0 <= m - (n - 1) < b.len() {
            assert(a[n - 1] == qint(0));
            lemma_qmul_zero_left(b[m - (n - 1)]);
            lemma_conv_lowest(a, b, m, n - 1);
            lemma_qadd_zero(conv_at(a, b, m, n - 1));
        }
    }
}

/// Setting a zero coefficient `a[k]` to `x` adds the one term `x·b[m-k]`
/// to the convolution sum at `m`.
pub proof fn lemma_conv_update(a: Seq<Q>, b: Seq<Q>, m: int, n: int, k: int, x: Q)
    requires
        0 <= k < n <= a.len(),
        a[k] == qint(0),
        all_lowest(a),
        all_lowest(b),
        canonical(x),
    ensures
        conv_at(a.update(k, x), b, m, n) == (if 0 <= m - k < b.len() {
            qadd(conv_at(a, b, m, n), qmul(x, b[m - k]))
        } else {
            conv_at(a, b, m, n)
        }),
    decreases n,
{
    let a2 = a.update(k, x);
    assert(all_lowest(a2));
    if n - 1 == k {
        lemma_conv_prefix(a, a2, b, m, k);
        if 0 <= m - k < b.len() {
            lemma_qmul_zero_left(b[m - k]);
            lemma_conv_lowest(a, b, m, k);
            lemma_qadd_zero(conv_at(a, b, m, k));
        }
    } else {
        lemma_conv_update(a, b, m, n - 1, k, x);
        assert(a2[n - 1] == a[n - 1]);
        if 0 <= m - (n - 1) < b.len() {
            if 0 <= m - k < b.len() {
                lemma_conv_lowest(a, b, m, n - 1);
                lemma_ops_lowest(x, b[m - k]);
                lemma_ops_lowest(a[n - 1], b[m - (n - 1)]);
                lemma_qadd_swap(conv_at(a, b, m, n - 1), qmul(x, b[m - k]), qmul(a[n - 1], b[m - (n - 1)]));
            }
        }
    }
}

/// Trimming keeps every coefficient, reading past the end as zero.
pub proof fn lemma_coef_trim(s: Seq<Q>)
    requires
        all_lowest(s),
    ensures
        forall|m: int| #[trigger] coef(trim(s), m) == coef(s, m),
        all_lowest(trim(s)),
{
    lemma_trim(s);
    assert forall|m: int| #[trigger] coef(trim(s), m) == coef(s, m) by {
        if trim(s).len() <= m < s.len() {
            lemma_canonical_zero(s[m]);
        }
    }
}

/// Two trimmed lists with the same coefficients everywhere are equal.
pub proof fn lemma_trimmed_coef_eq(a: Seq<Q>, b: Seq<Q>)
    requires
        trimmed(a),
        trimmed(b),
        forall|m: int| coef(a, m) == coef(b, m),
    ensures
        a == b,
{
    if a.len() < b.len() {
        assert(coef(a, b.len() - 1) == coef(b, b.len() - 1));
    } else if b.len() < a.len() {
        assert(coef(a, a.len() - 1) == coef(b, a.len() - 1));
    } else {
        assert forall|i: int| 0 <= i < a.len() implies a[i] == b[i] by {
            assert(coef(a, i) == coef(b, i));
        }
        assert(a =~= b);
    }
}

/// The coefficients of a sum are the sums of coefficients.
pub proof fn lemma_add_coef(a: Seq<Q>, b: Seq<Q>)
    requires
        all_lowest(a),
        all_lowest(b),
    ensures
        forall|m: int| #[trigger] coef(poly_add(a, b), m) == qadd(coef(a, m), coef(b, m)),
        all_lowest(poly_add(a, b)),
        trimmed(poly_add(a, b)),
{
    let raw = Seq::new(max_len(a, b), |i: int| qadd(coef(a, i), coef(b, i)));
    lemma_zero_lowest();
    assert forall|i: int| 0 <= i < raw.len() implies canonical(#[trigger] raw[i]) by {
        lemma_ops_lowest(coef(a, i), coef(b, i));
    }
    lemma_coef_trim(raw);
    lemma_trim(raw);
    lemma_qadd_zero(qint(0));
    assert forall|m: int| #[trigger] coef(poly_add(a, b), m) == qadd(coef(a, m), coef(b, m)) by {
        assert(coef(trim(raw), m) == coef(raw, m));
    }
}

/// The coefficients of a product by a trimmed quotient list are the
/// convolution sums over the untrimmed list.
pub proof fn lemma_mul_coef(quot: Seq<Q>, d: Seq<Q>)
    requires
        all_lowest(quot),
        all_lowest(d),
        d.len() >= 1,
    ensures
        forall|m: int| 0 <= m ==> #[trigger] coef(poly_mul(trim(quot), d), m) == conv_at(quot, d, m, quot.len() as int),
        all_lowest(poly_mul(trim(quot), d)),
{
    let qt = trim(quot);
    let n = quot.len() as int;
    lemma_trim(quot);
    lemma_coef_trim(quot);
    lemma_zero_lowest();
    assert forall|i: int| qt.len() <= i < n implies quot[i] == qint(0) by {
        lemma_canonical_zero(quot[i]);
    }
    if qt.len() == 0 {
        assert forall|m: int| 0 <= m implies #[trigger] coef(poly_mul(qt, d), m) == conv_at(quot, d, m, n) by {
            lemma_conv_vanish(quot, d, m, n);
        }
    } else {
        let nq = qt.len() as int;
        let raw = Seq::new((qt.len() + d.len() - 1) as nat, |k: int| conv_at(qt, d, k, nq));
        assert forall|i: int| 0 <= i < raw.len() implies canonical(#[trigger] raw[i]) by {
            lemma_conv_lowest(qt, d, i, nq);
        }
        lemma_coef_trim(raw);
        assert forall|m: int| 0 <= m implies #[trigger] coef(poly_mul(qt, d), m) == conv_at(quot, d, m, n) by {
            assert(coef(trim(raw), m) == coef(raw, m));
            lemma_conv_tail(quot, d, m, nq, n);
            if m < raw.len() {
                lemma_conv_prefix(qt, quot, d, m, nq);
            } else {
                lemma_conv_vanish(quot, d, m, nq);
            }
        }
    }
}

/// The state of long division of `p` by `d` once the quotient coefficients
/// from `k` up are fixed: `p == quot·d + rem` coefficient by coefficient,
/// the quotient is still zero below `k`, and the remainder is zero from
/// `k + deg d` up.
pub closed spec fn division_state(p: Seq<Q>, d: Seq<Q>, quot: Seq<Q>, rem: Seq<Q>, k: int) -> bool {
    let dr = d.len() - 1;
    &&& d.len() >= 1
    &&& all_lowest(d)
    &&& d[dr].0 != 0
    &&& rem.len() == p.len()
    &&& p.len() == quot.len() + dr
    &&& 0 <= k <= quot.len()
    &&& all_lowest(quot)
    &&& all_lowest(rem)
    &&& forall|i: int| 0 <= i < k ==> #[trigger] quot[i] == qint(0)
    &&& forall|m: int| 0 <= m < p.len() ==> #[trigger] p[m] == qadd(conv_at(quot, d, m, quot.len() as int), rem[m])
    &&& forall|m: int| k + dr <= m < p.len() ==> #[trigger] rem[m] == qint(0)
}

/// Before any step: quotient zero, remainder `p`.
pub proof fn lemma_division_start(p: Seq<Q>, d: Seq<Q>, quot: Seq<Q>)
    requires
        d.len() >= 1,
        all_lowest(d),
        d[d.len() - 1].0 != 0,
        all_lowest(p),
        p.len() == quot.len() + d.len() - 1,
        forall|i: int| 0 <= i < quot.len() ==> quot[i] == qint(0),
    ensures
        division_state(p, d, quot, p, quot.len() as int),
{
    lemma_zero_lowest();
    assert forall|m: int| 0 <= m < p.len() implies #[trigger] p[m] == qadd(
        conv_at(quot, d, m, quot.len() as int),
        p[m],
    ) by {
        lemma_conv_vanish(quot, d, m, quot.len() as int);
        lemma_qadd_zero(p[m]);
    }
}

/// A step whose remainder coefficient is already zero fixes a zero
/// quotient coefficient.
pub proof fn lemma_division_skip(p: Seq<Q>, d: Seq<Q>, quot: Seq<Q>, rem: Seq<Q>, k: int)
    requires
        division_state(p, d, quot, rem, k + 1),
        0 <= k,
        rem[k + d.len() - 1].0 == 0,
    ensures
        division_state(p, d, quot, rem, k),
{
    let dr = d.len() - 1;
    assert(canonical(rem[k + dr]));
    lemma_canonical_zero(rem[k + dr]);
    assert forall|m: int| k + dr <= m < p.len() implies #[trigger] rem[m] == qint(0) by {
        if m > k + dr {
            assert(k + 1 + dr <= m);
        }
    }
}

/// One elimination step: with `q = rem[k + deg d] / lead(d)`, subtracting
/// `q·x^k·d` from the remainder and recording `q` as quotient coefficient
/// `k` keeps `p == quot·d + rem` and clears remainder coefficient
/// `k + deg d`.
pub proof fn lemma_division_step(p: Seq<Q>, d: Seq<Q>, quot: Seq<Q>, r0: Seq<Q>, r1: Seq<Q>, k: int, q: Q)
    requires
        division_state(p, d, quot, r0, k + 1),
        0 <= k,
        q == qdiv(r0[k + d.len() - 1], d[d.len() - 1]),
        r1.len() == r0.len(),
        forall|m: int|
            0 <= m < r0.len() ==> (#[trigger] r1[m] == (if k <= m <= k + d.len() - 1 {
                qsub(r0[m], qmul(q, d[m - k]))
            } else {
                r0[m]
            })),
    ensures
        division_state(p, d, quot.update(k, q), r1, k),
        canonical(q),
{
    let dr = d.len() - 1;
    let n = quot.len() as int;
    lemma_qsub_quotient_cancels(r0[k + dr], d[dr]);
    assert(quot[k] == qint(0));
    let quot2 = quot.update(k, q);
    assert forall|m: int| 0 <= m < r1.len() implies canonical(#[trigger] r1[m]) by {
        if k <= m <= k + dr {
            lemma_ops_lowest(q, d[m - k]);
            lemma_ops_lowest(r0[m], qmul(q, d[m - k]));
        }
    }
    assert forall|m: int| 0 <= m < p.len() implies #[trigger] p[m] == qadd(conv_at(quot2, d, m, n), r1[m]) by {
        lemma_conv_update(quot, d, m, n, k, q);
        assert(p[m] == qadd(conv_at(quot, d, m, n), r0[m]));
        if k <= m <= k + dr {
            lemma_conv_lowest(quot, d, m, n);
            lemma_ops_lowest(q, d[m - k]);
            lemma_qadd_sub_cancel(conv_at(quot, d, m, n), qmul(q, d[m - k]), r0[m]);
        }
    }
    assert forall|m: int| k + dr <= m < p.len() implies #[trigger] r1[m] == qint(0) by {
        if m > k + dr {
            assert(r0[m] == qint(0));
        }
    }
    assert forall|i: int| 0 <= i < k implies #[trigger] quot2[i] == qint(0) by {
        assert(quot[i] == qint(0));
    }
    assert(all_lowest(quot2));
}

/// After the last step the quotient and the low part of the remainder
/// reassemble `p`.
pub proof fn lemma_division_result(p: Seq<Q>, d: Seq<Q>, quot: Seq<Q>, rem: Seq<Q>, low: Seq<Q>)
    requires
        division_state(p, d, quot, rem, 0),
        trimmed(p),
        low == rem.subrange(0, d.len() - 1),
    ensures
        p == poly_add(poly_mul(trim(quot), d), trim(low)),
        all_lowest(trim(quot)),
        all_lowest(trim(low)),
{
    let dr = d.len() - 1;
    let n = quot.len() as int;
    lemma_mul_coef(quot, d);
    assert(all_lowest(low));
    lemma_coef_trim(low);
    lemma_coef_trim(quot);
    let pm = poly_mul(trim(quot), d);
    let rl = trim(low);
    lemma_add_coef(pm, rl);
    lemma_zero_lowest();
    lemma_qadd_zero(qint(0));
    assert forall|m: int| coef(p, m) == coef(poly_add(pm, rl), m) by {
        if 0 <= m {
            assert(coef(pm, m) == conv_at(quot, d, m, n));
            assert(coef(rl, m) == coef(low, m));
            if m < p.len() {
                assert(p[m] == qadd(conv_at(quot, d, m, n), rem[m]));
                if m >= dr {
                    assert(rem[m] == qint(0));
                }
            } else {
                lemma_conv_vanish(quot, d, m, n);
            }
        }
    }
    lemma_trimmed_coef_eq(p, poly_add(pm, rl));
}

/// Adding the zero polynomial changes nothing.
pub proof fn lemma_add_zero_left(p: Seq<Q>)
    requires
        all_lowest(p),
        trimmed(p),
    ensures
        poly_add(Seq::<Q>::empty(), p) == p,
{
    lemma_zero_lowest();
    lemma_add_coef(Seq::<Q>::empty(), p);
    assert forall|m: int| coef(p, m) == coef(poly_add(Seq::<Q>::empty(), p), m) by {
        if 0 <= m < p.len() {
            lemma_qadd_zero(p[m]);
        } else {
            lemma_qadd_zero(qint(0));
        }
    }
    lemma_trimmed_coef_eq(p, poly_add(Seq::<Q>::empty(), p));
}


/// Adding the zero polynomial on the right changes nothing.
pub proof fn lemma_add_zero_right(p: Seq<Q>)
    requires
        all_lowest(p),
        trimmed(p),
    ensures
        poly_add(p, Seq::<Q>::empty()) == p,
{
    lemma_zero_lowest();
    lemma_add_coef(p, Seq::<Q>::empty());
    assert forall|m: int| coef(p, m) == coef(poly_add(p, Seq::<Q>::empty()), m) by {
        if 0 <= m < p.len() {
            lemma_qadd_zero(p[m]);
        } else {
            lemma_qadd_zero(qint(0));
        }
    }
    lemma_trimmed_coef_eq(p, poly_add(p, Seq::<Q>::empty()));
}

/// Products of lists in lowest terms are trimmed and in lowest terms.
pub proof fn lemma_mul_lowest(a: Seq<Q>, b: Seq<Q>)
    requires
        all_lowest(a),
        all_lowest(b),
    ensures
        all_lowest(poly_mul(a, b)),
        trimmed(poly_mul(a, b)),
{
    if a.len() > 0 && b.len() > 0 {
        let raw = Seq::new((a.len() + b.len() - 1) as nat, |k: int| conv_at(a, b, k, a.len() as int));
        assert forall|i: int| 0 <= i < raw.len() implies canonical(#[trigger] raw[i]) by {
            lemma_conv_lowest(a, b, i, a.len() as int);
        }
        lemma_coef_trim(raw);
        lemma_trim(raw);
    }
}


/// `r + (-t) == r - t`.
pub proof fn lemma_qadd_neg(r: Q, t: Q)
    ensures
        qadd(r, qneg(t)) == qsub(r, t),
{
    assert((-t.0) * r.1 == -(t.0 * r.1)) by (nonlinear_arith);
}

/// Negating every coefficient negates every coefficient read.
pub proof fn lemma_neg_coef(s: Seq<Q>)
    requires
        all_lowest(s),
    ensures
        all_lowest(poly_neg(s)),
        forall|m: int| #[trigger] coef(poly_neg(s), m) == qneg(coef(s, m)),
{
    let mapped = s.map_values(|c: Q| qneg(c));
    assert forall|i: int| 0 <= i < mapped.len() implies canonical(#[trigger] mapped[i]) by {
        assert(canonical(s[i]));
        assert(abs(-s[i].0) == abs(s[i].0));
    }
    lemma_coef_trim(mapped);
    assert forall|m: int| #[trigger] coef(poly_neg(s), m) == qneg(coef(s, m)) by {
        assert(coef(trim(mapped), m) == coef(mapped, m));
    }
}

/// The term one cancellation subtracts: `factor · x^deg · d`.
pub open spec fn shifted_term(d: Seq<Q>, deg: int, factor: Q) -> Seq<Q> {
    Seq::new((deg + d.len()) as nat, |m: int| if m < deg { qint(0) } else { qmul(d[m - deg], factor) })
}

/// The state of long division by repeated cancellation of the remainder's
/// leading term: `p == quot·d + rem` coefficient by coefficient, and the
/// quotient is still zero at every degree the remainder can yet produce.
pub closed spec fn cancel_state(p: Seq<Q>, d: Seq<Q>, quot: Seq<Q>, rem: Seq<Q>) -> bool {
    &&& d.len() >= 1
    &&& all_lowest(d)
    &&& all_lowest(quot)
    &&& all_lowest(rem)
    &&& trimmed(rem)
    &&& forall|i: int| 0 <= i < quot.len() && i < rem.len() - (d.len() - 1) ==> #[trigger] quot[i] == qint(0)
    &&& forall|m: int| 0 <= m ==> #[trigger] coef(p, m) == qadd(conv_at(quot, d, m, quot.len() as int), coef(rem, m))
}

/// Before any cancellation: quotient zero, remainder `p`.
pub proof fn lemma_cancel_start(p: Seq<Q>, d: Seq<Q>, quot: Seq<Q>)
    requires
        all_lowest(p),
        trimmed(p),
        d.len() >= 1,
        all_lowest(d),
        forall|i: int| 0 <= i < quot.len() ==> quot[i] == qint(0),
    ensures
        cancel_state(p, d, quot, p),
{
    lemma_zero_lowest();
    assert forall|m: int| 0 <= m implies #[trigger] coef(p, m) == qadd(conv_at(quot, d, m, quot.len() as int), coef(p, m)) by {
        lemma_conv_vanish(quot, d, m, quot.len() as int);
        lemma_qadd_zero(coef(p, m));
    }
}

/// One cancellation: subtracting `factor · x^deg · d` from the remainder and
/// recording `factor` at degree `deg` of the quotient keeps
/// `p == quot·d + rem`.
pub proof fn lemma_cancel_step(p: Seq<Q>, d: Seq<Q>, quot: Seq<Q>, rem: Seq<Q>, deg: int, factor: Q, rem2: Seq<Q>)
    requires
        cancel_state(p, d, quot, rem),
        0 <= deg < quot.len(),
        deg == rem.len() - d.len(),
        canonical(factor),
        rem2 == poly_add(rem, poly_neg(trim(shifted_term(d, deg, factor)))),
        rem2.len() < rem.len(),
    ensures
        cancel_state(p, d, quot.update(deg, factor), rem2),
{
    let n = quot.len() as int;
    let t = shifted_term(d, deg, factor);
    lemma_zero_lowest();
    assert forall|i: int| 0 <= i < t.len() implies canonical(#[trigger] t[i]) by {
        if i >= deg {
            lemma_ops_lowest(d[i - deg], factor);
        }
    }
    lemma_coef_trim(t);
    lemma_neg_coef(trim(t));
    let nt = poly_neg(trim(t));
    lemma_add_coef(rem, nt);
    assert(quot[deg] == qint(0));
    let quot2 = quot.update(deg, factor);
    assert forall|m: int| 0 <= m implies #[trigger] coef(p, m) == qadd(conv_at(quot2, d, m, n), coef(rem2, m)) by {
        lemma_conv_update(quot, d, m, n, deg, factor);
        lemma_conv_lowest(quot, d, m, n);
        assert(coef(p, m) == qadd(conv_at(quot, d, m, n), coef(rem, m)));
        assert(coef(rem2, m) == qadd(coef(rem, m), coef(nt, m)));
        assert(coef(nt, m) == qneg(coef(trim(t), m)));
        assert(coef(trim(t), m) == coef(t, m));
        if 0 <= m - deg < d.len() {
            let tm = qmul(factor, d[m - deg]);
            assert(qmul(d[m - deg], factor) == tm) by {
                assert(d[m - deg].0 * factor.0 == factor.0 * d[m - deg].0) by (nonlinear_arith);
                assert(d[m - deg].1 * factor.1 == factor.1 * d[m - deg].1) by (nonlinear_arith);
            }
            assert(coef(t, m) == tm);
            lemma_qadd_neg(coef(rem, m), tm);
            lemma_ops_lowest(factor, d[m - deg]);
            lemma_qadd_sub_cancel(conv_at(quot, d, m, n), tm, coef(rem, m));
        } else {
            assert(coef(t, m) == qint(0));
            lemma_qadd_zero(coef(rem, m));
        }
    }
    assert forall|i: int| 0 <= i < quot2.len() && i < rem2.len() - (d.len() - 1) implies #[trigger] quot2[i] == qint(0) by {
        assert(quot[i] == qint(0));
    }
    assert(all_lowest(quot2));
}

/// Once the remainder is shorter than the divisor, quotient and remainder
/// reassemble `p`.
pub proof fn lemma_cancel_result(p: Seq<Q>, d: Seq<Q>, quot: Seq<Q>, rem: Seq<Q>)
    requires
        cancel_state(p, d, quot, rem),
        trimmed(p),
    ensures
        p == poly_add(poly_mul(trim(quot), d), rem),
        all_lowest(trim(quot)),
        all_lowest(rem),
{
    let n = quot.len() as int;
    lemma_mul_coef(quot, d);
    lemma_coef_trim(quot);
    let pm = poly_mul(trim(quot), d);
    lemma_add_coef(pm, rem);
    assert forall|m: int| coef(p, m) == coef(poly_add(pm, rem), m) by {
        if 0 <= m {
            assert(coef(pm, m) == conv_at(quot, d, m, n));
            assert(coef(p, m) == qadd(conv_at(quot, d, m, n), coef(rem, m)));
        }
    }
    lemma_trimmed_coef_eq(p, poly_add(pm, rem));
}


/// `x · 1 == x` for a rational in lowest terms.
proof fn lemma_qmul_one_right(x: Q)
    requires
        canonical(x),
    ensures
        qmul(x, qint(1)) == x,
{
    assert(x.0 * 1 == x.0);
    assert(x.1 * 1 == x.1);
    crate::rational::lemma_reduce_canonical(x);
}

/// Dividing a monic polynomial by a monic one of no larger degree leaves a
/// monic quotient: when `a == q·d + r` with `deg r < deg d <= deg a`, the top
/// coefficient of `a` is the top coefficient of `q` times that of `d`.
pub proof fn lemma_monic_quotient(a: Seq<Q>, d: Seq<Q>, q: Seq<Q>, r: Seq<Q>)
    requires
        all_lowest(a),
        all_lowest(d),
        all_lowest(q),
        all_lowest(r),
        trimmed(q),
        a.len() > 0,
        a.last() == qint(1),
        d.len() > 0,
        d.last() == qint(1),
        r.len() < d.len() <= a.len(),
        a == poly_add(poly_mul(q, d), r),
    ensures
        q.len() > 0,
        q.last() == qint(1),
{
    let qn = q.len() as int;
    let dn = d.len() as int;
    let an = a.len() as int;
    lemma_zero_lowest();
    lemma_qadd_zero(qint(0));
    lemma_trim(q);
    if qn == 0 {
        assert(poly_mul(q, d) == Seq::<Q>::empty());
        lemma_add_coef(poly_mul(q, d), r);
        assert(coef(a, an - 1) == qadd(coef(poly_mul(q, d), an - 1), coef(r, an - 1)));
        assert(coef(a, an - 1) == a.last());
        assert(false);
    } else {
        lemma_mul_coef(q, d);
        let prod = poly_mul(q, d);
        lemma_add_coef(prod, r);
        let top = qn + dn - 2;
        // The top convolution term is the only one.
        lemma_conv_vanish(q, d, top, qn - 1);
        assert(conv_at(q, d, top, qn) == qadd(conv_at(q, d, top, qn - 1), qmul(q[qn - 1], d[dn - 1])));
        lemma_qmul_one_right(q[qn - 1]);
        lemma_qadd_zero(q[qn - 1]);
        assert(coef(prod, top) == q[qn - 1]);
        assert(coef(a, top) == qadd(coef(prod, top), coef(r, top)));
        assert(coef(a, top) == q[qn - 1]);
        assert(q[qn - 1].0 != 0);
        assert(top < an);
        if an - 1 > top {
            lemma_conv_vanish(q, d, an - 1, qn);
            assert(coef(prod, an - 1) == qint(0));
            assert(coef(a, an - 1) == qadd(coef(prod, an - 1), coef(r, an - 1)));
            assert(coef(a, an - 1) == a.last());
            assert(false);
        }
        assert(coef(a, an - 1) == a.last());
    }
}

} // verus!
