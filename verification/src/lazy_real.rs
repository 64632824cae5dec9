//! Lazy exact numbers: a `Real` is a handle to a node of an arena-held
//! DAG of exact leaves and arithmetic steps. Building a node does no
//! arithmetic; the exact value is forced on demand, iteratively (deep
//! chains cannot overflow the stack), and under a bound on the number of
//! nodes forced. Comparisons take the identity shortcut before forcing.
use vstd::prelude::*;
use core::cmp::Ordering;
use crate::rational::{Rational, Q, qint, qadd, qsub, qmul, qdiv, qneg, qle, qlt};
use crate::algebra::{AlgebraBudget, AlgebraError};
use crate::uncertain::{Sign, sign_of_int};

verus! {

/// The operation of one node: an exact leaf, or one arithmetic step on
/// earlier nodes.
#[derive(Debug)]
pub enum RealOp {
    Exact(Rational),
    Neg(usize),
    Add(usize, usize),
    Sub(usize, usize),
    Mul(usize, usize),
    Div(usize, usize),
    Min(usize, usize),
    Max(usize, usize),
}

/// Every operand of node `i` is an earlier node.
pub open spec fn op_ok(op: RealOp, i: int) -> bool {
    match op {
        RealOp::Exact(_) => true,
        RealOp::Neg(a) => a < i,
        RealOp::Add(a, b) => a < i && b < i,
        RealOp::Sub(a, b) => a < i && b < i,
        RealOp::Mul(a, b) => a < i && b < i,
        RealOp::Div(a, b) => a < i && b < i,
        RealOp::Min(a, b) => a < i && b < i,
        RealOp::Max(a, b) => a < i && b < i,
    }
}

/// Every node of the arena refers only to earlier nodes.
pub open spec fn arena_ok(s: Seq<RealOp>) -> bool {
    forall|i: int| 0 <= i < s.len() ==> op_ok(#[trigger] s[i], i)
}

/// The smaller of two values.
pub open spec fn qmin(a: Q, b: Q) -> Q {
    if qle(a, b) {
        a
    } else {
        b
    }
}

/// The larger of two values.
pub open spec fn qmax(a: Q, b: Q) -> Q {
    if qle(a, b) {
        b
    } else {
        a
    }
}

/// The exact value of node `i`.
pub open spec fn dag_value(s: Seq<RealOp>, i: int) -> Q
    decreases i,
{
    if i < 0 || i >= s.len() {
        qint(0)
    } else {
        match s[i] {
            RealOp::Exact(q) => q@,
            RealOp::Neg(a) => if (a as int) < i {
                qneg(dag_value(s, a as int))
            } else {
                qint(0)
            },
            RealOp::Add(a, b) => if (a as int) < i && (b as int) < i {
                qadd(dag_value(s, a as int), dag_value(s, b as int))
            } else {
                qint(0)
            },
            RealOp::Sub(a, b) => if (a as int) < i && (b as int) < i {
                qsub(dag_value(s, a as int), dag_value(s, b as int))
            } else {
                qint(0)
            },
            RealOp::Mul(a, b) => if (a as int) < i && (b as int) < i {
                qmul(dag_value(s, a as int), dag_value(s, b as int))
            } else {
                qint(0)
            },
            RealOp::Div(a, b) => if (a as int) < i && (b as int) < i {
                qdiv(dag_value(s, a as int), dag_value(s, b as int))
            } else {
                qint(0)
            },
            RealOp::Min(a, b) => if (a as int) < i && (b as int) < i {
                qmin(dag_value(s, a as int), dag_value(s, b as int))
            } else {
                qint(0)
            },
            RealOp::Max(a, b) => if (a as int) < i && (b as int) < i {
                qmax(dag_value(s, a as int), dag_value(s, b as int))
            } else {
                qint(0)
            },
        }
    }
}

/// `k` is an operand of node `p`.
pub open spec fn child(s: Seq<RealOp>, p: int, k: int) -> bool {
    0 <= p < s.len() && match s[p] {
        RealOp::Exact(_) => false,
        RealOp::Neg(a) => a == k,
        RealOp::Add(a, b) => a == k || b == k,
        RealOp::Sub(a, b) => a == k || b == k,
        RealOp::Mul(a, b) => a == k || b == k,
        RealOp::Div(a, b) => a == k || b == k,
        RealOp::Min(a, b) => a == k || b == k,
        RealOp::Max(a, b) => a == k || b == k,
    }
}

/// Node `k` is in the sub-DAG of node `i`: `i` itself, or reached through
/// operands.
pub open spec fn reach(s: Seq<RealOp>, i: int, k: int) -> bool
    decreases i,
{
    if k == i {
        true
    } else if i < 0 || i >= s.len() {
        false
    } else {
        match s[i] {
            RealOp::Exact(_) => false,
            RealOp::Neg(a) => (a as int) < i && reach(s, a as int, k),
            RealOp::Add(a, b) => ((a as int) < i && reach(s, a as int, k)) || ((b as int) < i && reach(s, b as int, k)),
            RealOp::Sub(a, b) => ((a as int) < i && reach(s, a as int, k)) || ((b as int) < i && reach(s, b as int, k)),
            RealOp::Mul(a, b) => ((a as int) < i && reach(s, a as int, k)) || ((b as int) < i && reach(s, b as int, k)),
            RealOp::Div(a, b) => ((a as int) < i && reach(s, a as int, k)) || ((b as int) < i && reach(s, b as int, k)),
            RealOp::Min(a, b) => ((a as int) < i && reach(s, a as int, k)) || ((b as int) < i && reach(s, b as int, k)),
            RealOp::Max(a, b) => ((a as int) < i && reach(s, a as int, k)) || ((b as int) < i && reach(s, b as int, k)),
        }
    }
}

/// The number of nodes below `n` in the sub-DAG of `i`.
pub open spec fn count_reach(s: Seq<RealOp>, i: int, n: int) -> nat
    decreases n,
{
    if n <= 0 {
        0
    } else {
        count_reach(s, i, n - 1) + if reach(s, i, n - 1) {
            1nat
        } else {
            0nat
        }
    }
}

/// The number of distinct nodes in the sub-DAG of `i`: how many nodes
/// forcing `i` evaluates.
pub open spec fn dag_size(s: Seq<RealOp>, i: int) -> nat {
    count_reach(s, i, i + 1)
}

/// No division in the sub-DAG of `i` has a zero divisor.
pub open spec fn no_zero_division(s: Seq<RealOp>, i: int) -> bool {
    forall|k: int| 0 <= k <= i && #[trigger] reach(s, i, k) ==> divisor_nonzero(s, k)
}

/// A division node's divisor is not zero.
pub open spec fn divisor_nonzero(s: Seq<RealOp>, k: int) -> bool {
    match s[k] {
        RealOp::Div(_, b) => dag_value(s, b as int).0 != 0,
        _ => true,
    }
}

/// Three-way comparison of values.
pub open spec fn qcmp(a: Q, b: Q) -> Ordering {
    if qlt(a, b) {
        Ordering::Less
    } else if qlt(b, a) {
        Ordering::Greater
    } else {
        Ordering::Equal
    }
}

/// The sub-DAG of `i` lies at or below `i`.
pub proof fn lemma_reach_below(s: Seq<RealOp>, i: int, k: int)
    requires
        arena_ok(s),
        0 <= i < s.len(),
        reach(s, i, k),
    ensures
        0 <= k <= i,
    decreases i,
{
    if k != i {
        assert(op_ok(s[i], i));
        match s[i] {
            RealOp::Exact(_) => {},
            RealOp::Neg(a) => lemma_reach_below(s, a as int, k),
            RealOp::Add(a, b) => if (a as int) < i && reach(s, a as int, k) {
                lemma_reach_below(s, a as int, k)
            } else {
                lemma_reach_below(s, b as int, k)
            },
            RealOp::Sub(a, b) => if (a as int) < i && reach(s, a as int, k) {
                lemma_reach_below(s, a as int, k)
            } else {
                lemma_reach_below(s, b as int, k)
            },
            RealOp::Mul(a, b) => if (a as int) < i && reach(s, a as int, k) {
                lemma_reach_below(s, a as int, k)
            } else {
                lemma_reach_below(s, b as int, k)
            },
            RealOp::Div(a, b) => if (a as int) < i && reach(s, a as int, k) {
                lemma_reach_below(s, a as int, k)
            } else {
                lemma_reach_below(s, b as int, k)
            },
            RealOp::Min(a, b) => if (a as int) < i && reach(s, a as int, k) {
                lemma_reach_below(s, a as int, k)
            } else {
                lemma_reach_below(s, b as int, k)
            },
            RealOp::Max(a, b) => if (a as int) < i && reach(s, a as int, k) {
                lemma_reach_below(s, a as int, k)
            } else {
                lemma_reach_below(s, b as int, k)
            },
        }
    }
}

/// Reaching is transitive.
pub proof fn lemma_reach_trans(s: Seq<RealOp>, i: int, p: int, k: int)
    requires
        arena_ok(s),
        0 <= i < s.len(),
        reach(s, i, p),
        reach(s, p, k),
    ensures
        reach(s, i, k),
    decreases i,
{
    if p != i && k != i {
        assert(op_ok(s[i], i));
        match s[i] {
            RealOp::Exact(_) => {},
            RealOp::Neg(a) => lemma_reach_trans(s, a as int, p, k),
            RealOp::Add(a, b) => if (a as int) < i && reach(s, a as int, p) {
                lemma_reach_trans(s, a as int, p, k)
            } else {
                lemma_reach_trans(s, b as int, p, k)
            },
            RealOp::Sub(a, b) => if (a as int) < i && reach(s, a as int, p) {
                lemma_reach_trans(s, a as int, p, k)
            } else {
                lemma_reach_trans(s, b as int, p, k)
            },
            RealOp::Mul(a, b) => if (a as int) < i && reach(s, a as int, p) {
                lemma_reach_trans(s, a as int, p, k)
            } else {
                lemma_reach_trans(s, b as int, p, k)
            },
            RealOp::Div(a, b) => if (a as int) < i && reach(s, a as int, p) {
                lemma_reach_trans(s, a as int, p, k)
            } else {
                lemma_reach_trans(s, b as int, p, k)
            },
            RealOp::Min(a, b) => if (a as int) < i && reach(s, a as int, p) {
                lemma_reach_trans(s, a as int, p, k)
            } else {
                lemma_reach_trans(s, b as int, p, k)
            },
            RealOp::Max(a, b) => if (a as int) < i && reach(s, a as int, p) {
                lemma_reach_trans(s, a as int, p, k)
            } else {
                lemma_reach_trans(s, b as int, p, k)
            },
        }
    }
}

/// An operand of a node in the sub-DAG is in the sub-DAG.
pub proof fn lemma_reach_child(s: Seq<RealOp>, i: int, p: int, k: int)
    requires
        arena_ok(s),
        0 <= i < s.len(),
        reach(s, i, p),
        child(s, p, k),
    ensures
        reach(s, i, k),
{
    assert(op_ok(s[p], p));
    assert(reach(s, k, k));
    assert(reach(s, p, k));
    lemma_reach_trans(s, i, p, k);
}

/// A node of the sub-DAG other than its root is an operand of a later node
/// of the sub-DAG.
pub proof fn lemma_reach_parent(s: Seq<RealOp>, i: int, k: int) -> (q: int)
    requires
        arena_ok(s),
        0 <= i < s.len(),
        reach(s, i, k),
        k != i,
    ensures
        k < q <= i,
        reach(s, i, q),
        child(s, q, k),
    decreases i,
{
    assert(op_ok(s[i], i));
    let a: int = match s[i] {
        RealOp::Exact(_) => 0,
        RealOp::Neg(a) => a as int,
        RealOp::Add(a, b) => if (a as int) < i && reach(s, a as int, k) { a as int } else { b as int },
        RealOp::Sub(a, b) => if (a as int) < i && reach(s, a as int, k) { a as int } else { b as int },
        RealOp::Mul(a, b) => if (a as int) < i && reach(s, a as int, k) { a as int } else { b as int },
        RealOp::Div(a, b) => if (a as int) < i && reach(s, a as int, k) { a as int } else { b as int },
        RealOp::Min(a, b) => if (a as int) < i && reach(s, a as int, k) { a as int } else { b as int },
        RealOp::Max(a, b) => if (a as int) < i && reach(s, a as int, k) { a as int } else { b as int },
    };
    assert(0 <= a < i && reach(s, a, k) && child(s, i, a));
    if a == k {
        i
    } else {
        let q = lemma_reach_parent(s, a, k);
        assert(reach(s, i, a)) by {
            lemma_reach_child(s, i, i, a);
        }
        lemma_reach_trans(s, i, a, q);
        q
    }
}

/// Appending a node changes no earlier node's value or sub-DAG.
pub proof fn lemma_push_keeps(s: Seq<RealOp>, x: RealOp, k: int)
    requires
        0 <= k < s.len(),
    ensures
        dag_value(s.push(x), k) == dag_value(s, k),
        forall|j: int| #[trigger] reach(s.push(x), k, j) == reach(s, k, j),
    decreases k,
{
    let t = s.push(x);
    assert(t[k] == s[k]);
    lemma_push_keeps_value(s, x, k);
    assert forall|j: int| #[trigger] reach(t, k, j) == reach(s, k, j) by {
        lemma_push_keeps_reach(s, x, k, j);
    }
}

/// Appending a node changes no earlier node's value.
proof fn lemma_push_keeps_value(s: Seq<RealOp>, x: RealOp, k: int)
    requires
        0 <= k < s.len(),
    ensures
        dag_value(s.push(x), k) == dag_value(s, k),
    decreases k,
{
    let t = s.push(x);
    assert(t[k] == s[k]);
    match s[k] {
        RealOp::Exact(_) => {},
        RealOp::Neg(a) => if (a as int) < k {
            lemma_push_keeps_value(s, x, a as int);
        },
        RealOp::Add(a, b) => {
            if (a as int) < k {
                lemma_push_keeps_value(s, x, a as int);
            }
            if (b as int) < k {
                lemma_push_keeps_value(s, x, b as int);
            }
        },
        RealOp::Sub(a, b) => {
            if (a as int) < k {
                lemma_push_keeps_value(s, x, a as int);
            }
            if (b as int) < k {
                lemma_push_keeps_value(s, x, b as int);
            }
        },
        RealOp::Mul(a, b) => {
            if (a as int) < k {
                lemma_push_keeps_value(s, x, a as int);
            }
            if (b as int) < k {
                lemma_push_keeps_value(s, x, b as int);
            }
        },
        RealOp::Div(a, b) => {
            if (a as int) < k {
                lemma_push_keeps_value(s, x, a as int);
            }
            if (b as int) < k {
                lemma_push_keeps_value(s, x, b as int);
            }
        },
        RealOp::Min(a, b) => {
            if (a as int) < k {
                lemma_push_keeps_value(s, x, a as int);
            }
            if (b as int) < k {
                lemma_push_keeps_value(s, x, b as int);
            }
        },
        RealOp::Max(a, b) => {
            if (a as int) < k {
                lemma_push_keeps_value(s, x, a as int);
            }
            if (b as int) < k {
                lemma_push_keeps_value(s, x, b as int);
            }
        },
    }
}

/// Appending a node changes no earlier node's sub-DAG.
proof fn lemma_push_keeps_reach(s: Seq<RealOp>, x: RealOp, k: int, j: int)
    requires
        0 <= k < s.len(),
    ensures
        reach(s.push(x), k, j) == reach(s, k, j),
    decreases k,
{
    let t = s.push(x);
    assert(t[k] == s[k]);
    if j != k {
        match s[k] {
            RealOp::Exact(_) => {},
            RealOp::Neg(a) => if (a as int) < k {
                lemma_push_keeps_reach(s, x, a as int, j);
            },
            RealOp::Add(a, b) | RealOp::Sub(a, b) | RealOp::Mul(a, b) | RealOp::Div(a, b) | RealOp::Min(a, b)
            | RealOp::Max(a, b) => {
                if (a as int) < k {
                    lemma_push_keeps_reach(s, x, a as int, j);
                }
                if (b as int) < k {
                    lemma_push_keeps_reach(s, x, b as int, j);
                }
            },
        }
    }
}

/// No more nodes than positions are counted.
pub proof fn lemma_count_reach_bound(s: Seq<RealOp>, i: int, n: int)
    requires
        n >= 0,
    ensures
        count_reach(s, i, n) <= n,
    decreases n,
{
    if n > 0 {
        lemma_count_reach_bound(s, i, n - 1);
    }
}

/// An arena of lazy exact nodes. Nodes only ever refer to earlier nodes.
pub struct RealArena {
    nodes: Vec<RealOp>,
}

impl View for RealArena {
    type V = Seq<RealOp>;

    closed spec fn view(&self) -> Seq<RealOp> {
        self.nodes@
    }
}

/// A lazy exact number: a handle to a node of a [`RealArena`].
#[derive(Clone, Copy, Debug, PartialEq, Eq, Structural)]
pub struct Real {
    node: usize,
}

impl RealArena {
    #[verifier::type_invariant]
    closed spec fn operands_earlier(self) -> bool {
        arena_ok(self.nodes@)
    }

    /// Nodes only refer to earlier nodes (a no-op exposing the fact).
    pub fn well_formed(&self)
        ensures
            arena_ok(self@),
    {
        proof {
            use_type_invariant(self);
        }
    }

    /// An empty arena.
    pub fn new() -> (r: RealArena)
        ensures
            r@ == Seq::<RealOp>::empty(),
    {
        RealArena { nodes: Vec::new() }
    }

    /// Number of nodes.
    pub fn len(&self) -> (r: usize)
        ensures
            r == self@.len(),
    {
        self.nodes.len()
    }

    /// Append a node whose operands are earlier nodes.
    fn push(&mut self, op: RealOp) -> (r: Real)
        requires
            op_ok(op, old(self)@.len() as int),
        ensures
            final(self)@ == old(self)@.push(op),
            r.node() == old(self)@.len(),
            forall|k: int| 0 <= k < old(self)@.len() ==> #[trigger] dag_value(final(self)@, k) == dag_value(old(self)@, k),
    {
        proof {
            use_type_invariant(&*self);
        }
        let ghost s = self.nodes@;
        let n = self.nodes.len();
        let mut nodes: Vec<RealOp> = Vec::new();
        std::mem::swap(&mut nodes, &mut self.nodes);
        nodes.push(op);
        proof {
            assert forall|i: int| 0 <= i < nodes@.len() implies op_ok(#[trigger] nodes@[i], i) by {
                if i < s.len() {
                    assert(nodes@[i] == s[i]);
                }
            }
            assert forall|k: int| 0 <= k < s.len() implies #[trigger] dag_value(nodes@, k) == dag_value(s, k) by {
                lemma_push_keeps(s, op, k);
            }
        }
        self.nodes = nodes;
        Real { node: n }
    }
}

impl Real {
    /// The arena position of the node.
    pub closed spec fn node(self) -> int {
        self.node as int
    }

    /// An exact value, forced at birth.
    pub fn from_exact(arena: &mut RealArena, e: Rational) -> (r: Real)
        ensures
            final(arena)@ == old(arena)@.push(RealOp::Exact(e)),
            r.node() == old(arena)@.len(),
            dag_value(final(arena)@, r.node()) == e@,
            forall|k: int| 0 <= k < old(arena)@.len() ==> #[trigger] dag_value(final(arena)@, k) == dag_value(old(arena)@, k),
    {
        arena.push(RealOp::Exact(e))
    }

    /// Lazy negation.
    pub fn neg(&self, arena: &mut RealArena) -> (r: Real)
        requires
            self.node() < old(arena)@.len(),
        ensures
            final(arena)@ == old(arena)@.push(RealOp::Neg(self.node() as usize)),
            r.node() == old(arena)@.len(),
            dag_value(final(arena)@, r.node()) == qneg(dag_value(old(arena)@, self.node())),
            forall|k: int| 0 <= k < old(arena)@.len() ==> #[trigger] dag_value(final(arena)@, k) == dag_value(old(arena)@, k),
    {
        let r = arena.push(RealOp::Neg(self.node));
        proof {
            assert(arena@[r.node()] == RealOp::Neg(self.node));
            assert(dag_value(arena@, self.node()) == dag_value(old(arena)@, self.node()));
        }
        r
    }

    /// Lazy sum.
    pub fn add(&self, other: &Real, arena: &mut RealArena) -> (r: Real)
        requires
            self.node() < old(arena)@.len(),
            other.node() < old(arena)@.len(),
        ensures
            final(arena)@ == old(arena)@.push(RealOp::Add(self.node() as usize, other.node() as usize)),
            r.node() == old(arena)@.len(),
            dag_value(final(arena)@, r.node()) == qadd(
                dag_value(old(arena)@, self.node()),
                dag_value(old(arena)@, other.node()),
            ),
            forall|k: int| 0 <= k < old(arena)@.len() ==> #[trigger] dag_value(final(arena)@, k) == dag_value(old(arena)@, k),
    {
        let r = arena.push(RealOp::Add(self.node, other.node));
        proof {
            assert(arena@[r.node()] == RealOp::Add(self.node, other.node));
            assert(dag_value(arena@, self.node()) == dag_value(old(arena)@, self.node()));
            assert(dag_value(arena@, other.node()) == dag_value(old(arena)@, other.node()));
        }
        r
    }

    /// Lazy difference.
    pub fn sub(&self, other: &Real, arena: &mut RealArena) -> (r: Real)
        requires
            self.node() < old(arena)@.len(),
            other.node() < old(arena)@.len(),
        ensures
            final(arena)@ == old(arena)@.push(RealOp::Sub(self.node() as usize, other.node() as usize)),
            r.node() == old(arena)@.len(),
            dag_value(final(arena)@, r.node()) == qsub(
                dag_value(old(arena)@, self.node()),
                dag_value(old(arena)@, other.node()),
            ),
            forall|k: int| 0 <= k < old(arena)@.len() ==> #[trigger] dag_value(final(arena)@, k) == dag_value(old(arena)@, k),
    {
        let r = arena.push(RealOp::Sub(self.node, other.node));
        proof {
            assert(arena@[r.node()] == RealOp::Sub(self.node, other.node));
            assert(dag_value(arena@, self.node()) == dag_value(old(arena)@, self.node()));
            assert(dag_value(arena@, other.node()) == dag_value(old(arena)@, other.node()));
        }
        r
    }

    /// Lazy product.
    pub fn mul(&self, other: &Real, arena: &mut RealArena) -> (r: Real)
        requires
            self.node() < old(arena)@.len(),
            other.node() < old(arena)@.len(),
        ensures
            final(arena)@ == old(arena)@.push(RealOp::Mul(self.node() as usize, other.node() as usize)),
            r.node() == old(arena)@.len(),
            dag_value(final(arena)@, r.node()) == qmul(
                dag_value(old(arena)@, self.node()),
                dag_value(old(arena)@, other.node()),
            ),
            forall|k: int| 0 <= k < old(arena)@.len() ==> #[trigger] dag_value(final(arena)@, k) == dag_value(old(arena)@, k),
    {
        let r = arena.push(RealOp::Mul(self.node, other.node));
        proof {
            assert(arena@[r.node()] == RealOp::Mul(self.node, other.node));
            assert(dag_value(arena@, self.node()) == dag_value(old(arena)@, self.node()));
            assert(dag_value(arena@, other.node()) == dag_value(old(arena)@, other.node()));
        }
        r
    }

    /// Lazy quotient (a zero divisor surfaces only when the value is
    /// forced).
    pub fn div(&self, other: &Real, arena: &mut RealArena) -> (r: Real)
        requires
            self.node() < old(arena)@.len(),
            other.node() < old(arena)@.len(),
        ensures
            final(arena)@ == old(arena)@.push(RealOp::Div(self.node() as usize, other.node() as usize)),
            r.node() == old(arena)@.len(),
            dag_value(final(arena)@, r.node()) == qdiv(
                dag_value(old(arena)@, self.node()),
                dag_value(old(arena)@, other.node()),
            ),
            forall|k: int| 0 <= k < old(arena)@.len() ==> #[trigger] dag_value(final(arena)@, k) == dag_value(old(arena)@, k),
    {
        let r = arena.push(RealOp::Div(self.node, other.node));
        proof {
            assert(arena@[r.node()] == RealOp::Div(self.node, other.node));
            assert(dag_value(arena@, self.node()) == dag_value(old(arena)@, self.node()));
            assert(dag_value(arena@, other.node()) == dag_value(old(arena)@, other.node()));
        }
        r
    }

    /// Lazy minimum: the handle itself when both are the same node,
    /// otherwise a new node.
    pub fn min_real(&self, other: &Real, arena: &mut RealArena) -> (r: Real)
        requires
            self.node() < old(arena)@.len(),
            other.node() < old(arena)@.len(),
        ensures
            r.node() < final(arena)@.len(),
            dag_value(final(arena)@, r.node()) == qmin(
                dag_value(old(arena)@, self.node()),
                dag_value(old(arena)@, other.node()),
            ),
            self.node() == other.node() ==> r == *self && final(arena)@ == old(arena)@,
            self.node() != other.node() ==> final(arena)@ == old(arena)@.push(RealOp::Min(self.node() as usize, other.node() as usize)),
            forall|k: int| 0 <= k < old(arena)@.len() ==> #[trigger] dag_value(final(arena)@, k) == dag_value(old(arena)@, k),
    {
        if self.node == other.node {
            return *self;
        }
        let r = arena.push(RealOp::Min(self.node, other.node));
        proof {
            assert(arena@[r.node()] == RealOp::Min(self.node, other.node));
            assert(dag_value(arena@, self.node()) == dag_value(old(arena)@, self.node()));
            assert(dag_value(arena@, other.node()) == dag_value(old(arena)@, other.node()));
        }
        r
    }

    /// Lazy maximum: the handle itself when both are the same node,
    /// otherwise a new node.
    pub fn max_real(&self, other: &Real, arena: &mut RealArena) -> (r: Real)
        requires
            self.node() < old(arena)@.len(),
            other.node() < old(arena)@.len(),
        ensures
            r.node() < final(arena)@.len(),
            dag_value(final(arena)@, r.node()) == qmax(
                dag_value(old(arena)@, self.node()),
                dag_value(old(arena)@, other.node()),
            ),
            self.node() == other.node() ==> r == *self && final(arena)@ == old(arena)@,
            self.node() != other.node() ==> final(arena)@ == old(arena)@.push(RealOp::Max(self.node() as usize, other.node() as usize)),
            forall|k: int| 0 <= k < old(arena)@.len() ==> #[trigger] dag_value(final(arena)@, k) == dag_value(old(arena)@, k),
    {
        if self.node == other.node {
            return *self;
        }
        let r = arena.push(RealOp::Max(self.node, other.node));
        proof {
            assert(arena@[r.node()] == RealOp::Max(self.node, other.node));
            assert(dag_value(arena@, self.node()) == dag_value(old(arena)@, self.node()));
            assert(dag_value(arena@, other.node()) == dag_value(old(arena)@, other.node()));
        }
        r
    }

    /// Lazy absolute value: `max(self, -self)`.
    pub fn abs(&self, arena: &mut RealArena) -> (r: Real)
        requires
            self.node() < old(arena)@.len(),
        ensures
            r.node() < final(arena)@.len(),
            dag_value(final(arena)@, r.node()) == qmax(
                dag_value(old(arena)@, self.node()),
                qneg(dag_value(old(arena)@, self.node())),
            ),
            forall|k: int| 0 <= k < old(arena)@.len() ==> #[trigger] dag_value(final(arena)@, k) == dag_value(old(arena)@, k),
    {
        let m = self.neg(arena);
        self.max_real(&m, arena)
    }

    /// Identity: the same node.
    pub fn same_handle(&self, other: &Real) -> (r: bool)
        ensures
            r == (self.node() == other.node()),
    {
        self.node == other.node
    }

    /// The exact value, forcing at most `budget.max_lazy_nodes` nodes; an
    /// error when the sub-DAG has more nodes than that.
    pub fn exact_with_budget(&self, arena: &RealArena, budget: AlgebraBudget) -> (r: Result<Rational, AlgebraError>)
        requires
            self.node() < arena@.len(),
            no_zero_division(arena@, self.node()),
        ensures
            r matches Ok(v) ==> v@ == dag_value(arena@, self.node()),
            r is Ok <==> dag_size(arena@, self.node()) <= budget.max_lazy_nodes,
            r is Err ==> r == Err::<Rational, AlgebraError>(
                AlgebraError::BudgetExceeded { operation: "forcing a lazy exact DAG", limit: budget.max_lazy_nodes },
            ),
    {
        force(arena, self.node, budget.max_lazy_nodes)
    }

    /// The exact value.
    pub fn exact(&self, arena: &RealArena) -> (r: Rational)
        requires
            self.node() < arena@.len(),
            no_zero_division(arena@, self.node()),
        ensures
            r@ == dag_value(arena@, self.node()),
    {
        let _n = arena.len();
        proof {
            lemma_count_reach_bound(arena@, self.node(), self.node() + 1);
        }
        match force(arena, self.node, usize::MAX) {
            Ok(v) => v,
            Err(_) => {
                proof {
                    assert(false);
                }
                Rational::zero()
            },
        }
    }

    /// The exact sign.
    pub fn sign(&self, arena: &RealArena) -> (r: Sign)
        requires
            self.node() < arena@.len(),
            no_zero_division(arena@, self.node()),
        ensures
            r == sign_of_int(dag_value(arena@, self.node()).0),
    {
        self.exact(arena).sign()
    }

    /// Total order of the values: the identity shortcut, then exact values.
    pub fn cmp_real(&self, other: &Real, arena: &RealArena) -> (o: Ordering)
        requires
            self.node() < arena@.len(),
            other.node() < arena@.len(),
            no_zero_division(arena@, self.node()),
            no_zero_division(arena@, other.node()),
        ensures
            o == qcmp(dag_value(arena@, self.node()), dag_value(arena@, other.node())),
    {
        if self.node == other.node {
            return Ordering::Equal;
        }
        let a = self.exact(arena);
        let b = other.exact(arena);
        if a.lt(&b) {
            Ordering::Less
        } else if b.lt(&a) {
            Ordering::Greater
        } else {
            Ordering::Equal
        }
    }
}

/// `n` copies of `false`.
fn falses(n: usize) -> (v: Vec<bool>)
    ensures
        v@.len() == n,
        forall|k: int| 0 <= k < n ==> !#[trigger] v@[k],
{
    let mut v: Vec<bool> = Vec::new();
    while v.len() < n
        invariant
            v@.len() <= n,
            forall|k: int| 0 <= k < v@.len() ==> !#[trigger] v@[k],
        decreases n - v@.len(),
    {
        v.push(false);
    }
    v
}

/// Mark the sub-DAG of node `i`: one pass from `i` down, marking the
/// operands of every marked node.
fn mark_sub_dag(arena: &RealArena, i: usize) -> (mark: Vec<bool>)
    requires
        i < arena@.len(),
    ensures
        mark@.len() == i + 1,
        forall|k: int| 0 <= k <= i ==> (#[trigger] mark@[k] <==> reach(arena@, i as int, k)),
{
    proof {
        use_type_invariant(arena);
    }
    let ghost s = arena@;
    let _n = arena.len();
    let mut mark = falses(i + 1);
    mark.set(i, true);
    let mut j: usize = i + 1;
    while j > 0
        invariant
            s == arena@,
            arena_ok(s),
            i < s.len(),
            j <= i + 1,
            mark@.len() == i + 1,
            mark@[i as int],
            forall|k: int| j <= k <= i ==> (#[trigger] mark@[k] <==> reach(s, i as int, k)),
            forall|k: int| 0 <= k < j && #[trigger] mark@[k] ==> reach(s, i as int, k),
            forall|k: int, p: int|
                0 <= k < j <= p <= i && reach(s, i as int, p) && #[trigger] child(s, p, k) ==> mark@[k],
        decreases j,
    {
        j = j - 1;
        proof {
            if reach(s, i as int, j as int) && j != i {
                let q = lemma_reach_parent(s, i as int, j as int);
                assert(child(s, q, j as int));
            }
        }
        let ghost before = mark@;
        if mark[j] {
            let ghost p = j as int;
            proof {
                assert(op_ok(s[p], p));
            }
            match &arena.nodes[j] {
                RealOp::Exact(_) => {},
                RealOp::Neg(a) => {
                    mark.set(*a, true);
                },
                RealOp::Add(a, b) | RealOp::Sub(a, b) | RealOp::Mul(a, b) | RealOp::Div(a, b) | RealOp::Min(a, b)
                | RealOp::Max(a, b) => {
                    mark.set(*a, true);
                    mark.set(*b, true);
                },
            }
            proof {
                assert forall|k: int| 0 <= k < j && #[trigger] mark@[k] implies reach(s, i as int, k) by {
                    if !before[k] {
                        assert(child(s, p, k));
                        lemma_reach_child(s, i as int, p, k);
                    }
                }
                assert forall|k: int| 0 <= k < p && child(s, p, k) implies #[trigger] mark@[k] by {}
            }
        }
        proof {
            assert forall|k: int| j <= k <= i implies (#[trigger] mark@[k] <==> reach(s, i as int, k)) by {
                if k > j {
                    assert(mark@[k] == before[k]);
                }
            }
            assert forall|k: int, q: int|
                0 <= k < j <= q <= i && reach(s, i as int, q) && #[trigger] child(s, q, k) implies mark@[k] by {
                if q > j {
                    assert(before[k]);
                }
            }
        }
    }
    mark
}

/// Count the marks.
fn count_marks(mark: &Vec<bool>, s: Ghost<Seq<RealOp>>, i: usize) -> (c: usize)
    requires
        mark@.len() == i + 1,
        i < usize::MAX,
        forall|k: int| 0 <= k <= i ==> (#[trigger] mark@[k] <==> reach(s@, i as int, k)),
    ensures
        c == dag_size(s@, i as int),
{
    let mut c: usize = 0;
    let mut k: usize = 0;
    while k <= i
        invariant
            k <= i + 1,
            i < usize::MAX,
            mark@.len() == i + 1,
            forall|t: int| 0 <= t <= i ==> (#[trigger] mark@[t] <==> reach(s@, i as int, t)),
            c == count_reach(s@, i as int, k as int),
            c <= k,
        decreases i + 1 - k,
    {
        if mark[k] {
            c = c + 1;
        }
        k = k + 1;
    }
    c
}

/// Force the exact value of node `i`, evaluating each node of its sub-DAG
/// once, in arena order; an error when the sub-DAG has more than `limit`
/// nodes.
fn force(arena: &RealArena, i: usize, limit: usize) -> (r: Result<Rational, AlgebraError>)
    requires
        i < arena@.len(),
        no_zero_division(arena@, i as int),
    ensures
        r matches Ok(v) ==> v@ == dag_value(arena@, i as int),
        r is Ok <==> dag_size(arena@, i as int) <= limit,
        r is Err ==> r == Err::<Rational, AlgebraError>(
            AlgebraError::BudgetExceeded { operation: "forcing a lazy exact DAG", limit },
        ),
{
    proof {
        use_type_invariant(arena);
    }
    let ghost s = arena@;
    let _n = arena.len();
    let mark = mark_sub_dag(arena, i);
    let size = count_marks(&mark, Ghost(s), i);
    if size > limit {
        return Err(AlgebraError::BudgetExceeded { operation: "forcing a lazy exact DAG", limit });
    }
    let mut vals: Vec<Rational> = Vec::new();
    let mut k: usize = 0;
    while k <= i
        invariant
            s == arena@,
            arena_ok(s),
            i < s.len(),
            i < usize::MAX,
            k <= i + 1,
            mark@.len() == i + 1,
            vals@.len() == k,
            no_zero_division(s, i as int),
            forall|t: int| 0 <= t <= i ==> (#[trigger] mark@[t] <==> reach(s, i as int, t)),
            forall|t: int| 0 <= t < k && mark@[t] ==> (#[trigger] vals@[t])@ == dag_value(s, t),
        decreases i + 1 - k,
    {
        let v = if mark[k] {
            let ghost p = k as int;
            proof {
                assert(op_ok(s[p], p));
                assert forall|c: int| #[trigger] child(s, p, c) implies mark@[c] && c < p by {
                    lemma_reach_child(s, i as int, p, c);
                    lemma_reach_below(s, i as int, c);
                }
            }
            match &arena.nodes[k] {
                RealOp::Exact(q) => q.clone(),
                RealOp::Neg(a) => {
                    proof {
                        assert(child(s, p, *a as int));
                    }
                    vals[*a].neg()
                },
                RealOp::Add(a, b) => {
                    proof {
                        assert(child(s, p, *a as int) && child(s, p, *b as int));
                    }
                    vals[*a].add(&vals[*b])
                },
                RealOp::Sub(a, b) => {
                    proof {
                        assert(child(s, p, *a as int) && child(s, p, *b as int));
                    }
                    vals[*a].sub(&vals[*b])
                },
                RealOp::Mul(a, b) => {
                    proof {
                        assert(child(s, p, *a as int) && child(s, p, *b as int));
                    }
                    vals[*a].mul(&vals[*b])
                },
                RealOp::Div(a, b) => {
                    proof {
                        assert(child(s, p, *a as int) && child(s, p, *b as int));
                        assert(reach(s, i as int, p));
                        assert(divisor_nonzero(s, p));
                    }
                    vals[*a].div(&vals[*b])
                },
                RealOp::Min(a, b) => if {
                    proof {
                        assert(child(s, p, *a as int) && child(s, p, *b as int));
                    }
                    vals[*a].le(&vals[*b])
                } {
                    vals[*a].clone()
                } else {
                    vals[*b].clone()
                },
                RealOp::Max(a, b) => if {
                    proof {
                        assert(child(s, p, *a as int) && child(s, p, *b as int));
                    }
                    vals[*a].le(&vals[*b])
                } {
                    vals[*b].clone()
                } else {
                    vals[*a].clone()
                },
            }
        } else {
            Rational::zero()
        };
        vals.push(v);
        k = k + 1;
    }
    proof {
        assert(mark@[i as int]);
    }
    Ok(vals[i].clone())
}

} // verus!
