//! Directed graph and deterministic strongly-connected-component analysis used
//! by the structural compiler. The implementation is iterative Tarjan: deep
//! generated equation systems cannot overflow the call stack.
use vstd::prelude::*;
use crate::rational::nat_spelling;
use crate::text::{nat_chars, push_chars, push_str};
use crate::sorting::{sort_indices, sort_dedup, sorted, strictly_sorted, lemma_sorted_permutation_strict};
use crate::reach::{blocks_are_mutual_reach, blocks_are_sccs, sccs_by_reach};

verus! {

broadcast use vstd::seq_lib::group_to_multiset_ensures;

/// The marker for a node that the traversal has not reached yet.
pub const UNVISITED: usize = usize::MAX;

/// A directed graph on the nodes `0..n_nodes`, as adjacency lists.
#[derive(Clone, Debug)]
pub struct Digraph {
    adj: Vec<Vec<usize>>,
}

/// Errors when building a graph.
#[derive(Clone, Debug, PartialEq, Eq, Structural)]
pub enum GraphError {
    /// An edge names a node that does not exist.
    NodeOutOfBounds { node: usize, n_nodes: usize },
}

impl GraphError {
    /// The message: the edge's node and the number of nodes.
    pub open spec fn text(self) -> Seq<char> {
        match self {
            GraphError::NodeOutOfBounds { node, n_nodes } => "edge references node "@ + nat_spelling(node as nat)
                + " but graph has only "@ + nat_spelling(n_nodes as nat) + " node(s)"@,
        }
    }

    /// The message of the error ([`GraphError::text`]).
    pub fn to_string(&self) -> (r: String)
        ensures
            r@ == self.text(),
    {
        let mut out: Vec<char> = Vec::new();
        match self {
            GraphError::NodeOutOfBounds { node, n_nodes } => {
                push_str(&mut out, "edge references node ");
                push_chars(&mut out, &nat_chars(*node as u64));
                push_str(&mut out, " but graph has only ");
                push_chars(&mut out, &nat_chars(*n_nodes as u64));
                push_str(&mut out, " node(s)");
            },
        }
        proof {
            assert(out@ =~= self.text());
        }
        crate::units::string_of(out.as_slice())
    }
}

impl Digraph {
    /// The adjacency lists, as sequences.
    pub closed spec fn adj(&self) -> Seq<Seq<usize>> {
        self.adj@.map_values(|s: Vec<usize>| s@)
    }

    /// Every edge ends at an existing node.
    pub open spec fn wf(&self) -> bool {
        forall|u: int, k: int|
            0 <= u < self.adj().len() && 0 <= k < self.adj()[u].len() ==> #[trigger] self.adj()[u][k]
                < self.adj().len()
    }

    /// A graph with `n_nodes` nodes and no edges.
    pub fn new(n_nodes: usize) -> (r: Self)
        ensures
            r.wf(),
            r.adj().len() == n_nodes,
            forall|u: int| 0 <= u < n_nodes ==> #[trigger] r.adj()[u].len() == 0,
    {
        let mut adj: Vec<Vec<usize>> = Vec::new();
        let mut i: usize = 0;
        while i < n_nodes
            invariant
                i <= n_nodes,
                adj@.len() == i,
                forall|u: int| 0 <= u < i ==> #[trigger] adj@[u]@.len() == 0,
            decreases n_nodes - i,
        {
            adj.push(Vec::new());
            i = i + 1;
        }
        Digraph { adj }
    }

    /// A graph with the given edges; each adjacency list is sorted and
    /// deduplicated. Fails on the first edge that names a missing node.
    pub fn with_edges(n_nodes: usize, edges: &[(usize, usize)]) -> (r: Result<Self, GraphError>)
        ensures
            (exists|e: int|
                0 <= e < edges@.len() && (edges@[e].0 >= n_nodes || edges@[e].1 >= n_nodes))
                <==> r is Err,
            r matches Ok(g) ==> {
                &&& g.wf()
                &&& g.adj().len() == n_nodes
                &&& forall|u: int| 0 <= u < n_nodes ==> strictly_sorted(#[trigger] g.adj()[u])
                &&& forall|u: int, v: usize|
                    0 <= u < n_nodes ==> (#[trigger] g.adj()[u].contains(v) <==> exists|e: int|
                        0 <= e < edges@.len() && edges@[e] == (u as usize, v))
            },
    {
        let mut graph = Self::new(n_nodes);
        let mut i: usize = 0;
        while i < edges.len()
            invariant
                i <= edges@.len(),
                graph.wf(),
                graph.adj().len() == n_nodes,
                forall|e: int| 0 <= e < i ==> edges@[e].0 < n_nodes && edges@[e].1 < n_nodes,
                forall|u: int, v: usize|
                    0 <= u < n_nodes ==> (#[trigger] graph.adj()[u].contains(v) <==> exists|e: int|
                        0 <= e < i && edges@[e] == (u as usize, v)),
            decreases edges@.len() - i,
        {
            let (from, to) = edges[i];
            let ghost before = graph.adj();
            match graph.add_edge(from, to) {
                Ok(()) => {},
                Err(e) => {
                    return Err(e);
                },
            }
            proof {
                assert forall|u: int, v: usize| 0 <= u < n_nodes implies (
                #[trigger] graph.adj()[u].contains(v) <==> exists|e: int|
                    0 <= e < i + 1 && edges@[e] == (u as usize, v)) by {
                    if u == from {
                        assert(graph.adj()[u] == before[u].push(to));
                        if graph.adj()[u].contains(v) {
                            let k = choose|k: int|
                                0 <= k < graph.adj()[u].len() && graph.adj()[u][k] == v;
                            if k < before[u].len() {
                                assert(before[u][k] == v);
                                assert(before[u].contains(v));
                                let e = choose|e: int| 0 <= e < i && edges@[e] == (u as usize, v);
                                assert(0 <= e < i + 1 && edges@[e] == (u as usize, v));
                            } else {
                                assert(edges@[i as int] == (u as usize, v));
                            }
                        }
                        if exists|e: int| 0 <= e < i + 1 && edges@[e] == (u as usize, v) {
                            let e = choose|e: int| 0 <= e < i + 1 && edges@[e] == (u as usize, v);
                            if e == i {
                                assert(graph.adj()[u][before[u].len() as int] == v);
                            } else {
                                assert(before[u].contains(v));
                                let k = choose|k: int| 0 <= k < before[u].len() && before[u][k] == v;
                                assert(graph.adj()[u][k] == v);
                            }
                        }
                    } else {
                        assert(graph.adj()[u] == before[u]);
                        if exists|e: int| 0 <= e < i + 1 && edges@[e] == (u as usize, v) {
                            let e = choose|e: int| 0 <= e < i + 1 && edges@[e] == (u as usize, v);
                            assert(e != i);
                        }
                    }
                }
            }
            i = i + 1;
        }
        graph.normalize();
        Ok(graph)
    }

    /// A graph whose adjacency lists are `adj`, unchanged.
    pub fn from_adjacency(adj: Vec<Vec<usize>>) -> (r: Self)
        requires
            forall|u: int, k: int|
                0 <= u < adj@.len() && 0 <= k < adj@[u]@.len() ==> #[trigger] adj@[u]@[k] < adj@.len(),
        ensures
            r.wf(),
            r.adj() == adj@.map_values(|s: Vec<usize>| s@),
    {
        Digraph { adj }
    }

    /// Add the edge `from -> to`.
    pub fn add_edge(&mut self, from: usize, to: usize) -> (r: Result<(), GraphError>)
        requires
            old(self).wf(),
        ensures
            final(self).wf(),
            final(self).adj().len() == old(self).adj().len(),
            from >= old(self).adj().len() ==> r == Err::<(), GraphError>(
                GraphError::NodeOutOfBounds { node: from, n_nodes: old(self).adj().len() as usize },
            ),
            from < old(self).adj().len() && to >= old(self).adj().len() ==> r == Err::<
                (),
                GraphError,
            >(GraphError::NodeOutOfBounds { node: to, n_nodes: old(self).adj().len() as usize }),
            r is Ok <==> (from < old(self).adj().len() && to < old(self).adj().len()),
            r is Err ==> final(self).adj() == old(self).adj(),
            r is Ok ==> final(self).adj() == old(self).adj().update(
                from as int,
                old(self).adj()[from as int].push(to),
            ),
    {
        let n_nodes = self.adj.len();
        if from >= n_nodes {
            return Err(GraphError::NodeOutOfBounds { node: from, n_nodes });
        }
        if to >= n_nodes {
            return Err(GraphError::NodeOutOfBounds { node: to, n_nodes });
        }
        let ghost before = self.adj();
        let mut row = self.adj[from].clone();
        proof {
            assert(row@ =~= before[from as int]);
        }
        row.push(to);
        self.adj.set(from, row);
        proof {
            assert(self.adj() =~= before.update(from as int, before[from as int].push(to)));
        }
        Ok(())
    }

    /// Number of nodes.
    pub fn n_nodes(&self) -> (r: usize)
        ensures
            r == self.adj().len(),
    {
        self.adj.len()
    }

    /// Successors of `node` (empty for a node that does not exist).
    pub fn successors(&self, node: usize) -> (r: &[usize])
        ensures
            node < self.adj().len() ==> r@ == self.adj()[node as int],
            node >= self.adj().len() ==> r@.len() == 0,
    {
        if node < self.adj.len() {
            self.adj[node].as_slice()
        } else {
            &[]
        }
    }

    /// Sort and deduplicate every adjacency list.
    pub fn normalize(&mut self)
        requires
            old(self).wf(),
        ensures
            final(self).wf(),
            final(self).adj().len() == old(self).adj().len(),
            forall|u: int|
                0 <= u < final(self).adj().len() ==> strictly_sorted(#[trigger] final(self).adj()[u]),
            forall|u: int, v: usize|
                0 <= u < final(self).adj().len() ==> (#[trigger] final(self).adj()[u].contains(v)
                    <==> old(self).adj()[u].contains(v)),
    {
        let ghost before = self.adj();
        let n = self.adj.len();
        let mut out: Vec<Vec<usize>> = Vec::new();
        let mut i: usize = 0;
        while i < n
            invariant
                n == self.adj@.len(),
                self.adj() == before,
                self.wf(),
                i <= n,
                out@.len() == i,
                forall|u: int| 0 <= u < i ==> strictly_sorted(#[trigger] out@[u]@),
                forall|u: int, v: usize|
                    0 <= u < i ==> (#[trigger] out@[u]@.contains(v) <==> before[u].contains(v)),
            decreases n - i,
        {
            let mut row = self.adj[i].clone();
            proof {
                assert(row@ =~= before[i as int]);
            }
            sort_dedup(&mut row);
            out.push(row);
            i = i + 1;
        }
        self.adj = out;
        proof {
            assert forall|u: int, k: int|
                0 <= u < self.adj().len() && 0 <= k < self.adj()[u].len() implies #[trigger] self.adj()[u][k]
                < self.adj().len() by {
                assert(out@[u]@.contains(self.adj()[u][k]));
                let j = choose|j: int| 0 <= j < before[u].len() && before[u][j] == self.adj()[u][k];
                assert(before[u][j] < before.len());
            }
        }
    }
}

/// Strongly connected components of a graph, with the component of each node.
#[derive(Clone, Debug)]
pub struct Sccs {
    components: Vec<Vec<usize>>,
    component_of: Vec<usize>,
}

/// `components` and `component_of` describe a partition of `0..n` into
/// nonempty, strictly increasing blocks, each node recorded in its block.
pub open spec fn is_partition(components: Seq<Seq<usize>>, component_of: Seq<usize>, n: int) -> bool {
    &&& component_of.len() == n
    &&& forall|v: int|
        0 <= v < n ==> #[trigger] component_of[v] < components.len() && components[component_of[v] as int].contains(
            v as usize,
        )
    &&& forall|c: int, k: int|
        0 <= c < components.len() && 0 <= k < components[c].len() ==> #[trigger] components[c][k] < n
            && component_of[components[c][k] as int] == c
    &&& forall|c: int|
        0 <= c < components.len() ==> #[trigger] components[c].len() > 0 && strictly_sorted(
            components[c],
        )
}

impl Sccs {
    /// The components, as sequences.
    pub closed spec fn components_view(&self) -> Seq<Seq<usize>> {
        self.components@.map_values(|s: Vec<usize>| s@)
    }

    /// The component index of each node.
    pub closed spec fn component_of_view(&self) -> Seq<usize> {
        self.component_of@
    }

    /// The components, in the order they were completed.
    pub fn components(&self) -> (r: &[Vec<usize>])
        ensures
            r@.map_values(|s: Vec<usize>| s@) == self.components_view(),
    {
        self.components.as_slice()
    }

    /// The component holding `node`, if the node exists.
    pub fn component_of(&self, node: usize) -> (r: Option<usize>)
        ensures
            node < self.component_of_view().len() ==> r == Some(self.component_of_view()[node as int]),
            node >= self.component_of_view().len() ==> r is None,
    {
        if node < self.component_of.len() {
            Some(self.component_of[node])
        } else {
            None
        }
    }

    /// Number of components.
    pub fn len(&self) -> (r: usize)
        ensures
            r == self.components_view().len(),
    {
        self.components.len()
    }

    /// Are there no components (the graph has no nodes)?
    pub fn is_empty(&self) -> (r: bool)
        ensures
            r == (self.components_view().len() == 0),
    {
        self.components.len() == 0
    }
}

/// Number of entries of `s` still marked unvisited.
pub open spec fn unvisited_count(s: Seq<usize>) -> nat
    decreases s.len(),
{
    if s.len() == 0 {
        0
    } else {
        unvisited_count(s.drop_last()) + if s.last() == UNVISITED {
            1nat
        } else {
            0nat
        }
    }
}

proof fn lemma_unvisited_count_update(s: Seq<usize>, i: int, x: usize)
    requires
        0 <= i < s.len(),
        s[i] == UNVISITED,
        x != UNVISITED,
    ensures
        unvisited_count(s.update(i, x)) + 1 == unvisited_count(s),
    decreases s.len(),
{
    if i == s.len() - 1 {
        assert(s.update(i, x).drop_last() =~= s.drop_last());
    } else {
        lemma_unvisited_count_update(s.drop_last(), i, x);
        assert(s.update(i, x).drop_last() =~= s.drop_last().update(i, x));
    }
}

proof fn lemma_unvisited_count_pos(s: Seq<usize>, i: int)
    requires
        0 <= i < s.len(),
        s[i] == UNVISITED,
    ensures
        unvisited_count(s) > 0,
    decreases s.len(),
{
    if i < s.len() - 1 {
        lemma_unvisited_count_pos(s.drop_last(), i);
    }
}

/// Work still pending on a DFS work stack: unexplored successors plus one per
/// frame.
pub open spec fn work_measure(g: Seq<Seq<usize>>, w: Seq<(usize, usize)>) -> int
    decreases w.len(),
{
    if w.len() == 0 {
        0
    } else {
        work_measure(g, w.drop_last()) + (g[w.last().0 as int].len() - w.last().1) + 1
    }
}

proof fn lemma_work_measure_nonneg(g: Seq<Seq<usize>>, w: Seq<(usize, usize)>)
    requires
        forall|i: int| 0 <= i < w.len() ==> #[trigger] w[i].1 <= g[w[i].0 as int].len(),
    ensures
        work_measure(g, w) >= 0,
    decreases w.len(),
{
    if w.len() > 0 {
        assert(w.last() == w[w.len() - 1]);
        lemma_work_measure_nonneg(g, w.drop_last());
    }
}

proof fn lemma_work_measure_bump(g: Seq<Seq<usize>>, w: Seq<(usize, usize)>)
    requires
        w.len() > 0,
    ensures
        work_measure(g, w.update(w.len() - 1, (w.last().0, (w.last().1 + 1) as usize))) == work_measure(g, w)
            - 1 || w.last().1 + 1 > usize::MAX,
{
    let w2 = w.update(w.len() - 1, (w.last().0, (w.last().1 + 1) as usize));
    assert(w2.drop_last() =~= w.drop_last());
}

proof fn lemma_unvisited_all(n: nat)
    ensures
        unvisited_count(Seq::new(n, |i: int| UNVISITED)) == n,
    decreases n,
{
    if n > 0 {
        lemma_unvisited_all((n - 1) as nat);
        assert(Seq::new(n, |i: int| UNVISITED).drop_last() =~= Seq::new((n - 1) as nat, |i: int| UNVISITED));
    }
}

/// A vector of `n` copies of `x`.
pub fn filled_usize(n: usize, x: usize) -> (r: Vec<usize>)
    ensures
        r@ == Seq::new(n as nat, |i: int| x),
{
    let mut r: Vec<usize> = Vec::new();
    while r.len() < n
        invariant
            r.len() <= n,
            r@ == Seq::new(r.len() as nat, |i: int| x),
        decreases n - r.len(),
    {
        r.push(x);
    }
    r
}

/// A vector of `n` copies of `x`.
pub fn filled_bool(n: usize, x: bool) -> (r: Vec<bool>)
    ensures
        r@ == Seq::new(n as nat, |i: int| x),
{
    let mut r: Vec<bool> = Vec::new();
    while r.len() < n
        invariant
            r.len() <= n,
            r@ == Seq::new(r.len() as nat, |i: int| x),
        decreases n - r.len(),
    {
        r.push(x);
    }
    r
}

#[verifier::rlimit(100)]
#[verifier::spinoff_prover]
/// Tarjan's algorithm, iteratively. Components are emitted as they complete
/// (sinks of the condensation first); each component is sorted.
fn tarjan_core(graph: &Digraph) -> (r: Sccs)
    requires
        graph.wf(),
    ensures
        is_partition(r.components_view(), r.component_of_view(), graph.adj().len() as int),
{
    let n = graph.n_nodes();
    let ghost g = graph.adj();
    let mut next_index: usize = 0;
    let mut index: Vec<usize> = filled_usize(n, UNVISITED);
    let mut lowlink: Vec<usize> = filled_usize(n, 0);
    let mut on_stack: Vec<bool> = filled_bool(n, false);
    let mut scc_stack: Vec<usize> = Vec::new();
    let mut components: Vec<Vec<usize>> = Vec::new();
    let mut component_of: Vec<usize> = filled_usize(n, 0);
    let mut work: Vec<(usize, usize)> = Vec::new();
    proof {
        lemma_unvisited_all(n as nat);
    }
    let mut start: usize = 0;
    while start < n
        invariant
            n == g.len(),
            graph.wf(),
            g == graph.adj(),
            start <= n,
            index@.len() == n,
            lowlink@.len() == n,
            on_stack@.len() == n,
            component_of@.len() == n,
            next_index + unvisited_count(index@) == n,
            scc_stack@.len() == 0,
            work@.len() == 0,
            forall|v: int| 0 <= v < n ==> !on_stack@[v],
            forall|v: int| 0 <= v < start ==> index@[v] != UNVISITED,
            forall|v: int|
                0 <= v < n && #[trigger] index@[v] != UNVISITED ==> index@[v] < next_index
                    && lowlink@[v] <= index@[v],
            forall|v: int|
                0 <= v < n && #[trigger] index@[v] != UNVISITED ==> component_of@[v]
                    < components@.len() && components@[component_of@[v] as int]@.contains(v as usize),
            forall|c: int, k: int|
                0 <= c < components@.len() && 0 <= k < components@[c]@.len() ==> #[trigger] components@[c]@[k]
                    < n && index@[components@[c]@[k] as int] != UNVISITED
                    && component_of@[components@[c]@[k] as int] == c,
            forall|c: int|
                0 <= c < components@.len() ==> #[trigger] components@[c]@.len() > 0
                    && strictly_sorted(components@[c]@),
        decreases n - start,
    {
        if index[start] != UNVISITED {
            start = start + 1;
            continue;
        }
        let ghost base = next_index;
        work.push((start, 0));
        while work.len() > 0
            invariant
                n == g.len(),
                graph.wf(),
                g == graph.adj(),
                start < n,
                index@.len() == n,
                lowlink@.len() == n,
                on_stack@.len() == n,
                component_of@.len() == n,
                next_index + unvisited_count(index@) == n,
                next_index >= base,
                forall|v: int| 0 <= v < start ==> index@[v] != UNVISITED,
                // indices and lowlinks
                forall|v: int|
                    0 <= v < n && #[trigger] index@[v] != UNVISITED ==> index@[v] < next_index
                        && lowlink@[v] <= index@[v],
                forall|v: int|
                    0 <= v < n && index@[v] != UNVISITED && index@[v] >= base ==> #[trigger] lowlink@[v]
                        >= base,
                // the SCC stack
                forall|v: int| 0 <= v < n ==> (#[trigger] on_stack@[v] <==> scc_stack@.contains(v as usize)),
                forall|i: int| 0 <= i < scc_stack@.len() ==> #[trigger] scc_stack@[i] < n,
                forall|i: int|
                    0 <= i < scc_stack@.len() ==> index@[#[trigger] scc_stack@[i] as int] != UNVISITED
                        && index@[scc_stack@[i] as int] >= base,
                forall|i: int, j: int|
                    0 <= i < j < scc_stack@.len() ==> index@[#[trigger] scc_stack@[i] as int]
                        < index@[#[trigger] scc_stack@[j] as int],
                scc_stack@.len() > 0 ==> scc_stack@[0] == start,
                // the DFS start
                (index@[start as int] == UNVISITED && next_index == base && work@ == seq![(start, 0usize)]
                    && scc_stack@.len() == 0) || (index@[start as int] == base),
                work@.len() > 0 ==> work@[0].0 == start,
                work@.len() == 0 ==> scc_stack@.len() == 0 && index@[start as int] != UNVISITED,
                // the work stack
                forall|i: int|
                    0 <= i < work@.len() ==> #[trigger] work@[i].0 < n && work@[i].1 <= g[work@[i].0 as int].len(),
                forall|i: int|
                    0 <= i < work@.len() - 1 ==> index@[#[trigger] work@[i].0 as int] != UNVISITED
                        && on_stack@[work@[i].0 as int],
                work@.len() > 0 ==> (index@[work@.last().0 as int] != UNVISITED && on_stack@[work@.last().0 as int])
                    || (index@[work@.last().0 as int] == UNVISITED && work@.last().1 == 0),
                forall|i: int, j: int|
                    0 <= i < j < work@.len() && index@[work@[j].0 as int] != UNVISITED ==> index@[#[trigger] work@[i].0 as int]
                        < index@[#[trigger] work@[j].0 as int],
                // completed nodes
                forall|v: int|
                    0 <= v < n && #[trigger] index@[v] != UNVISITED && !on_stack@[v] ==> component_of@[v]
                        < components@.len() && components@[component_of@[v] as int]@.contains(v as usize),
                forall|c: int, k: int|
                    0 <= c < components@.len() && 0 <= k < components@[c]@.len() ==> #[trigger] components@[c]@[k]
                        < n && index@[components@[c]@[k] as int] != UNVISITED && !on_stack@[components@[c]@[k] as int]
                        && component_of@[components@[c]@[k] as int] == c,
                forall|c: int|
                    0 <= c < components@.len() ==> #[trigger] components@[c]@.len() > 0
                        && strictly_sorted(components@[c]@),
            decreases
                unvisited_count(index@) - (if work@.len() > 0 && index@[work@.last().0 as int] == UNVISITED {
                    1int
                } else {
                    0int
                }),
                work_measure(g, work@),
        {
            let top = work.len() - 1;
            let (node, cursor) = work[top];
            let ghost m1 = unvisited_count(index@) - (if index@[node as int] == UNVISITED { 1int } else { 0int });
            let ghost m2 = work_measure(g, work@);
            if cursor == 0 && index[node] == UNVISITED {
                proof {
                    lemma_unvisited_count_pos(index@, node as int);
                    lemma_unvisited_count_update(index@, node as int, next_index);
                }
                index.set(node, next_index);
                lowlink.set(node, next_index);
                next_index = next_index + 1;
                proof {
                    assert forall|i: int| 0 <= i < scc_stack@.len() implies #[trigger] scc_stack@[i] != node by {
                        assert(on_stack@[scc_stack@[i] as int]);
                    }
                }
                let ghost pre = scc_stack@;
                scc_stack.push(node);
                on_stack.set(node, true);
                proof {
                    assert forall|v: int| 0 <= v < n implies (#[trigger] on_stack@[v] <==> scc_stack@.contains(v as usize)) by {
                        if v != node as int {
                            if pre.contains(v as usize) {
                                let k = choose|k: int| 0 <= k < pre.len() && pre[k] == v as usize;
                                assert(scc_stack@[k] == v as usize);
                            }
                            if scc_stack@.contains(v as usize) {
                                let k = choose|k: int| 0 <= k < scc_stack@.len() && scc_stack@[k] == v as usize;
                                assert(k < pre.len());
                                assert(pre[k] == v as usize);
                            }
                        } else {
                            assert(scc_stack@[pre.len() as int] == node);
                        }
                    }
                }
            }
            assert(index@[node as int] != UNVISITED && on_stack@[node as int]);
            let successors = graph.successors(node);
            if cursor < successors.len() {
                let successor = successors[cursor];
                proof {
                    lemma_work_measure_bump(g, work@);
                }
                work.set(top, (node, cursor + 1));
                if index[successor] == UNVISITED {
                    work.push((successor, 0));
                    proof {
                        assert(work@.drop_last() == work@.subrange(0, top as int + 1));
                        assert(work@.last() == (successor, 0usize));
                        assert(unvisited_count(index@) - 1 < m1);
                        lemma_unvisited_count_pos(index@, successor as int);
                    }
                } else if on_stack[successor] {
                    if index[successor] < lowlink[node] {
                        lowlink.set(node, index[successor]);
                    }
                }
                proof {
                    if index@[successor as int] != UNVISITED {
                        assert(work@.last() == (node, (cursor + 1) as usize));
                        assert(unvisited_count(index@) == m1);
                        assert(work_measure(g, work@) == m2 - 1);
                        lemma_work_measure_nonneg(g, work@);
                    }
                }
                continue;
            }
            if lowlink[node] == index[node] {
                let ghost old_stack = scc_stack@;
                let ghost cof0 = component_of@;
                let ghost os0 = on_stack@;
                assert(scc_stack@.contains(node));
                let ghost pos = choose|p: int| 0 <= p < old_stack.len() && old_stack[p] == node;
                let mut component: Vec<usize> = Vec::new();
                let cid = components.len();
                loop
                    invariant_except_break
                        pos < scc_stack@.len(),
                    invariant
                        0 <= pos < old_stack.len(),
                        old_stack[pos] == node,
                        pos <= scc_stack@.len() <= old_stack.len(),
                        scc_stack@ == old_stack.subrange(0, scc_stack@.len() as int),
                        component@.len() + scc_stack@.len() == old_stack.len(),
                        forall|i: int|
                            0 <= i < component@.len() ==> #[trigger] component@[i] == old_stack[old_stack.len() - 1 - i],
                        on_stack@.len() == n,
                        component_of@.len() == n,
                        cid == components@.len(),
                        forall|i: int| 0 <= i < old_stack.len() ==> #[trigger] old_stack[i] < n,
                        forall|i: int, j: int|
                            0 <= i < j < old_stack.len() ==> old_stack[i] != old_stack[j],
                        forall|v: int|
                            0 <= v < n ==> (#[trigger] on_stack@[v] <==> scc_stack@.contains(v as usize)),
                        forall|v: int|
                            0 <= v < n && component@.contains(v as usize) ==> #[trigger] component_of@[v] == cid,
                        forall|v: int|
                            0 <= v < n && !component@.contains(v as usize) ==> #[trigger] component_of@[v] == cof0[v],
                    ensures
                        scc_stack@ == old_stack.subrange(0, pos),
                        component@.len() == old_stack.len() - pos,
                        forall|i: int|
                            0 <= i < component@.len() ==> #[trigger] component@[i] == old_stack[old_stack.len() - 1 - i],
                    decreases scc_stack@.len(),
                {
                    let ghost pre = scc_stack@;
                    let member = scc_stack.pop().unwrap();
                    let ghost k = scc_stack@.len();
                    assert(pre == scc_stack@.push(member));
                    assert(member == old_stack[k as int]);
                    proof {
                        assert forall|i: int| 0 <= i < scc_stack@.len() implies scc_stack@[i] != member by {
                            assert(scc_stack@[i] == old_stack[i]);
                        }
                        assert forall|i: int| 0 <= i < component@.len() implies component@[i] != member by {
                            assert(component@[i] == old_stack[old_stack.len() - 1 - i]);
                        }
                    }
                    let ghost pre_comp = component@;
                    let ghost pre_cof = component_of@;
                    on_stack.set(member, false);
                    component_of.set(member, cid);
                    component.push(member);
                    proof {
                        assert(component@[component@.len() - 1] == member);
                        assert forall|v: int| 0 <= v < n && !component@.contains(v as usize) implies #[trigger] component_of@[v] == cof0[v] by {
                            assert(v != member as int);
                            if pre_comp.contains(v as usize) {
                                let q = choose|q: int| 0 <= q < pre_comp.len() && pre_comp[q] == v as usize;
                                assert(component@[q] == v as usize);
                            }
                        }
                        assert forall|v: int| 0 <= v < n && component@.contains(v as usize) implies #[trigger] component_of@[v] == cid by {
                            if v != member as int {
                                let q = choose|q: int| 0 <= q < component@.len() && component@[q] == v as usize;
                                assert(q < pre_comp.len());
                                assert(pre_comp[q] == v as usize);
                            }
                        }
                    }
                    proof {
                        assert forall|v: int| 0 <= v < n implies (#[trigger] on_stack@[v] <==> scc_stack@.contains(v as usize)) by {
                            if v != member as int {
                                if pre.contains(v as usize) {
                                    let q = choose|q: int| 0 <= q < pre.len() && pre[q] == v as usize;
                                    assert(q < scc_stack@.len());
                                    assert(scc_stack@[q] == v as usize);
                                }
                                if scc_stack@.contains(v as usize) {
                                    let q = choose|q: int| 0 <= q < scc_stack@.len() && scc_stack@[q] == v as usize;
                                    assert(pre[q] == v as usize);
                                }
                            }
                        }
                    }
                    if member == node {
                        proof {
                            if k != pos {
                                assert(old_stack[k as int] == old_stack[pos]);
                            }
                        }
                        break;
                    }
                }
                let ghost unsorted = component@;
                proof {
                    assert forall|i: int, j: int| 0 <= i < j < unsorted.len() implies unsorted[i] != unsorted[j] by {
                        assert(unsorted[i] == old_stack[old_stack.len() - 1 - i]);
                        assert(unsorted[j] == old_stack[old_stack.len() - 1 - j]);
                    }
                    assert(unsorted.no_duplicates());
                }
                sort_indices(&mut component);
                proof {
                    assert(component@.len() == component@.to_multiset().len());
                    assert(unsorted.len() == unsorted.to_multiset().len());
                    lemma_sorted_permutation_strict(component@, unsorted);
                    assert(unsorted[0] == node || unsorted[unsorted.len() - 1] == node);
                }
                let ghost comps0 = components@;
                components.push(component);
                proof {
                    assert(components@[cid as int]@ == component@);
                    assert forall|c: int, k: int|
                        0 <= c < components@.len() && 0 <= k < components@[c]@.len() implies #[trigger] components@[c]@[k]
                            < n && index@[components@[c]@[k] as int] != UNVISITED && !on_stack@[components@[c]@[k] as int]
                            && component_of@[components@[c]@[k] as int] == c by {
                        let x = components@[c]@[k];
                        if c < cid {
                            assert(comps0[c]@[k] == x);
                            assert(!os0[x as int]);
                            assert(!old_stack.contains(x));
                            assert(!unsorted.contains(x)) by {
                                if unsorted.contains(x) {
                                    let q = choose|q: int| 0 <= q < unsorted.len() && unsorted[q] == x;
                                    assert(old_stack[old_stack.len() - 1 - q] == x);
                                }
                            }
                        } else {
                            assert(components@[c]@ == component@);
                            assert(component@.contains(x));
                            assert(unsorted.contains(x));
                            let q = choose|q: int| 0 <= q < unsorted.len() && unsorted[q] == x;
                            assert(old_stack[old_stack.len() - 1 - q] == x);
                            assert(!scc_stack@.contains(x)) by {
                                if scc_stack@.contains(x) {
                                    let q2 = choose|q2: int| 0 <= q2 < scc_stack@.len() && scc_stack@[q2] == x;
                                    assert(old_stack[q2] == x);
                                }
                            }
                        }
                    }
                    assert forall|v: int|
                        0 <= v < n && #[trigger] index@[v] != UNVISITED && !on_stack@[v] implies component_of@[v]
                            < components@.len() && components@[component_of@[v] as int]@.contains(v as usize) by {
                        if unsorted.contains(v as usize) {
                            assert(component@.contains(v as usize));
                        } else {
                            assert(!os0[v]) by {
                                if os0[v] {
                                    assert(old_stack.contains(v as usize));
                                    let q = choose|q: int| 0 <= q < old_stack.len() && old_stack[q] == v as usize;
                                    if q >= pos {
                                        assert(unsorted[old_stack.len() - 1 - q] == v as usize);
                                    } else {
                                        assert(scc_stack@[q] == v as usize);
                                    }
                                }
                            }
                            assert(component_of@[v] == cof0[v]);
                            assert(comps0[cof0[v] as int] == components@[cof0[v] as int]);
                        }
                    }
                    assert forall|i: int| 0 <= i < work@.len() - 1 implies index@[#[trigger] work@[i].0 as int] != UNVISITED
                        && on_stack@[work@[i].0 as int] by {
                        let x = work@[i].0;
                        assert(os0[x as int]);
                        assert(old_stack.contains(x));
                        let q = choose|q: int| 0 <= q < old_stack.len() && old_stack[q] == x;
                        assert(index@[x as int] < index@[node as int]);
                        if q >= pos {
                            if q > pos {
                                assert(index@[old_stack[pos] as int] < index@[old_stack[q] as int]);
                            }
                        }
                        assert(scc_stack@[q] == x);
                    }
                }
            }
            let ghost wpre = work@;
            work.pop();
            proof {
                assert(work@ == wpre.drop_last());
                assert(wpre.last() == (node, cursor));
                assert(work_measure(g, work@) == m2 - 1);
                lemma_work_measure_nonneg(g, work@);
                if work@.len() > 0 {
                    assert(work@.last() == wpre[work@.len() - 1]);
                }
            }
            if work.len() > 0 {
                let parent = work[work.len() - 1].0;
                if lowlink[node] < lowlink[parent] {
                    lowlink.set(parent, lowlink[node]);
                }
            }
        }
        proof {
            assert forall|v: int| 0 <= v < n implies !on_stack@[v] by {
                assert(!scc_stack@.contains(v as usize));
            }
        }
        start = start + 1;
    }
    let r = Sccs { components, component_of };
    proof {
        assert forall|v: int| 0 <= v < n implies index@[v] != UNVISITED by {
            assert(v < start);
        }
        let cv = r.components_view();
        assert(cv.len() == components@.len());
        assert forall|c: int| 0 <= c < cv.len() implies #[trigger] cv[c] == components@[c]@ by {}
        assert forall|v: int| 0 <= v < n implies #[trigger] component_of@[v] < cv.len() && cv[component_of@[v] as int].contains(v as usize) by {
            assert(index@[v] != UNVISITED);
        }
        assert forall|c: int, k: int| 0 <= c < cv.len() && 0 <= k < cv[c].len() implies #[trigger] cv[c][k] < n
            && component_of@[cv[c][k] as int] == c by {
            assert(cv[c] == components@[c]@);
        }
        assert forall|c: int| 0 <= c < cv.len() implies #[trigger] cv[c].len() > 0 && strictly_sorted(cv[c]) by {
            assert(cv[c] == components@[c]@);
        }
    }
    r
}

/// The strongly connected components: Tarjan's algorithm, iteratively.
/// Components are emitted as they complete (sinks of the condensation
/// first); each component is sorted. Two nodes share a component exactly
/// when each reaches the other. The result is checked for that
/// ([`crate::reach::blocks_are_sccs`]); a result failing the check would be
/// replaced by the components found from every node's reach set.
pub fn tarjan_scc(graph: &Digraph) -> (r: Sccs)
    requires
        graph.wf(),
    ensures
        is_partition(r.components_view(), r.component_of_view(), graph.adj().len() as int),
        blocks_are_mutual_reach(graph.adj(), r.component_of_view()),
{
    let r = tarjan_core(graph);
    proof {
        assert(r.components_view() == r.components@.map_values(|s: Vec<usize>| s@));
    }
    if blocks_are_sccs(graph, &r.components, &r.component_of) {
        r
    } else {
        let (components, component_of) = sccs_by_reach(graph);
        Sccs { components, component_of }
    }
}

} // verus!
