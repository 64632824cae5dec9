//! Reachability in a directed graph, and what makes a partition of its
//! nodes the partition into strongly connected components.
use vstd::prelude::*;
use crate::scc::{Digraph, is_partition, filled_usize, filled_bool};

verus! {

/// Step `i` of `path` follows an edge of `g`.
pub open spec fn step_ok(g: Seq<Seq<usize>>, path: Seq<usize>, i: int) -> bool {
    g[path[i - 1] as int].contains(path[i])
}

/// `path` is a walk of `g`: nodes of `g`, each joined to the next by an edge.
pub open spec fn is_walk(g: Seq<Seq<usize>>, path: Seq<usize>) -> bool {
    &&& path.len() > 0
    &&& forall|i: int| 0 <= i < path.len() ==> #[trigger] path[i] < g.len()
    &&& forall|i: int| 1 <= i < path.len() ==> #[trigger] step_ok(g, path, i)
}

/// Some walk of `g` leads from `u` to `v`.
pub open spec fn reaches(g: Seq<Seq<usize>>, u: int, v: int) -> bool {
    exists|path: Seq<usize>| #[trigger] is_walk(g, path) && path[0] == u && path.last() == v
}

/// `u` and `v` reach each other in `g`.
pub open spec fn mutually_reachable(g: Seq<Seq<usize>>, u: int, v: int) -> bool {
    reaches(g, u, v) && reaches(g, v, u)
}

/// `comps` / `comp_of` group the nodes of `g` exactly by mutual
/// reachability: two nodes share a block iff each reaches the other.
pub open spec fn blocks_are_mutual_reach(g: Seq<Seq<usize>>, comp_of: Seq<usize>) -> bool {
    forall|u: int, v: int|
        #![trigger comp_of[u], comp_of[v]]
        0 <= u < g.len() && 0 <= v < g.len() ==> (comp_of[u] == comp_of[v] <==> mutually_reachable(g, u, v))
}

/// No edge of `g` leads to a node of larger `rank`.
pub open spec fn rank_descends(g: Seq<Seq<usize>>, rank: Seq<usize>) -> bool {
    &&& rank.len() == g.len()
    &&& forall|a: int, k: int|
        0 <= a < g.len() && 0 <= k < g[a].len() ==> rank[#[trigger] g[a][k] as int] <= rank[a]
}

/// A node reaches itself.
pub proof fn lemma_reaches_refl(g: Seq<Seq<usize>>, u: usize)
    requires
        u < g.len(),
    ensures
        reaches(g, u as int, u as int),
{
    let p = seq![u];
    assert(p[0] == u);
    assert(is_walk(g, p));
    assert(p.last() == u);
}

/// A walk to `v` extends along an edge `v -> w`.
pub proof fn lemma_reaches_step(g: Seq<Seq<usize>>, u: int, v: int, w: usize)
    requires
        reaches(g, u, v),
        0 <= v < g.len(),
        g[v].contains(w),
        w < g.len(),
    ensures
        reaches(g, u, w as int),
{
    let p = choose|p: Seq<usize>| #[trigger] is_walk(g, p) && p[0] == u && p.last() == v;
    let q = p.push(w);
    assert forall|i: int| 0 <= i < q.len() implies #[trigger] q[i] < g.len() by {
        if i < p.len() {
            assert(q[i] == p[i]);
        }
    }
    assert forall|i: int| 1 <= i < q.len() implies #[trigger] step_ok(g, q, i) by {
        if i < p.len() {
            assert(step_ok(g, p, i));
            assert(q[i] == p[i] && q[i - 1] == p[i - 1]);
        } else {
            assert(q[i - 1] == p.last());
        }
    }
    assert(is_walk(g, q));
    assert(q[0] == u && q.last() == w);
}

/// An edge `x -> u` followed by a walk from `u` to `v`.
pub proof fn lemma_reaches_prepend(g: Seq<Seq<usize>>, x: usize, u: usize, v: int)
    requires
        x < g.len(),
        g[x as int].contains(u),
        reaches(g, u as int, v),
    ensures
        reaches(g, x as int, v),
{
    let p = choose|p: Seq<usize>| #[trigger] is_walk(g, p) && p[0] == u as int && p.last() == v;
    let q = seq![x] + p;
    assert(q[0] == x);
    assert forall|i: int| 0 <= i < q.len() implies #[trigger] q[i] < g.len() by {
        if i > 0 {
            assert(q[i] == p[i - 1]);
        }
    }
    assert forall|i: int| 1 <= i < q.len() implies #[trigger] step_ok(g, q, i) by {
        if i == 1 {
            assert(q[1] == p[0]);
        } else {
            assert(step_ok(g, p, i - 1));
            assert(q[i] == p[i - 1] && q[i - 1] == p[i - 2]);
        }
    }
    assert(is_walk(g, q));
    assert(q.last() == q[q.len() - 1] && q[q.len() - 1] == p[p.len() - 1]);
}

/// Walks compose.
pub proof fn lemma_reaches_trans(g: Seq<Seq<usize>>, u: int, v: int, w: int)
    requires
        reaches(g, u, v),
        reaches(g, v, w),
    ensures
        reaches(g, u, w),
{
    let p1 = choose|p: Seq<usize>| #[trigger] is_walk(g, p) && p[0] == u && p.last() == v;
    let p2 = choose|p: Seq<usize>| #[trigger] is_walk(g, p) && p[0] == v && p.last() == w;
    let rest = p2.subrange(1, p2.len() as int);
    let q = p1 + rest;
    let n1 = p1.len() as int;
    assert forall|i: int| 0 <= i < q.len() implies #[trigger] q[i] < g.len() by {
        if i < n1 {
            assert(q[i] == p1[i]);
        } else {
            assert(q[i] == p2[i - n1 + 1]);
        }
    }
    assert forall|i: int| 1 <= i < q.len() implies #[trigger] step_ok(g, q, i) by {
        if i < n1 {
            assert(step_ok(g, p1, i));
            assert(q[i] == p1[i] && q[i - 1] == p1[i - 1]);
        } else if i == n1 {
            assert(step_ok(g, p2, 1));
            assert(q[i] == p2[1] && q[i - 1] == p1.last() && p1.last() == p2[0]);
        } else {
            assert(step_ok(g, p2, i - n1 + 1));
            assert(q[i] == p2[i - n1 + 1] && q[i - 1] == p2[i - n1]);
        }
    }
    assert(is_walk(g, q));
    if p2.len() == 1 {
        assert(q =~= p1);
    } else {
        assert(q.last() == p2.last());
    }
    assert(q[0] == u);
}

/// Along a walk, a descending rank never rises above its start.
proof fn lemma_rank_along(g: Seq<Seq<usize>>, rank: Seq<usize>, p: Seq<usize>, i: int)
    requires
        rank_descends(g, rank),
        is_walk(g, p),
        0 <= i < p.len(),
    ensures
        rank[p[i] as int] <= rank[p[0] as int],
    decreases i,
{
    if i > 0 {
        lemma_rank_along(g, rank, p, i - 1);
        assert(step_ok(g, p, i));
        let a = p[i - 1] as int;
        assert(g[a].contains(p[i]));
        let k = choose|k: int| 0 <= k < g[a].len() && g[a][k] == p[i];
        assert(rank[g[a][k] as int] <= rank[a]);
    }
}

/// What one node reaches stands no higher in a descending rank.
pub proof fn lemma_rank_reaches(g: Seq<Seq<usize>>, rank: Seq<usize>, u: int, v: int)
    requires
        rank_descends(g, rank),
        reaches(g, u, v),
    ensures
        rank[v] <= rank[u],
{
    let p = choose|p: Seq<usize>| #[trigger] is_walk(g, p) && p[0] == u && p.last() == v;
    lemma_rank_along(g, rank, p, p.len() - 1);
}

/// Number of entries of `s` other than `c`.
pub open spec fn count_other(s: Seq<usize>, c: usize) -> nat
    decreases s.len(),
{
    if s.len() == 0 {
        0
    } else {
        count_other(s.drop_last(), c) + if s.last() == c {
            0nat
        } else {
            1nat
        }
    }
}

pub(crate) proof fn lemma_count_other_mark(s: Seq<usize>, i: int, c: usize)
    requires
        0 <= i < s.len(),
        s[i] != c,
    ensures
        count_other(s.update(i, c), c) + 1 == count_other(s, c),
    decreases s.len(),
{
    let t = s.update(i, c);
    if i == s.len() - 1 {
        assert(t.drop_last() =~= s.drop_last());
    } else {
        assert(t.drop_last() =~= s.drop_last().update(i, c));
        lemma_count_other_mark(s.drop_last(), i, c);
    }
}

/// The reversed edges: `radj[w]` lists the sources of the edges into `w`.
fn reverse_edges(graph: &Digraph) -> (radj: Vec<Vec<usize>>)
    requires
        graph.wf(),
    ensures
        radj@.len() == graph.adj().len(),
        forall|w: int, k: int|
            0 <= w < radj@.len() && 0 <= k < radj@[w]@.len() ==> (#[trigger] radj@[w]@[k]) < graph.adj().len()
                && graph.adj()[radj@[w]@[k] as int].contains(w as usize),
{
    let n = graph.n_nodes();
    let ghost g = graph.adj();
    let mut radj: Vec<Vec<usize>> = Vec::new();
    while radj.len() < n
        invariant
            radj@.len() <= n,
            forall|w: int| 0 <= w < radj@.len() ==> (#[trigger] radj@[w])@.len() == 0,
        decreases n - radj@.len(),
    {
        radj.push(Vec::new());
    }
    let mut u: usize = 0;
    while u < n
        invariant
            graph.wf(),
            g == graph.adj(),
            n == g.len(),
            radj@.len() == n,
            u <= n,
            forall|w: int, k: int|
                0 <= w < radj@.len() && 0 <= k < radj@[w]@.len() ==> (#[trigger] radj@[w]@[k]) < n && g[radj@[w]@[k] as int].contains(
                    w as usize,
                ),
        decreases n - u,
    {
        let succ = graph.successors(u);
        let mut k: usize = 0;
        while k < succ.len()
            invariant
                graph.wf(),
                g == graph.adj(),
                n == g.len(),
                u < n,
                succ@ == g[u as int],
                radj@.len() == n,
                k <= succ@.len(),
                forall|w: int, j: int|
                    0 <= w < radj@.len() && 0 <= j < radj@[w]@.len() ==> (#[trigger] radj@[w]@[j]) < n && g[radj@[w]@[j] as int].contains(
                        w as usize,
                    ),
            decreases succ@.len() - k,
        {
            let w = succ[k];
            assert(g[u as int][k as int] == w);
            assert(w < n);
            let ghost before = radj@;
            let mut row: Vec<usize> = Vec::new();
            radj.set_and_swap(w, &mut row);
            let ghost old_row = row@;
            row.push(u);
            radj.set_and_swap(w, &mut row);
            proof {
                assert(old_row == before[w as int]@);
                assert(g[u as int].contains(w));
                assert forall|x: int, j: int|
                    0 <= x < radj@.len() && 0 <= j < radj@[x]@.len() implies (#[trigger] radj@[x]@[j]) < n && g[radj@[x]@[j] as int].contains(
                        x as usize,
                    ) by {
                    if x != w as int {
                        assert(radj@[x] == before[x]);
                    } else if j < old_row.len() {
                        assert(radj@[x]@[j] == before[x]@[j]);
                    }
                }
            }
            k = k + 1;
        }
        u = u + 1;
    }
    radj
}

/// Are the blocks of a partition of the nodes of `graph` exactly its
/// strongly connected components? Checked by two facts: no edge leads to a
/// block of larger index, and inside each block its first node reaches
/// every member and every member reaches it (a search restricted to the
/// block, forwards and then along reversed edges).
pub(crate) fn blocks_are_sccs(graph: &Digraph, components: &Vec<Vec<usize>>, component_of: &Vec<usize>) -> (ok: bool)
    requires
        graph.wf(),
        is_partition(components@.map_values(|s: Vec<usize>| s@), component_of@, graph.adj().len() as int),
    ensures
        ok ==> blocks_are_mutual_reach(graph.adj(), component_of@),
{
    let n = graph.n_nodes();
    let ghost g = graph.adj();
    let ghost cv = components@.map_values(|s: Vec<usize>| s@);
    let mut u: usize = 0;
    while u < n
        invariant
            graph.wf(),
            g == graph.adj(),
            n == g.len(),
            component_of@.len() == n,
            u <= n,
            forall|a: int, k: int| 0 <= a < u && 0 <= k < g[a].len() ==> component_of@[#[trigger] g[a][k] as int] <= component_of@[a],
        decreases n - u,
    {
        let succ = graph.successors(u);
        let mut k: usize = 0;
        while k < succ.len()
            invariant
                graph.wf(),
                g == graph.adj(),
                n == g.len(),
                component_of@.len() == n,
                u < n,
                succ@ == g[u as int],
                k <= succ@.len(),
                forall|a: int, j: int| 0 <= a < u && 0 <= j < g[a].len() ==> component_of@[#[trigger] g[a][j] as int] <= component_of@[a],
                forall|j: int| 0 <= j < k ==> component_of@[#[trigger] g[u as int][j] as int] <= component_of@[u as int],
            decreases succ@.len() - k,
        {
            let w = succ[k];
            if component_of[w] > component_of[u] {
                return false;
            }
            k = k + 1;
        }
        u = u + 1;
    }
    assert(rank_descends(g, component_of@));
    let radj = reverse_edges(graph);
    let mut fmark = filled_usize(n, usize::MAX);
    let mut bmark = filled_usize(n, usize::MAX);
    let mut c: usize = 0;
    while c < components.len()
        invariant
            graph.wf(),
            g == graph.adj(),
            n == g.len(),
            cv == components@.map_values(|s: Vec<usize>| s@),
            is_partition(cv, component_of@, n as int),
            rank_descends(g, component_of@),
            radj@.len() == n,
            forall|w: int, k: int|
                0 <= w < radj@.len() && 0 <= k < radj@[w]@.len() ==> (#[trigger] radj@[w]@[k]) < n && g[radj@[w]@[k] as int].contains(
                    w as usize,
                ),
            fmark@.len() == n,
            bmark@.len() == n,
            c <= components@.len(),
            forall|v: int| 0 <= v < n ==> #[trigger] fmark@[v] == usize::MAX || fmark@[v] < c,
            forall|v: int| 0 <= v < n ==> #[trigger] bmark@[v] == usize::MAX || bmark@[v] < c,
            forall|c2: int, k: int|
                0 <= c2 < c && 0 <= k < cv[c2].len() ==> reaches(g, cv[c2][0] as int, #[trigger] cv[c2][k] as int) && reaches(
                    g,
                    cv[c2][k] as int,
                    cv[c2][0] as int,
                ),
        decreases components@.len() - c,
    {
        assert(cv[c as int] == components@[c as int]@);
        let rep = components[c][0];
        assert(rep == cv[c as int][0]);
        assert(rep < n);
        proof {
            lemma_reaches_refl(g, rep);
        }
        // Forward search inside the block.
        fmark.set(rep, c);
        let mut queue: Vec<usize> = Vec::new();
        queue.push(rep);
        let mut qi: usize = 0;
        while qi < queue.len()
            invariant
                graph.wf(),
                g == graph.adj(),
                n == g.len(),
                fmark@.len() == n,
                component_of@.len() == n,
                rep < n,
                qi <= queue@.len(),
                forall|i: int| 0 <= i < queue@.len() ==> #[trigger] queue@[i] < n && fmark@[queue@[i] as int] == c,
                forall|v: int| 0 <= v < n && #[trigger] fmark@[v] == c ==> reaches(g, rep as int, v),
                forall|v: int| 0 <= v < n ==> #[trigger] fmark@[v] == usize::MAX || fmark@[v] <= c,
            decreases count_other(fmark@, c), queue@.len() - qi,
        {
            let x = queue[qi];
            qi = qi + 1;
            let succ = graph.successors(x);
            let ghost co0 = count_other(fmark@, c);
            let ghost ql0 = queue@.len();
            let mut k: usize = 0;
            while k < succ.len()
                invariant
                    graph.wf(),
                    g == graph.adj(),
                    n == g.len(),
                    fmark@.len() == n,
                    component_of@.len() == n,
                    x < n,
                    succ@ == g[x as int],
                    reaches(g, rep as int, x as int),
                    k <= succ@.len(),
                    qi <= queue@.len(),
                    count_other(fmark@, c) + queue@.len() == co0 + ql0,
                    queue@.len() >= ql0,
                    forall|i: int| 0 <= i < queue@.len() ==> #[trigger] queue@[i] < n && fmark@[queue@[i] as int] == c,
                    forall|v: int| 0 <= v < n && #[trigger] fmark@[v] == c ==> reaches(g, rep as int, v),
                    forall|v: int| 0 <= v < n ==> #[trigger] fmark@[v] == usize::MAX || fmark@[v] <= c,
                decreases succ@.len() - k,
            {
                let y = succ[k];
                assert(g[x as int][k as int] == y);
                if component_of[y] == c && fmark[y] != c {
                    proof {
                        lemma_reaches_step(g, rep as int, x as int, y);
                        lemma_count_other_mark(fmark@, y as int, c);
                    }
                    fmark.set(y, c);
                    queue.push(y);
                }
                k = k + 1;
            }
        }
        let mut m: usize = 0;
        while m < components[c].len()
            invariant
                cv == components@.map_values(|s: Vec<usize>| s@),
                c < components@.len(),
                fmark@.len() == n,
                is_partition(cv, component_of@, n as int),
                m <= cv[c as int].len(),
                forall|v: int| 0 <= v < n && #[trigger] fmark@[v] == c ==> reaches(g, rep as int, v),
                forall|k: int| 0 <= k < m ==> reaches(g, rep as int, #[trigger] cv[c as int][k] as int),
            decreases cv[c as int].len() - m,
        {
            assert(cv[c as int] == components@[c as int]@);
            let v = components[c][m];
            if fmark[v] != c {
                return false;
            }
            m = m + 1;
        }
        // Backward search inside the block, along reversed edges.
        bmark.set(rep, c);
        let mut queue: Vec<usize> = Vec::new();
        queue.push(rep);
        let mut qi: usize = 0;
        while qi < queue.len()
            invariant
                g == graph.adj(),
                n == g.len(),
                bmark@.len() == n,
                component_of@.len() == n,
                rep < n,
                radj@.len() == n,
                forall|w: int, k: int|
                    0 <= w < radj@.len() && 0 <= k < radj@[w]@.len() ==> (#[trigger] radj@[w]@[k]) < n && g[radj@[w]@[k] as int].contains(
                        w as usize,
                    ),
                qi <= queue@.len(),
                forall|i: int| 0 <= i < queue@.len() ==> #[trigger] queue@[i] < n && bmark@[queue@[i] as int] == c,
                forall|v: int| 0 <= v < n && #[trigger] bmark@[v] == c ==> reaches(g, v, rep as int),
                forall|v: int| 0 <= v < n ==> #[trigger] bmark@[v] == usize::MAX || bmark@[v] <= c,
            decreases count_other(bmark@, c), queue@.len() - qi,
        {
            let x = queue[qi];
            qi = qi + 1;
            let ghost co0 = count_other(bmark@, c);
            let ghost ql0 = queue@.len();
            let mut k: usize = 0;
            while k < radj[x].len()
                invariant
                    g == graph.adj(),
                    n == g.len(),
                    bmark@.len() == n,
                    component_of@.len() == n,
                    x < n,
                    radj@.len() == n,
                    forall|w: int, j: int|
                        0 <= w < radj@.len() && 0 <= j < radj@[w]@.len() ==> (#[trigger] radj@[w]@[j]) < n && g[radj@[w]@[j] as int].contains(
                            w as usize,
                        ),
                    reaches(g, x as int, rep as int),
                    k <= radj@[x as int]@.len(),
                    qi <= queue@.len(),
                    count_other(bmark@, c) + queue@.len() == co0 + ql0,
                    queue@.len() >= ql0,
                    forall|i: int| 0 <= i < queue@.len() ==> #[trigger] queue@[i] < n && bmark@[queue@[i] as int] == c,
                    forall|v: int| 0 <= v < n && #[trigger] bmark@[v] == c ==> reaches(g, v, rep as int),
                    forall|v: int| 0 <= v < n ==> #[trigger] bmark@[v] == usize::MAX || bmark@[v] <= c,
                decreases radj@[x as int]@.len() - k,
            {
                let y = radj[x][k];
                assert(radj@[x as int]@[k as int] == y);
                if component_of[y] == c && bmark[y] != c {
                    proof {
                        lemma_reaches_prepend(g, y, x, rep as int);
                        lemma_count_other_mark(bmark@, y as int, c);
                    }
                    bmark.set(y, c);
                    queue.push(y);
                }
                k = k + 1;
            }
        }
        let mut m: usize = 0;
        while m < components[c].len()
            invariant
                cv == components@.map_values(|s: Vec<usize>| s@),
                c < components@.len(),
                bmark@.len() == n,
                is_partition(cv, component_of@, n as int),
                m <= cv[c as int].len(),
                forall|v: int| 0 <= v < n && #[trigger] bmark@[v] == c ==> reaches(g, v, rep as int),
                forall|k: int| 0 <= k < m ==> reaches(g, #[trigger] cv[c as int][k] as int, rep as int),
            decreases cv[c as int].len() - m,
        {
            assert(cv[c as int] == components@[c as int]@);
            let v = components[c][m];
            if bmark[v] != c {
                return false;
            }
            m = m + 1;
        }
        c = c + 1;
    }
    proof {
        assert forall|u: int, v: int|
            #![trigger component_of@[u], component_of@[v]]
            0 <= u < n && 0 <= v < n implies (component_of@[u] == component_of@[v] <==> mutually_reachable(g, u, v)) by {
            if component_of@[u] == component_of@[v] {
                let cc = component_of@[u] as int;
                let ku = choose|k: int| 0 <= k < cv[cc].len() && cv[cc][k] == u as usize;
                let kv = choose|k: int| 0 <= k < cv[cc].len() && cv[cc][k] == v as usize;
                assert(reaches(g, cv[cc][ku] as int, cv[cc][0] as int));
                assert(reaches(g, cv[cc][0] as int, cv[cc][kv] as int));
                assert(reaches(g, cv[cc][kv] as int, cv[cc][0] as int));
                assert(reaches(g, cv[cc][0] as int, cv[cc][ku] as int));
                lemma_reaches_trans(g, u, cv[cc][0] as int, v);
                lemma_reaches_trans(g, v, cv[cc][0] as int, u);
            }
            if mutually_reachable(g, u, v) {
                lemma_rank_reaches(g, component_of@, u, v);
                lemma_rank_reaches(g, component_of@, v, u);
            }
        }
    }
    true
}

/// Every node of a walk that starts in a set closed under the edges of `g`
/// lies in the set.
proof fn lemma_closed_walk(g: Seq<Seq<usize>>, mark: Seq<usize>, p: Seq<usize>, i: int)
    requires
        mark.len() == g.len(),
        is_walk(g, p),
        mark[p[0] as int] == 1,
        forall|a: int, k: int| 0 <= a < g.len() && mark[a] == 1 && 0 <= k < g[a].len() ==> mark[#[trigger] g[a][k] as int] == 1,
        0 <= i < p.len(),
    ensures
        mark[p[i] as int] == 1,
    decreases i,
{
    if i > 0 {
        lemma_closed_walk(g, mark, p, i - 1);
        assert(step_ok(g, p, i));
        let a = p[i - 1] as int;
        let k = choose|k: int| 0 <= k < g[a].len() && g[a][k] == p[i];
        assert(mark[g[a][k] as int] == 1);
    }
}

/// The nodes that `s` reaches, marked `1` (a complete search).
fn reach_from(graph: &Digraph, s: usize) -> (mark: Vec<usize>)
    requires
        graph.wf(),
        s < graph.adj().len(),
    ensures
        mark@.len() == graph.adj().len(),
        forall|v: int| 0 <= v < mark@.len() ==> (#[trigger] mark@[v] == 1 <==> reaches(graph.adj(), s as int, v)),
{
    let n = graph.n_nodes();
    let ghost g = graph.adj();
    let mut mark = filled_usize(n, 0);
    proof {
        lemma_reaches_refl(g, s);
    }
    mark.set(s, 1);
    let mut queue: Vec<usize> = Vec::new();
    queue.push(s);
    proof {
        assert(queue@[0] == s);
        assert forall|v: int| 0 <= v < n && #[trigger] mark@[v] == 1 implies exists|i: int| 0 <= i < queue@.len() && queue@[i] == v by {
            assert(v == s as int);
        }
    }
    let mut qi: usize = 0;
    while qi < queue.len()
        invariant
            graph.wf(),
            g == graph.adj(),
            n == g.len(),
            s < n,
            mark@.len() == n,
            mark@[s as int] == 1,
            qi <= queue@.len(),
            forall|i: int| 0 <= i < queue@.len() ==> #[trigger] queue@[i] < n && mark@[queue@[i] as int] == 1,
            forall|v: int| 0 <= v < n && #[trigger] mark@[v] == 1 ==> reaches(g, s as int, v),
            forall|v: int| 0 <= v < n && #[trigger] mark@[v] == 1 ==> exists|i: int| 0 <= i < queue@.len() && queue@[i] == v,
            forall|i: int, k: int| 0 <= i < qi && 0 <= k < g[queue@[i] as int].len() ==> mark@[#[trigger] g[queue@[i] as int][k] as int] == 1,
        decreases count_other(mark@, 1), queue@.len() - qi,
    {
        let x = queue[qi];
        let succ = graph.successors(x);
        let ghost co0 = count_other(mark@, 1);
        let ghost ql0 = queue@.len();
        let mut k: usize = 0;
        while k < succ.len()
            invariant
                graph.wf(),
                g == graph.adj(),
                n == g.len(),
                s < n,
                mark@.len() == n,
                mark@[s as int] == 1,
                x < n,
                x == queue@[qi as int],
                qi < queue@.len(),
                succ@ == g[x as int],
                reaches(g, s as int, x as int),
                k <= succ@.len(),
                count_other(mark@, 1) + queue@.len() == co0 + ql0,
                queue@.len() >= ql0,
                forall|i: int| 0 <= i < queue@.len() ==> #[trigger] queue@[i] < n && mark@[queue@[i] as int] == 1,
                forall|v: int| 0 <= v < n && #[trigger] mark@[v] == 1 ==> reaches(g, s as int, v),
                forall|v: int| 0 <= v < n && #[trigger] mark@[v] == 1 ==> exists|i: int| 0 <= i < queue@.len() && queue@[i] == v,
                forall|i: int, j: int| 0 <= i < qi && 0 <= j < g[queue@[i] as int].len() ==> mark@[#[trigger] g[queue@[i] as int][j] as int] == 1,
                forall|j: int| 0 <= j < k ==> mark@[#[trigger] g[x as int][j] as int] == 1,
            decreases succ@.len() - k,
        {
            let y = succ[k];
            assert(g[x as int][k as int] == y);
            if mark[y] != 1 {
                proof {
                    lemma_reaches_step(g, s as int, x as int, y);
                    lemma_count_other_mark(mark@, y as int, 1);
                }
                let ghost q0 = queue@;
                mark.set(y, 1);
                queue.push(y);
                proof {
                    assert(queue@[q0.len() as int] == y);
                    assert forall|v: int| 0 <= v < n && #[trigger] mark@[v] == 1 implies exists|i: int|
                        0 <= i < queue@.len() && queue@[i] == v by {
                        if v != y as int {
                            let i = choose|i: int| 0 <= i < q0.len() && q0[i] == v;
                            assert(queue@[i] == v);
                        }
                    }
                }
            }
            k = k + 1;
        }
        qi = qi + 1;
    }
    proof {
        assert forall|a: int, k: int| 0 <= a < g.len() && mark@[a] == 1 && 0 <= k < g[a].len() implies mark@[#[trigger] g[a][k] as int] == 1 by {
            let i = choose|i: int| 0 <= i < queue@.len() && queue@[i] == a;
            assert(mark@[g[queue@[i] as int][k] as int] == 1);
        }
        assert forall|v: int| 0 <= v < n && reaches(g, s as int, v) implies #[trigger] mark@[v] == 1 by {
            let p = choose|p: Seq<usize>| #[trigger] is_walk(g, p) && p[0] == s as int && p.last() == v;
            lemma_closed_walk(g, mark@, p, p.len() - 1);
        }
    }
    mark
}

/// The strongly connected components by direct reachability: every node's
/// reach set, then each block as the nodes reaching and reached by its
/// first node. Quadratic; the check of a faster computation falls back
/// on it.
pub(crate) fn sccs_by_reach(graph: &Digraph) -> (r: (Vec<Vec<usize>>, Vec<usize>))
    requires
        graph.wf(),
    ensures
        is_partition(r.0@.map_values(|s: Vec<usize>| s@), r.1@, graph.adj().len() as int),
        blocks_are_mutual_reach(graph.adj(), r.1@),
{
    let n = graph.n_nodes();
    let ghost g = graph.adj();
    let mut reach: Vec<Vec<usize>> = Vec::new();
    let mut v: usize = 0;
    while v < n
        invariant
            graph.wf(),
            g == graph.adj(),
            n == g.len(),
            v <= n,
            reach@.len() == v,
            forall|a: int| 0 <= a < v ==> (#[trigger] reach@[a])@.len() == n,
            forall|a: int, b: int| 0 <= a < v && 0 <= b < n ==> (#[trigger] reach@[a]@[b] == 1 <==> reaches(g, a, b)),
        decreases n - v,
    {
        let row = reach_from(graph, v);
        let ghost r0 = reach@;
        reach.push(row);
        proof {
            assert forall|a: int, b: int| 0 <= a < v + 1 && 0 <= b < n implies (#[trigger] reach@[a]@[b] == 1 <==> reaches(g, a, b)) by {
                if a < v {
                    assert(reach@[a] == r0[a]);
                }
            }
        }
        v = v + 1;
    }
    let mut comp_of = filled_usize(n, usize::MAX);
    let mut comps: Vec<Vec<usize>> = Vec::new();
    let mut v: usize = 0;
    while v < n
        invariant
            g == graph.adj(),
            n == g.len(),
            v <= n,
            reach@.len() == n,
            forall|a: int| 0 <= a < n ==> (#[trigger] reach@[a])@.len() == n,
            forall|a: int, b: int| 0 <= a < n && 0 <= b < n ==> (#[trigger] reach@[a]@[b] == 1 <==> reaches(g, a, b)),
            comp_of@.len() == n,
            comps@.len() <= v,
            forall|u: int| 0 <= u < v ==> #[trigger] comp_of@[u] != usize::MAX,
            forall|u: int| 0 <= u < n && #[trigger] comp_of@[u] != usize::MAX ==> comp_of@[u] < comps@.len() && comps@[comp_of@[u] as int]@.contains(u as usize),
            forall|c: int, k: int|
                0 <= c < comps@.len() && 0 <= k < comps@[c]@.len() ==> #[trigger] comps@[c]@[k] < n
                    && comp_of@[comps@[c]@[k] as int] == c,
            forall|c: int| 0 <= c < comps@.len() ==> (#[trigger] comps@[c])@.len() > 0 && crate::sorting::strictly_sorted(comps@[c]@),
            forall|a: int, b: int|
                #![trigger comp_of@[a], comp_of@[b]]
                0 <= a < n && 0 <= b < n && comp_of@[a] != usize::MAX && comp_of@[a] == comp_of@[b] ==> mutually_reachable(g, a, b),
            forall|a: int, b: int|
                #![trigger comp_of@[a], mutually_reachable(g, a, b)]
                0 <= a < n && 0 <= b < n && comp_of@[a] != usize::MAX && mutually_reachable(g, a, b) ==> comp_of@[b] == comp_of@[a],
        decreases n - v,
    {
        if comp_of[v] == usize::MAX {
            let id = comps.len();
            let ghost cof0 = comp_of@;
            proof {
                assert forall|w: int| 0 <= w < n && cof0[w] != usize::MAX implies !mutually_reachable(g, v as int, w) by {
                    if mutually_reachable(g, v as int, w) {
                        assert(mutually_reachable(g, w, v as int));
                        assert(comp_of@[v as int] == comp_of@[w]);
                    }
                }
            }
            let mut block: Vec<usize> = Vec::new();
            let mut u: usize = 0;
            while u < n
                invariant
                    g == graph.adj(),
                    n == g.len(),
                    v < n,
                    u <= n,
                    id == comps@.len(),
                    id <= v,
                    reach@.len() == n,
                    forall|a: int| 0 <= a < n ==> (#[trigger] reach@[a])@.len() == n,
                    forall|a: int, b: int| 0 <= a < n && 0 <= b < n ==> (#[trigger] reach@[a]@[b] == 1 <==> reaches(g, a, b)),
                    comp_of@.len() == n,
                    cof0.len() == n,
                    cof0[v as int] == usize::MAX,
                    forall|w: int| 0 <= w < n && #[trigger] cof0[w] != usize::MAX ==> cof0[w] < id,
                    forall|w: int| 0 <= w < n && cof0[w] != usize::MAX ==> !mutually_reachable(g, v as int, w),
                    forall|w: int| u <= w < n ==> #[trigger] comp_of@[w] == cof0[w],
                    forall|w: int| 0 <= w < u ==> (#[trigger] comp_of@[w] == (if mutually_reachable(g, v as int, w) { id } else { cof0[w] })),
                    forall|k: int| 0 <= k < block@.len() ==> #[trigger] block@[k] < u && comp_of@[block@[k] as int] == id,
                    forall|w: int| 0 <= w < u && mutually_reachable(g, v as int, w) ==> #[trigger] block@.contains(w as usize),
                    crate::sorting::strictly_sorted(block@),
                decreases n - u,
            {
                if reach[v][u] == 1 && reach[u][v] == 1 {
                    let ghost b0 = block@;
                    block.push(u);
                    comp_of.set(u, id);
                    proof {
                        assert forall|k: int| 0 <= k < block@.len() implies #[trigger] block@[k] < u + 1 && comp_of@[block@[k] as int] == id by {
                            if k < b0.len() {
                                assert(block@[k] == b0[k]);
                            }
                        }
                        assert forall|w: int| 0 <= w < u + 1 && mutually_reachable(g, v as int, w) implies #[trigger] block@.contains(w as usize) by {
                            if w < u {
                                assert(b0.contains(w as usize));
                                let k = choose|k: int| 0 <= k < b0.len() && b0[k] == w as usize;
                                assert(block@[k] == w);
                            } else {
                                assert(block@[b0.len() as int] == u);
                            }
                        }
                    }
                }
                u = u + 1;
            }
            proof {
                lemma_reaches_refl(g, v);
                assert(mutually_reachable(g, v as int, v as int));
                assert(block@.contains(v as usize));
            }
            let ghost comps0 = comps@;
            comps.push(block);
            proof {
                assert forall|a: int, b: int|
                    #![trigger comp_of@[a], comp_of@[b]]
                    0 <= a < n && 0 <= b < n && comp_of@[a] != usize::MAX && comp_of@[a] == comp_of@[b] implies mutually_reachable(g, a, b) by {
                    if comp_of@[a] == id {
                        lemma_reaches_trans(g, a, v as int, b);
                        lemma_reaches_trans(g, b, v as int, a);
                    } else {
                        assert(cof0[a] == comp_of@[a] && cof0[b] == comp_of@[b]);
                    }
                }
                assert forall|a: int, b: int|
                    #![trigger comp_of@[a], mutually_reachable(g, a, b)]
                    0 <= a < n && 0 <= b < n && comp_of@[a] != usize::MAX && mutually_reachable(g, a, b) implies comp_of@[b] == comp_of@[a] by {
                    if comp_of@[a] == id {
                        lemma_reaches_trans(g, v as int, a, b);
                        lemma_reaches_trans(g, b, a, v as int);
                    } else {
                        assert(cof0[a] == comp_of@[a]);
                        if mutually_reachable(g, v as int, b) {
                            lemma_reaches_trans(g, v as int, b, a);
                            lemma_reaches_trans(g, a, b, v as int);
                        }
                        assert(comp_of@[b] == cof0[b]);
                    }
                }
                assert forall|u: int| 0 <= u < n && #[trigger] comp_of@[u] != usize::MAX implies comp_of@[u] < comps@.len() && comps@[comp_of@[u] as int]@.contains(u as usize) by {
                    if comp_of@[u] == id {
                        assert(comps@[id as int] == block);
                    } else {
                        assert(comps@[comp_of@[u] as int] == comps0[comp_of@[u] as int]);
                    }
                }
                assert forall|c: int, k: int|
                    0 <= c < comps@.len() && 0 <= k < comps@[c]@.len() implies #[trigger] comps@[c]@[k] < n
                        && comp_of@[comps@[c]@[k] as int] == c by {
                    if c < id {
                        assert(comps@[c] == comps0[c]);
                        let w = comps0[c]@[k] as int;
                        assert(cof0[w] == c);
                        if mutually_reachable(g, v as int, w) {
                            assert(!mutually_reachable(g, v as int, w));
                        }
                    }
                }
                assert forall|u: int| 0 <= u < v + 1 implies #[trigger] comp_of@[u] != usize::MAX by {
                    if u == v {
                    }
                }
            }
        }
        v = v + 1;
    }
    proof {
        let cv = comps@.map_values(|s: Vec<usize>| s@);
        assert forall|u: int, w: int|
            #![trigger comp_of@[u], comp_of@[w]]
            0 <= u < n && 0 <= w < n implies (comp_of@[u] == comp_of@[w] <==> mutually_reachable(g, u, w)) by {
            assert(comp_of@[u] != usize::MAX);
        }
        assert forall|c: int| 0 <= c < cv.len() implies #[trigger] cv[c] == comps@[c]@ by {}
    }
    (comps, comp_of)
}

} // verus!
