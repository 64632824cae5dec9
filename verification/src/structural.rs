//! Structural equation-system compiler passes: maximum bipartite matching of
//! equations to variables, the dependency graph that a matching induces, and
//! its strongly connected (block-triangular) decomposition.
use vstd::prelude::*;
use crate::system::{System, SystemEquation, Variable, VariableId};
use crate::scc::{Digraph, Sccs, tarjan_scc, is_partition, filled_usize};
use crate::sorting::{sort_dedup, strictly_sorted};
use crate::reach::blocks_are_mutual_reach;
use crate::alternating::{no_augmenting_path, alternating_search, augment_path, lemma_no_augmenting_path_is_maximum};

verus! {

/// A matching of equations to variables.
#[derive(Clone, Debug, PartialEq, Eq)]
pub struct StructuralMatching {
    /// For each equation index, the matched variable id when one exists.
    pub equation_to_variable: Vec<Option<VariableId>>,
    pub cardinality: usize,
}

/// Number of `Some` entries.
pub open spec fn count_some<T>(s: Seq<Option<T>>) -> nat
    decreases s.len(),
{
    if s.len() == 0 {
        0
    } else {
        count_some(s.drop_last()) + if s.last() is Some {
            1nat
        } else {
            0nat
        }
    }
}

pub(crate) proof fn lemma_count_some_bound<T>(s: Seq<Option<T>>)
    ensures
        count_some(s) <= s.len(),
    decreases s.len(),
{
    if s.len() > 0 {
        lemma_count_some_bound(s.drop_last());
    }
}

pub(crate) proof fn lemma_count_some_grow<T>(s: Seq<Option<T>>, t: Seq<Option<T>>, u: int)
    requires
        s.len() == t.len(),
        0 <= u < s.len(),
        s[u] is None,
        t[u] is Some,
        forall|x: int| 0 <= x < s.len() && x != u ==> (#[trigger] s[x] is Some <==> t[x] is Some),
    ensures
        count_some(t) == count_some(s) + 1,
    decreases s.len(),
{
    if u == s.len() - 1 {
        lemma_count_some_same(s.drop_last(), t.drop_last());
    } else {
        lemma_count_some_grow(s.drop_last(), t.drop_last(), u);
    }
}

pub(crate) proof fn lemma_count_some_same<T, U>(s: Seq<Option<T>>, t: Seq<Option<U>>)
    requires
        s.len() == t.len(),
        forall|x: int| 0 <= x < s.len() ==> (#[trigger] s[x] is Some <==> t[x] is Some),
    ensures
        count_some(t) == count_some(s),
    decreases s.len(),
{
    if s.len() > 0 {
        lemma_count_some_same(s.drop_last(), t.drop_last());
    }
}

impl StructuralMatching {
    /// Is the system square and every equation matched?
    pub fn is_square_and_perfect(&self, system: &System) -> (r: bool)
        ensures
            r == (system.equations.len() == system.variables.len() && self.cardinality
                == system.equations.len()),
    {
        system.equations.len() == system.variables.len() && self.cardinality == system.equations.len()
    }
}

/// The index of the last variable of `system` named `id`, or `-1`.
pub open spec fn last_variable_index(vars: Seq<Variable>, id: VariableId) -> int
    decreases vars.len(),
{
    if vars.len() == 0 {
        -1
    } else if vars.last().id == id {
        vars.len() - 1
    } else {
        last_variable_index(vars.drop_last(), id)
    }
}

pub(crate) proof fn lemma_last_variable_index(vars: Seq<Variable>, id: VariableId)
    ensures
        -1 <= last_variable_index(vars, id) < vars.len(),
        last_variable_index(vars, id) >= 0 ==> vars[last_variable_index(vars, id)].id == id,
        last_variable_index(vars, id) < 0 ==> forall|i: int| 0 <= i < vars.len() ==> vars[i].id != id,
    decreases vars.len(),
{
    if vars.len() > 0 && vars.last().id != id {
        lemma_last_variable_index(vars.drop_last(), id);
        assert forall|i: int| 0 <= i < vars.len() - 1 implies vars[i] == vars.drop_last()[i] by {}
    }
}

fn find_variable(variables: &Vec<Variable>, id: VariableId) -> (r: Option<usize>)
    ensures
        match r {
            Some(i) => i == last_variable_index(variables@, id),
            None => last_variable_index(variables@, id) < 0,
        },
{
    let mut i = variables.len();
    assert(variables@.subrange(0, i as int) =~= variables@);
    while i > 0
        invariant
            i <= variables@.len(),
            last_variable_index(variables@, id) == last_variable_index(variables@.subrange(0, i as int), id),
        decreases i,
    {
        proof {
            assert(variables@.subrange(0, i as int).drop_last() =~= variables@.subrange(0, i - 1));
        }
        if variables[i - 1].id.0 == id.0 {
            return Some(i - 1);
        }
        i = i - 1;
    }
    None
}

/// The bipartite incidence graph: for each equation, the sorted distinct
/// indices of the variables it mentions.
pub open spec fn incidence_row(system: System, u: int, i: usize) -> bool {
    exists|k: int|
        0 <= k < system.equations@[u].variables@.len() && last_variable_index(
            system.variables@,
            system.equations@[u].variables@[k],
        ) == i
}

fn build_adjacency(system: &System) -> (adj: Vec<Vec<usize>>)
    ensures
        adj@.len() == system.equations@.len(),
        forall|u: int, i: usize|
            0 <= u < adj@.len() ==> (#[trigger] adj@[u]@.contains(i) <==> incidence_row(*system, u, i)),
        forall|u: int, k: int|
            0 <= u < adj@.len() && 0 <= k < adj@[u]@.len() ==> #[trigger] adj@[u]@[k] < system.variables@.len(),
        forall|u: int| 0 <= u < adj@.len() ==> strictly_sorted(#[trigger] adj@[u]@),
{
    let mut adj: Vec<Vec<usize>> = Vec::new();
    let mut u: usize = 0;
    while u < system.equations.len()
        invariant
            u <= system.equations@.len(),
            adj@.len() == u,
            forall|w: int, i: usize|
                0 <= w < u ==> (#[trigger] adj@[w]@.contains(i) <==> incidence_row(*system, w, i)),
            forall|w: int, k: int|
                0 <= w < u && 0 <= k < adj@[w]@.len() ==> #[trigger] adj@[w]@[k] < system.variables@.len(),
            forall|w: int| 0 <= w < u ==> strictly_sorted(#[trigger] adj@[w]@),
        decreases system.equations@.len() - u,
    {
        let eq = &system.equations[u];
        let mut row: Vec<usize> = Vec::new();
        let mut k: usize = 0;
        while k < eq.variables.len()
            invariant
                *eq == system.equations@[u as int],
                k <= eq.variables@.len(),
                forall|i: usize|
                    #[trigger] row@.contains(i) <==> exists|j: int|
                        0 <= j < k && last_variable_index(system.variables@, eq.variables@[j]) == i,
            decreases eq.variables@.len() - k,
        {
            let found = find_variable(&system.variables, eq.variables[k]);
            let ghost before = row@;
            let ghost lk = last_variable_index(system.variables@, eq.variables@[k as int]);
            if let Some(i) = found {
                row.push(i);
            }
            proof {
                assert forall|x: usize| #[trigger] row@.contains(x) <==> exists|j: int|
                    0 <= j < k + 1 && last_variable_index(system.variables@, eq.variables@[j]) == x by {
                    if row@.contains(x) {
                        let q = choose|q: int| 0 <= q < row@.len() && row@[q] == x;
                        if q < before.len() {
                            assert(before[q] == x);
                            assert(before.contains(x));
                            let j = choose|j: int| 0 <= j < k && last_variable_index(system.variables@, eq.variables@[j]) == x;
                            assert(0 <= j < k + 1 && last_variable_index(system.variables@, eq.variables@[j]) == x);
                        } else {
                            assert(found == Some(x));
                            assert(lk == x);
                            assert(0 <= k < k + 1 && last_variable_index(system.variables@, eq.variables@[k as int]) == x);
                        }
                    }
                    if exists|j: int| 0 <= j < k + 1 && last_variable_index(system.variables@, eq.variables@[j]) == x {
                        let j = choose|j: int| 0 <= j < k + 1 && last_variable_index(system.variables@, eq.variables@[j]) == x;
                        if j < k {
                            assert(before.contains(x));
                            let q = choose|q: int| 0 <= q < before.len() && before[q] == x;
                            assert(row@[q] == x);
                        } else {
                            assert(j == k);
                            assert(lk == x);
                            assert(found == Some(x));
                            assert(row@[before.len() as int] == x);
                        }
                    }
                }
            }
            k = k + 1;
        }
        sort_dedup(&mut row);
        proof {
            assert forall|q: int| 0 <= q < row@.len() implies #[trigger] row@[q] < system.variables@.len() by {
                assert(row@.contains(row@[q]));
                let j = choose|j: int| 0 <= j < k && last_variable_index(system.variables@, eq.variables@[j]) == row@[q];
                lemma_last_variable_index(system.variables@, eq.variables@[j]);
            }
        }
        adj.push(row);
        u = u + 1;
    }
    adj
}


/// The adjacency lists, as sequences.
pub open spec fn adj_view(adj: Seq<Vec<usize>>) -> Seq<Seq<usize>> {
    adj.map_values(|r: Vec<usize>| r@)
}

/// `pl`/`pr` record a matching on the bipartite graph `adj` (left vertex `x`
/// matched to right vertex `pl[x]`), except that the right vertex `skip` may
/// still point at a left vertex that has moved on.
pub open spec fn matching_ok(
    adj: Seq<Seq<usize>>,
    pl: Seq<Option<usize>>,
    pr: Seq<Option<usize>>,
    skip: Option<usize>,
) -> bool {
    &&& forall|x: int|
        0 <= x < pl.len() && #[trigger] pl[x] is Some ==> pl[x]->0 < pr.len() && pr[pl[x]->0 as int] == Some(
            x as usize,
        ) && adj[x].contains(pl[x]->0)
    &&& forall|y: int|
        0 <= y < pr.len() && #[trigger] pr[y] is Some ==> pr[y]->0 < pl.len() && (skip != Some(y as usize)
            ==> pl[pr[y]->0 as int] == Some(y as usize))
}

/// Every finite BFS distance is below the number of finite entries.
pub open spec fn dist_ok(dist: Seq<usize>, left: int) -> bool {
    forall|x: int| 0 <= x < dist.len() && #[trigger] dist[x] != usize::MAX ==> dist[x] < left
}

/// Every edge of `adj` ends below `right`.
pub open spec fn graph_ok(adj: Seq<Seq<usize>>, right: int) -> bool {
    forall|u: int, k: int| 0 <= u < adj.len() && 0 <= k < adj[u].len() ==> #[trigger] adj[u][k] < right
}

fn augment(
    u: usize,
    adj: &Vec<Vec<usize>>,
    pl: &mut Vec<Option<usize>>,
    pr: &mut Vec<Option<usize>>,
    dist: &mut Vec<usize>,
) -> (r: bool)
    requires
        u < adj@.len(),
        old(pl)@.len() == adj@.len(),
        old(dist)@.len() == adj@.len(),
        graph_ok(adj_view(adj@), old(pr)@.len() as int),
        matching_ok(adj_view(adj@), old(pl)@, old(pr)@, None),
        dist_ok(old(dist)@, adj@.len() as int),
        old(dist)@[u as int] < adj@.len(),
    ensures
        final(pl)@.len() == old(pl)@.len(),
        final(pr)@.len() == old(pr)@.len(),
        final(dist)@.len() == old(dist)@.len(),
        dist_ok(final(dist)@, adj@.len() as int),
        forall|x: int|
            0 <= x < old(dist)@.len() && #[trigger] final(dist)@[x] != old(dist)@[x] ==> final(dist)@[x]
                == usize::MAX && old(dist)@[x] >= old(dist)@[u as int] && (x == u || old(pl)@[x] is Some),
        !r ==> final(pl)@ == old(pl)@ && final(pr)@ == old(pr)@,
        r ==> final(pl)@[u as int] is Some && final(pl)@[u as int] != old(pl)@[u as int],
        r ==> matching_ok(adj_view(adj@), final(pl)@, final(pr)@, old(pl)@[u as int]),
        r && old(pl)@[u as int] is Some ==> final(pr)@[old(pl)@[u as int]->0 as int] == Some(u),
        forall|x: int|
            0 <= x < old(pl)@.len() && x != u ==> (#[trigger] final(pl)@[x] is Some <==> old(pl)@[x] is Some),
        forall|x: int|
            0 <= x < old(pl)@.len() && #[trigger] final(pl)@[x] != old(pl)@[x] ==> old(dist)@[x]
                >= old(dist)@[u as int],
        forall|y: int|
            0 <= y < old(pr)@.len() && #[trigger] final(pr)@[y] != old(pr)@[y] ==> (old(pr)@[y] is None || (
            old(pr)@[y]->0 < old(dist)@.len() && old(dist)@[old(pr)@[y]->0 as int] > old(dist)@[u as int])),
        (exists|k: int| 0 <= k < adj@[u as int]@.len() && #[trigger] old(pr)@[adj@[u as int]@[k] as int] is None) ==> r,
    decreases adj@.len() - old(dist)@[u as int],
{
    let ghost d0 = dist@;
    let ghost pl0 = pl@;
    let ghost pr0 = pr@;
    let ghost av = adj_view(adj@);
    let row = &adj[u];
    assert(row@ == av[u as int]);
    let mut k: usize = 0;
    while k < row.len()
        invariant
            row@ == av[u as int],
            av == adj_view(adj@),
            pl0 == old(pl)@,
            pr0 == old(pr)@,
            d0 == old(dist)@,
            u < adj@.len(),
            pl@ == pl0,
            pr@ == pr0,
            dist@.len() == d0.len(),
            d0.len() == adj@.len(),
            pl0.len() == adj@.len(),
            graph_ok(av, pr0.len() as int),
            matching_ok(av, pl0, pr0, None),
            dist_ok(dist@, adj@.len() as int),
            dist@[u as int] == d0[u as int],
            d0[u as int] < adj@.len(),
            forall|x: int|
                0 <= x < d0.len() && #[trigger] dist@[x] != d0[x] ==> dist@[x] == usize::MAX && d0[x]
                    > d0[u as int] && pl0[x] is Some,
            k <= row@.len(),
            forall|j: int| 0 <= j < k ==> #[trigger] pr0[row@[j] as int] is Some,
        decreases row@.len() - k,
    {
        let v = row[k];
        assert(av[u as int][k as int] == v);
        assert(v < pr.len());
        let du = dist[u];
        let nadj = adj.len();
        assert(du < nadj);
        match pr[v] {
            None => {
                pl.set(u, Some(v));
                pr.set(v, Some(u));
                proof {
                    let pl2 = pl@;
                    let pr2 = pr@;
                    assert forall|x: int| 0 <= x < pl2.len() && #[trigger] pl2[x] is Some implies pl2[x]->0 < pr2.len()
                        && pr2[pl2[x]->0 as int] == Some(x as usize) && av[x].contains(pl2[x]->0) by {
                        if x != u {
                            assert(pr0[pl0[x]->0 as int] == Some(x as usize));
                        }
                    }
                    if pl0[u as int] is Some {
                        assert(pr0[pl0[u as int]->0 as int] == Some(u));
                    }
                }
                return true;
            },
            Some(next_u) => {
                if dist[next_u] != usize::MAX && dist[next_u] == du + 1 {
                    let ghost dn = dist@;
                    assert(pl0[next_u as int] == Some(v));
                    assert(next_u != u);
                    if augment(next_u, adj, pl, pr, dist) {
                        let ghost pl1 = pl@;
                        let ghost pr1 = pr@;
                        pl.set(u, Some(v));
                        pr.set(v, Some(u));
                        proof {
                            assert(pl1[u as int] == pl0[u as int]) by {
                                if pl1[u as int] != pl0[u as int] {
                                    assert(dn[u as int] >= dn[next_u as int]);
                                }
                            }
                            let pl2 = pl@;
                            let pr2 = pr@;
                            assert forall|x: int| 0 <= x < pl2.len() && #[trigger] pl2[x] is Some implies pl2[x]->0 < pr2.len()
                                && pr2[pl2[x]->0 as int] == Some(x as usize) && av[x].contains(pl2[x]->0) by {
                                if x != u {
                                    let y = pl1[x]->0;
                                    assert(pr1[y as int] == Some(x as usize));
                                    if y == v {
                                        assert(x == next_u);
                                    }
                                }
                            }
                            assert forall|y: int| 0 <= y < pr2.len() && #[trigger] pr2[y] is Some implies pr2[y]->0 < pl2.len()
                                && (pl0[u as int] != Some(y as usize) ==> pl2[pr2[y]->0 as int] == Some(y as usize)) by {
                                if y != v {
                                    let x = pr1[y]->0;
                                    if pl0[u as int] != Some(y as usize) {
                                        assert(pl1[x as int] == Some(y as usize));
                                    }
                                }
                            }
                            if pl0[u as int] is Some {
                                let q = pl0[u as int]->0;
                                assert(pr0[q as int] == Some(u));
                                assert(q != v);
                                if pr1[q as int] != pr0[q as int] {
                                    assert(dn[u as int] > dn[next_u as int]);
                                }
                            }
                            assert forall|y: int| 0 <= y < pr0.len() && #[trigger] pr2[y] != pr0[y] implies (pr0[y] is None || (
                                pr0[y]->0 < d0.len() && d0[pr0[y]->0 as int] > d0[u as int])) by {
                                if y != v {
                                    let w = pr0[y]->0;
                                    if pr0[y] is Some {
                                        assert(dn[w as int] > dn[next_u as int]);
                                    }
                                }
                            }
                            assert forall|x: int| 0 <= x < d0.len() && #[trigger] dist@[x] != d0[x] implies dist@[x]
                                == usize::MAX && d0[x] >= d0[u as int] && (x == u || pl0[x] is Some) by {
                                if dist@[x] != dn[x] {
                                }
                            }
                            assert forall|x: int| 0 <= x < pl0.len() && #[trigger] pl2[x] != pl0[x] implies d0[x] >= d0[u as int] by {
                                if x != u {
                                    assert(pl1[x] != pl0[x]);
                                }
                            }
                        }
                        return true;
                    }
                }
            },
        }
        k = k + 1;
    }
    proof {
        assert(adj@[u as int]@ == row@);
        assert forall|k: int| 0 <= k < adj@[u as int]@.len() implies !(#[trigger] old(pr)@[adj@[u as int]@[k] as int] is None) by {
            assert(pr0[row@[k] as int] is Some);
        }
    }
    dist.set(u, usize::MAX);
    false
}


/// Number of entries different from `usize::MAX`.
pub open spec fn count_finite(s: Seq<usize>) -> nat
    decreases s.len(),
{
    if s.len() == 0 {
        0
    } else {
        count_finite(s.drop_last()) + if s.last() != usize::MAX {
            1nat
        } else {
            0nat
        }
    }
}

proof fn lemma_count_finite_update(s: Seq<usize>, i: int, x: usize)
    requires
        0 <= i < s.len(),
        s[i] == usize::MAX,
        x != usize::MAX,
    ensures
        count_finite(s.update(i, x)) == count_finite(s) + 1,
    decreases s.len(),
{
    if i == s.len() - 1 {
        assert(s.update(i, x).drop_last() =~= s.drop_last());
    } else {
        lemma_count_finite_update(s.drop_last(), i, x);
        assert(s.update(i, x).drop_last() =~= s.drop_last().update(i, x));
    }
}

proof fn lemma_count_finite_bound(s: Seq<usize>, i: int)
    requires
        0 <= i < s.len(),
        s[i] == usize::MAX,
    ensures
        count_finite(s) < s.len(),
    decreases s.len(),
{
    if i < s.len() - 1 {
        lemma_count_finite_bound(s.drop_last(), i);
    } else {
        lemma_count_finite_le(s.drop_last());
    }
}

proof fn lemma_count_finite_le(s: Seq<usize>)
    ensures
        count_finite(s) <= s.len(),
    decreases s.len(),
{
    if s.len() > 0 {
        lemma_count_finite_le(s.drop_last());
    }
}

/// Breadth-first layering from the free equations along alternating paths.
fn bfs_layers(adj: &Vec<Vec<usize>>, pl: &Vec<Option<usize>>, pr: &Vec<Option<usize>>, dist: &mut Vec<usize>)
    requires
        old(dist)@.len() == adj@.len(),
        pl@.len() == adj@.len(),
        graph_ok(adj_view(adj@), pr@.len() as int),
        matching_ok(adj_view(adj@), pl@, pr@, None),
    ensures
        final(dist)@.len() == adj@.len(),
        dist_ok(final(dist)@, adj@.len() as int),
        forall|u: int| 0 <= u < adj@.len() && #[trigger] pl@[u] is None ==> final(dist)@[u] == 0,
{
    let left = adj.len();
    let mut queue: Vec<usize> = Vec::new();
    let mut u: usize = 0;
    while u < left
        invariant
            left == adj@.len(),
            u <= left,
            dist@.len() == left,
            pl@.len() == left,
            forall|x: int| 0 <= x < u ==> (#[trigger] dist@[x] == 0 <==> pl@[x] is None),
            forall|x: int| 0 <= x < u ==> (#[trigger] dist@[x] == usize::MAX <==> pl@[x] is Some),
            forall|x: int| 0 <= x < u && pl@[x] is None ==> #[trigger] count_finite(dist@.subrange(0, u as int)) > 0,
            forall|q: int| 0 <= q < queue@.len() ==> #[trigger] queue@[q] < u && dist@[queue@[q] as int] != usize::MAX,
            count_finite(dist@.subrange(0, u as int)) <= u,
        decreases left - u,
    {
        let ghost before = dist@;
        if pl[u].is_none() {
            dist.set(u, 0);
            queue.push(u);
        } else {
            dist.set(u, usize::MAX);
        }
        proof {
            assert(dist@.subrange(0, u + 1).drop_last() =~= before.subrange(0, u as int));
            assert(dist@.subrange(0, u as int) =~= before.subrange(0, u as int));
        }
        u = u + 1;
    }
    proof {
        assert(dist@.subrange(0, left as int) =~= dist@);
        assert forall|x: int| 0 <= x < left && #[trigger] dist@[x] != usize::MAX implies dist@[x] < count_finite(dist@) by {
            assert(pl@[x] is None);
        }
    }
    let mut head: usize = 0;
    while head < queue.len()
        invariant
            left == adj@.len(),
            dist@.len() == left,
            pl@.len() == left,
            graph_ok(adj_view(adj@), pr@.len() as int),
            matching_ok(adj_view(adj@), pl@, pr@, None),
            head <= queue@.len(),
            forall|q: int| 0 <= q < queue@.len() ==> #[trigger] queue@[q] < left && dist@[queue@[q] as int] != usize::MAX,
            forall|x: int| 0 <= x < left && #[trigger] dist@[x] != usize::MAX ==> dist@[x] < count_finite(dist@),
            forall|x: int| 0 <= x < left && #[trigger] pl@[x] is None ==> dist@[x] == 0,
        decreases left - count_finite(dist@), queue@.len() - head,
    {
        let x = queue[head];
        head = head + 1;
        proof {
            lemma_count_finite_le(dist@);
        }
        let next = dist[x] + 1;
        let ghost c0 = count_finite(dist@);
        let ghost q0 = queue@.len();
        let row = &adj[x];
        let ghost av = adj_view(adj@);
        assert(row@ == av[x as int]);
        let mut k: usize = 0;
        while k < row.len()
            invariant
                row@ == av[x as int],
                av == adj_view(adj@),
                left == adj@.len(),
                x < left,
                dist@.len() == left,
                pl@.len() == left,
                graph_ok(av, pr@.len() as int),
                matching_ok(av, pl@, pr@, None),
                head <= queue@.len(),
                dist@[x as int] != usize::MAX,
                next == dist@[x as int] + 1,
                forall|q: int| 0 <= q < queue@.len() ==> #[trigger] queue@[q] < left && dist@[queue@[q] as int] != usize::MAX,
                forall|y: int| 0 <= y < left && #[trigger] dist@[y] != usize::MAX ==> dist@[y] < count_finite(dist@),
                forall|y: int| 0 <= y < left && #[trigger] pl@[y] is None ==> dist@[y] == 0,
                count_finite(dist@) >= c0,
                queue@.len() - q0 == count_finite(dist@) - c0,
            decreases row@.len() - k,
        {
            let v = row[k];
            assert(av[x as int][k as int] == v);
            if let Some(w) = pr[v] {
                if dist[w] == usize::MAX {
                    proof {
                        lemma_count_finite_bound(dist@, w as int);
                        assert(next < left);
                        lemma_count_finite_update(dist@, w as int, next);
                    }
                    dist.set(w, next);
                    queue.push(w);
                }
            }
            k = k + 1;
        }
        proof {
            lemma_count_finite_le(dist@);
        }
    }
    proof {
        lemma_count_finite_le(dist@);
        assert forall|x: int| 0 <= x < dist@.len() && #[trigger] dist@[x] != usize::MAX implies dist@[x] < left by {
            assert(dist@[x] < count_finite(dist@));
        }
    }
}


/// `m` is a valid matching of `system`: every matched equation mentions its
/// variable, which exists in the system, distinct equations are matched to
/// distinct variable slots, and the cardinality counts the matched equations.
pub open spec fn valid_matching(system: System, m: StructuralMatching) -> bool {
    &&& m.equation_to_variable@.len() == system.equations@.len()
    &&& m.cardinality == count_some(m.equation_to_variable@)
    &&& forall|u: int|
        0 <= u < m.equation_to_variable@.len() && #[trigger] m.equation_to_variable@[u] is Some ==> {
            let id = m.equation_to_variable@[u]->0;
            &&& system.equations@[u].variables@.contains(id)
            &&& exists|i: int| 0 <= i < system.variables@.len() && system.variables@[i].id == id
        }
    &&& (forall|i: int, j: int|
        0 <= i < j < system.variables@.len() ==> system.variables@[i].id != system.variables@[j].id)
        ==> forall|u1: int, u2: int|
        0 <= u1 < u2 < m.equation_to_variable@.len() && #[trigger] m.equation_to_variable@[u1] is Some
            && #[trigger] m.equation_to_variable@[u2] is Some ==> m.equation_to_variable@[u1]
            != m.equation_to_variable@[u2]
}

/// No unmatched equation of `m` mentions a variable of the system that `m`
/// leaves unmatched: no single edge can be added to the matching.
pub open spec fn maximal_matching(system: System, m: StructuralMatching) -> bool {
    forall|u: int, id: VariableId|
        0 <= u < m.equation_to_variable@.len() && #[trigger] m.equation_to_variable@[u] is None
            && #[trigger] system.equations@[u].variables@.contains(id) && (exists|i: int|
            0 <= i < system.variables@.len() && system.variables@[i].id == id) ==> exists|w: int|
            0 <= w < m.equation_to_variable@.len() && #[trigger] m.equation_to_variable@[w] == Some(id)
}

/// Deterministic Hopcroft-Karp maximum bipartite matching over
/// equation-variable incidence.
pub fn maximum_matching(system: &System) -> (r: StructuralMatching)
    ensures
        valid_matching(*system, r),
        maximal_matching(*system, r),
        (forall|i: int, j: int|
            0 <= i < j < system.variables@.len() ==> system.variables@[i].id != system.variables@[j].id) ==> forall|m: StructuralMatching|
            #[trigger] valid_matching(*system, m) ==> m.cardinality <= r.cardinality,
{
    let adj = build_adjacency(system);
    let ghost av = adj_view(adj@);
    let left = adj.len();
    let right = system.variables.len();
    let mut pair_left: Vec<Option<usize>> = Vec::new();
    while pair_left.len() < left
        invariant
            pair_left@.len() <= left,
            forall|x: int| 0 <= x < pair_left@.len() ==> #[trigger] pair_left@[x] is None,
        decreases left - pair_left@.len(),
    {
        pair_left.push(None);
    }
    let mut pair_right: Vec<Option<usize>> = Vec::new();
    while pair_right.len() < right
        invariant
            pair_right@.len() <= right,
            forall|x: int| 0 <= x < pair_right@.len() ==> #[trigger] pair_right@[x] is None,
        decreases right - pair_right@.len(),
    {
        pair_right.push(None);
    }
    let mut distance: Vec<usize> = filled_usize(left, usize::MAX);
    let mut cardinality: usize = 0;
    proof {
        lemma_count_some_zero(pair_left@);
        assert(graph_ok(av, right as int)) by {
            assert forall|u: int, k: int| 0 <= u < av.len() && 0 <= k < av[u].len() implies #[trigger] av[u][k] < right by {
                assert(av[u] == adj@[u]@);
            }
        }
    }
    loop
        invariant
            left == adj@.len(),
            av == adj_view(adj@),
            pair_left@.len() == left,
            pair_right@.len() == right,
            distance@.len() == left,
            graph_ok(av, right as int),
            matching_ok(av, pair_left@, pair_right@, None),
            cardinality == count_some(pair_left@),
        ensures
            forall|x: int, k: int|
                0 <= x < left && pair_left@[x] is None && 0 <= k < adj@[x]@.len() ==> #[trigger] pair_right@[adj@[x]@[k] as int] is Some,
        decreases left - cardinality,
    {
        bfs_layers(&adj, &pair_left, &pair_right, &mut distance);
        let mut augmented: usize = 0;
        let mut u: usize = 0;
        while u < left
            invariant
                left == adj@.len(),
                av == adj_view(adj@),
                u <= left,
                pair_left@.len() == left,
                pair_right@.len() == right,
                distance@.len() == left,
                graph_ok(av, right as int),
                matching_ok(av, pair_left@, pair_right@, None),
                dist_ok(distance@, left as int),
                forall|x: int| u <= x < left && #[trigger] pair_left@[x] is None ==> distance@[x] == 0,
                cardinality + augmented == count_some(pair_left@),
                augmented == 0 ==> forall|x: int, k: int|
                    0 <= x < u && pair_left@[x] is None && 0 <= k < adj@[x]@.len() ==> #[trigger] pair_right@[adj@[x]@[k] as int] is Some,
            decreases left - u,
        {
            if pair_left[u].is_none() {
                let ghost pl0 = pair_left@;
                let ghost pr_before = pair_right@;
                let ghost d0 = distance@;
                if augment(u, &adj, &mut pair_left, &mut pair_right, &mut distance) {
                    proof {
                        lemma_count_some_grow(pl0, pair_left@, u as int);
                        lemma_count_some_bound(pair_left@);
                        assert(matching_ok(av, pair_left@, pair_right@, None));
                    }
                    augmented = augmented + 1;
                } else {
                    proof {
                        assert forall|k: int| 0 <= k < adj@[u as int]@.len() implies #[trigger] pair_right@[adj@[u as int]@[k] as int] is Some by {
                            if pair_right@[adj@[u as int]@[k] as int] is None {
                                assert(exists|k2: int| 0 <= k2 < adj@[u as int]@.len() && #[trigger] pr_before[adj@[u as int]@[k2] as int] is None);
                            }
                        }
                    }
                }
                proof {
                    assert forall|x: int| u + 1 <= x < left && #[trigger] pair_left@[x] is None implies distance@[x] == 0 by {
                        assert(pl0[x] is None);
                        if distance@[x] != d0[x] {
                        }
                    }
                }
            }
            u = u + 1;
        }
        if augmented == 0 {
            break;
        }
        proof {
            lemma_count_some_bound(pair_left@);
        }
        cardinality = cardinality + augmented;
    }
    // The phases above leave no augmenting path; the alternating search
    // certifies it (and would augment along a path it found).
    let ghost mut zl_c: Seq<usize> = Seq::empty();
    let ghost mut zr_c: Seq<bool> = Seq::empty();
    loop
        invariant
            left == adj@.len(),
            av == adj_view(adj@),
            pair_left@.len() == left,
            pair_right@.len() == right,
            graph_ok(av, right as int),
            matching_ok(av, pair_left@, pair_right@, None),
            cardinality == count_some(pair_left@),
        ensures
            no_augmenting_path(av, pair_left@, pair_right@, zl_c, zr_c),
        decreases left - cardinality,
    {
        let (zl, zr, par, dl) = alternating_search(&adj, &pair_left, &pair_right);
        let mut y: usize = 0;
        while y < right && !(zr[y] && pair_right[y].is_none())
            invariant
                y <= right,
                zr@.len() == right,
                pair_right@.len() == right,
                forall|z: int| 0 <= z < y ==> !(#[trigger] zr@[z] && pair_right@[z] is None),
            decreases right - y,
        {
            y = y + 1;
        }
        if y == right {
            proof {
                zl_c = zl@;
                zr_c = zr@;
            }
            break;
        }
        augment_path(&adj, &mut pair_left, &mut pair_right, y, &zl, &zr, &par, &dl);
        proof {
            lemma_count_some_bound(pair_left@);
        }
        cardinality = cardinality + 1;
    }
    proof {
        assert forall|x: int, k: int|
            0 <= x < left && pair_left@[x] is None && 0 <= k < adj@[x]@.len() implies #[trigger] pair_right@[adj@[x]@[k] as int] is Some by {
            assert(av[x] == adj@[x]@);
            assert(zl_c[x] == 1);
            assert(zr_c[av[x][k] as int]);
        }
    }
    let mut equation_to_variable: Vec<Option<VariableId>> = Vec::new();
    let mut u: usize = 0;
    while u < left
        invariant
            left == adj@.len(),
            left == system.equations@.len(),
            av == adj_view(adj@),
            u <= left,
            pair_left@.len() == left,
            pair_right@.len() == right,
            right == system.variables@.len(),
            matching_ok(av, pair_left@, pair_right@, None),
            forall|w: int, i: usize|
                0 <= w < adj@.len() ==> (#[trigger] adj@[w]@.contains(i) <==> incidence_row(*system, w, i)),
            equation_to_variable@.len() == u,
            forall|w: int| 0 <= w < u ==> (#[trigger] equation_to_variable@[w] is Some <==> pair_left@[w] is Some),
            forall|w: int|
                0 <= w < u && #[trigger] equation_to_variable@[w] is Some ==> equation_to_variable@[w]->0
                    == system.variables@[pair_left@[w]->0 as int].id,
        decreases left - u,
    {
        match pair_left[u] {
            Some(i) => {
                equation_to_variable.push(Some(system.variables[i].id));
            },
            None => {
                equation_to_variable.push(None);
            },
        }
        u = u + 1;
    }
    let r = StructuralMatching { equation_to_variable, cardinality };
    proof {
        lemma_count_some_same(pair_left@, equation_to_variable@);
        assert forall|w: int| 0 <= w < left && #[trigger] equation_to_variable@[w] is Some implies {
            let id = equation_to_variable@[w]->0;
            &&& system.equations@[w].variables@.contains(id)
            &&& exists|i: int| 0 <= i < system.variables@.len() && system.variables@[i].id == id
        } by {
            let i = pair_left@[w]->0;
            assert(av[w].contains(i));
            assert(adj@[w]@.contains(i));
            assert(incidence_row(*system, w, i));
            let k = choose|k: int|
                0 <= k < system.equations@[w].variables@.len() && last_variable_index(
                    system.variables@,
                    system.equations@[w].variables@[k],
                ) == i;
            lemma_last_variable_index(system.variables@, system.equations@[w].variables@[k]);
        }
        if forall|i: int, j: int|
            0 <= i < j < system.variables@.len() ==> system.variables@[i].id != system.variables@[j].id {
            assert forall|u1: int, u2: int|
                0 <= u1 < u2 < equation_to_variable@.len() && #[trigger] equation_to_variable@[u1] is Some
                    && #[trigger] equation_to_variable@[u2] is Some implies equation_to_variable@[u1]
                    != equation_to_variable@[u2] by {
                let i1 = pair_left@[u1]->0;
                let i2 = pair_left@[u2]->0;
                assert(pair_right@[i1 as int] == Some(u1 as usize));
                assert(pair_right@[i2 as int] == Some(u2 as usize));
            }
        }
        if forall|i: int, j: int|
            0 <= i < j < system.variables@.len() ==> system.variables@[i].id != system.variables@[j].id {
            assert forall|m: StructuralMatching| #[trigger] valid_matching(*system, m) implies m.cardinality <= r.cardinality by {
                lemma_no_augmenting_path_is_maximum(*system, adj@, pair_left@, pair_right@, zl_c, zr_c, m);
            }
        }
        assert forall|u: int, id: VariableId|
            0 <= u < equation_to_variable@.len() && #[trigger] equation_to_variable@[u] is None
                && #[trigger] system.equations@[u].variables@.contains(id) && (exists|i: int|
                0 <= i < system.variables@.len() && system.variables@[i].id == id) implies exists|w: int|
            0 <= w < equation_to_variable@.len() && #[trigger] equation_to_variable@[w] == Some(id) by {
            lemma_last_variable_index(system.variables@, id);
            let li = last_variable_index(system.variables@, id);
            let k = choose|k: int| 0 <= k < system.equations@[u].variables@.len() && system.equations@[u].variables@[k] == id;
            assert(incidence_row(*system, u, li as usize));
            assert(adj@[u]@.contains(li as usize));
            let k2 = choose|k2: int| 0 <= k2 < adj@[u]@.len() && adj@[u]@[k2] == li as usize;
            assert(pair_left@[u] is None);
            assert(pair_right@[adj@[u]@[k2] as int] is Some);
            let x = pair_right@[li]->0;
            assert(pair_left@[x as int] == Some(li as usize));
            assert(equation_to_variable@[x as int] == Some(id));
        }
    }
    r
}

proof fn lemma_count_some_zero<T>(s: Seq<Option<T>>)
    requires
        forall|x: int| 0 <= x < s.len() ==> #[trigger] s[x] is None,
    ensures
        count_some(s) == 0,
    decreases s.len(),
{
    if s.len() > 0 {
        lemma_count_some_zero(s.drop_last());
    }
}


/// The equation that solves variable `id` in `etv`: the last equation matched
/// to it, or `-1`.
pub open spec fn last_owner(etv: Seq<Option<VariableId>>, id: VariableId) -> int
    decreases etv.len(),
{
    if etv.len() == 0 {
        -1
    } else if etv.last() == Some(id) {
        etv.len() - 1
    } else {
        last_owner(etv.drop_last(), id)
    }
}

proof fn lemma_last_owner(etv: Seq<Option<VariableId>>, id: VariableId)
    ensures
        -1 <= last_owner(etv, id) < etv.len(),
        last_owner(etv, id) >= 0 ==> etv[last_owner(etv, id)] == Some(id),
    decreases etv.len(),
{
    if etv.len() > 0 && etv.last() != Some(id) {
        lemma_last_owner(etv.drop_last(), id);
    }
}

fn find_owner(etv: &Vec<Option<VariableId>>, id: VariableId) -> (r: Option<usize>)
    ensures
        match r {
            Some(o) => o == last_owner(etv@, id),
            None => last_owner(etv@, id) < 0,
        },
{
    let mut i = etv.len();
    assert(etv@.subrange(0, i as int) =~= etv@);
    while i > 0
        invariant
            i <= etv@.len(),
            last_owner(etv@, id) == last_owner(etv@.subrange(0, i as int), id),
        decreases i,
    {
        proof {
            assert(etv@.subrange(0, i as int).drop_last() =~= etv@.subrange(0, i - 1));
        }
        match etv[i - 1] {
            Some(v) => {
                if v.0 == id.0 {
                    return Some(i - 1);
                }
            },
            None => {},
        }
        i = i - 1;
    }
    None
}

/// Equation `e` depends on equation `o` in the graph induced by `etv`: `o` is
/// another equation that solves a variable `e` mentions.
pub open spec fn depends_on(system: System, etv: Seq<Option<VariableId>>, e: int, o: usize) -> bool {
    o != e && exists|k: int|
        0 <= k < system.equations@[e].variables@.len() && last_owner(etv, system.equations@[e].variables@[k]) == o
}

/// Dependency graph induced by a matching: equation A points to equation B
/// when A uses the variable solved by B.
pub fn equation_dependency_graph(system: &System, matching: &StructuralMatching) -> (r: Vec<Vec<usize>>)
    ensures
        r@.len() == system.equations@.len(),
        forall|e: int| 0 <= e < r@.len() ==> strictly_sorted(#[trigger] r@[e]@),
        forall|e: int, k: int|
            0 <= e < r@.len() && 0 <= k < r@[e]@.len() ==> #[trigger] r@[e]@[k]
                < matching.equation_to_variable@.len(),
        forall|e: int, o: usize|
            0 <= e < r@.len() ==> (#[trigger] r@[e]@.contains(o) <==> depends_on(
                *system,
                matching.equation_to_variable@,
                e,
                o,
            )),
{
    let etv = &matching.equation_to_variable;
    let mut out: Vec<Vec<usize>> = Vec::new();
    let mut e: usize = 0;
    while e < system.equations.len()
        invariant
            e <= system.equations@.len(),
            out@.len() == e,
            forall|w: int| 0 <= w < e ==> strictly_sorted(#[trigger] out@[w]@),
            forall|w: int, k: int| 0 <= w < e && 0 <= k < out@[w]@.len() ==> #[trigger] out@[w]@[k] < etv@.len(),
            forall|w: int, o: usize|
                0 <= w < e ==> (#[trigger] out@[w]@.contains(o) <==> depends_on(*system, etv@, w, o)),
        decreases system.equations@.len() - e,
    {
        let eq = &system.equations[e];
        let mut deps: Vec<usize> = Vec::new();
        let mut k: usize = 0;
        while k < eq.variables.len()
            invariant
                *eq == system.equations@[e as int],
                k <= eq.variables@.len(),
                forall|o: usize|
                    #[trigger] deps@.contains(o) <==> (o != e && exists|j: int|
                        0 <= j < k && last_owner(etv@, eq.variables@[j]) == o),
            decreases eq.variables@.len() - k,
        {
            let found = find_owner(etv, eq.variables[k]);
            let ghost before = deps@;
            let ghost lk = last_owner(etv@, eq.variables@[k as int]);
            match found {
                Some(o) => {
                    if o != e {
                        deps.push(o);
                    }
                },
                None => {},
            }
            proof {
                assert forall|o: usize| #[trigger] deps@.contains(o) <==> (o != e && exists|j: int|
                    0 <= j < k + 1 && last_owner(etv@, eq.variables@[j]) == o) by {
                    if deps@.contains(o) {
                        let q = choose|q: int| 0 <= q < deps@.len() && deps@[q] == o;
                        if q < before.len() {
                            assert(before[q] == o);
                            assert(before.contains(o));
                            let j = choose|j: int| 0 <= j < k && last_owner(etv@, eq.variables@[j]) == o;
                            assert(0 <= j < k + 1 && last_owner(etv@, eq.variables@[j]) == o);
                        } else {
                            assert(lk == o);
                            assert(0 <= k < k + 1 && last_owner(etv@, eq.variables@[k as int]) == o);
                        }
                    }
                    if o != e && exists|j: int| 0 <= j < k + 1 && last_owner(etv@, eq.variables@[j]) == o {
                        let j = choose|j: int| 0 <= j < k + 1 && last_owner(etv@, eq.variables@[j]) == o;
                        if j < k {
                            assert(before.contains(o));
                            let q = choose|q: int| 0 <= q < before.len() && before[q] == o;
                            assert(deps@[q] == o);
                        } else {
                            assert(lk == o);
                            assert(deps@[before.len() as int] == o);
                        }
                    }
                }
            }
            k = k + 1;
        }
        sort_dedup(&mut deps);
        proof {
            assert forall|q: int| 0 <= q < deps@.len() implies #[trigger] deps@[q] < etv@.len() by {
                assert(deps@.contains(deps@[q]));
                let j = choose|j: int| 0 <= j < k && last_owner(etv@, eq.variables@[j]) == deps@[q];
                lemma_last_owner(etv@, eq.variables@[j]);
            }
        }
        out.push(deps);
        e = e + 1;
    }
    out
}

/// The components of `blocks` partition `0..n`, ordered by their least element.
pub open spec fn ordered_partition(blocks: Seq<Seq<usize>>, n: int) -> bool {
    &&& exists|component_of: Seq<usize>| is_partition(blocks, component_of, n)
    &&& forall|i: int, j: int| 0 <= i < j < blocks.len() ==> #[trigger] blocks[i][0] < #[trigger] blocks[j][0]
}

/// `blocks` partition the nodes of `g`, and two nodes share a block exactly
/// when each reaches the other.
pub open spec fn grouped_by_mutual_reach(blocks: Seq<Seq<usize>>, g: Seq<Seq<usize>>) -> bool {
    exists|component_of: Seq<usize>|
        is_partition(blocks, component_of, g.len() as int) && #[trigger] blocks_are_mutual_reach(g, component_of)
}

/// Deterministic Tarjan SCC decomposition. Components and members are sorted
/// so persistent compiler artifacts do not depend on traversal order.
pub fn strongly_connected_components(graph: &[Vec<usize>]) -> (r: Vec<Vec<usize>>)
    requires
        forall|u: int, k: int|
            0 <= u < graph@.len() && 0 <= k < graph@[u]@.len() ==> #[trigger] graph@[u]@[k] < graph@.len(),
    ensures
        ordered_partition(r@.map_values(|s: Vec<usize>| s@), graph@.len() as int),
        grouped_by_mutual_reach(r@.map_values(|s: Vec<usize>| s@), graph@.map_values(|s: Vec<usize>| s@)),
{
    let n = graph.len();
    let mut lists: Vec<Vec<usize>> = Vec::new();
    let mut i: usize = 0;
    while i < n
        invariant
            n == graph@.len(),
            i <= n,
            lists@.len() == i,
            forall|u: int| 0 <= u < i ==> #[trigger] lists@[u]@ == graph@[u]@,
        decreases n - i,
    {
        let row = graph[i].clone();
        proof {
            assert(row@ =~= graph@[i as int]@);
        }
        lists.push(row);
        i = i + 1;
    }
    let dg = Digraph::from_adjacency(lists);
    let sccs = tarjan_scc(&dg);
    let comps = sccs.components();
    let ghost cv = sccs.components_view();
    let ghost cof = sccs.component_of_view();
    assert(is_partition(cv, cof, n as int));
    assert(comps@.len() == cv.len());
    let mut slot: Vec<Option<usize>> = Vec::new();
    while slot.len() < n
        invariant
            slot@.len() <= n,
            forall|x: int| 0 <= x < slot@.len() ==> #[trigger] slot@[x] is None,
        decreases n - slot@.len(),
    {
        slot.push(None);
    }
    let mut c: usize = 0;
    while c < comps.len()
        invariant
            comps@.len() == cv.len(),
            comps@.map_values(|s: Vec<usize>| s@) == cv,
            is_partition(cv, cof, n as int),
            slot@.len() == n,
            c <= cv.len(),
            forall|d: int| 0 <= d < c ==> #[trigger] slot@[cv[d][0] as int] == Some(d as usize),
            forall|x: int| 0 <= x < n && #[trigger] slot@[x] is Some ==> slot@[x]->0 < c && cv[slot@[x]->0 as int][0] == x,
        decreases cv.len() - c,
    {
        assert(comps@[c as int]@ == cv[c as int]);
        let first = comps[c][0];
        assert(first == cv[c as int][0]);
        proof {
            assert(cof[first as int] == c);
            assert forall|d: int| 0 <= d < c implies cv[d][0] != first by {
                assert(cof[cv[d][0] as int] == d);
            }
        }
        slot.set(first, Some(c));
        c = c + 1;
    }
    let mut out: Vec<Vec<usize>> = Vec::new();
    let ghost mut pos: Seq<int> = Seq::new(cv.len(), |d: int| -1);
    let ghost mut inv: Seq<int> = Seq::empty();
    let mut v: usize = 0;
    while v < n
        invariant
            comps@.len() == cv.len(),
            comps@.map_values(|s: Vec<usize>| s@) == cv,
            is_partition(cv, cof, n as int),
            slot@.len() == n,
            v <= n,
            forall|d: int| 0 <= d < cv.len() ==> #[trigger] slot@[cv[d][0] as int] == Some(d as usize),
            forall|x: int| 0 <= x < n && #[trigger] slot@[x] is Some ==> slot@[x]->0 < cv.len() && cv[slot@[x]->0 as int][0] == x,
            pos.len() == cv.len(),
            inv.len() == out@.len(),
            out@.len() <= v,
            forall|j: int| 0 <= j < inv.len() ==> 0 <= #[trigger] inv[j] < cv.len() && pos[inv[j]] == j
                && out@[j]@ == cv[inv[j]] && cv[inv[j]][0] < v,
            forall|d: int| 0 <= d < cv.len() ==> (#[trigger] pos[d] >= 0 <==> cv[d][0] < v),
            forall|d: int| 0 <= d < cv.len() && #[trigger] pos[d] >= 0 ==> pos[d] < inv.len() && inv[pos[d]] == d,
            forall|i: int, j: int| 0 <= i < j < out@.len() ==> #[trigger] out@[i]@[0] < #[trigger] out@[j]@[0],
        decreases n - v,
    {
        match slot[v] {
            Some(d) => {
                assert(comps@[d as int]@ == cv[d as int]);
                let block = comps[d].clone();
                proof {
                    assert(block@ =~= cv[d as int]);
                    pos = pos.update(d as int, out@.len() as int);
                    inv = inv.push(d as int);
                }
                let ghost prev = out@;
                out.push(block);
                proof {
                    assert(out@[out@.len() - 1]@[0] == v);
                    assert forall|i: int, j: int| 0 <= i < j < out@.len() implies #[trigger] out@[i]@[0] < #[trigger] out@[j]@[0] by {
                        if j == out@.len() - 1 {
                            assert(prev[i] == out@[i]);
                            assert(out@[i]@ == cv[inv[i]]);
                        } else {
                            assert(prev[i] == out@[i]);
                            assert(prev[j] == out@[j]);
                        }
                    }
                }
            },
            None => {
                proof {
                    assert forall|d: int| 0 <= d < cv.len() implies (#[trigger] pos[d] >= 0 <==> cv[d][0] < v + 1) by {
                        if cv[d][0] == v {
                            assert(slot@[v as int] == Some(d as usize));
                        }
                    }
                }
            },
        }
        v = v + 1;
    }
    proof {
        let ov = out@.map_values(|s: Vec<usize>| s@);
        let cof2 = Seq::new(n as nat, |x: int| pos[cof[x] as int] as usize);
        assert forall|d: int| 0 <= d < cv.len() implies pos[d] >= 0 by {
            assert(cv[d].len() > 0);
            assert(cv[d][0] < n);
        }
        assert(is_partition(ov, cof2, n as int)) by {
            assert forall|x: int| 0 <= x < n implies #[trigger] cof2[x] < ov.len() && ov[cof2[x] as int].contains(x as usize) by {
                let d = cof[x] as int;
                assert(pos[d] >= 0);
                assert(cof2[x] == pos[d] as usize);
                assert(ov[pos[d]] == out@[pos[d]]@);
                assert(ov[pos[d]] == cv[d]);
            }
            assert forall|j: int, k: int| 0 <= j < ov.len() && 0 <= k < ov[j].len() implies #[trigger] ov[j][k] < n
                && cof2[ov[j][k] as int] == j by {
                let d = inv[j];
                assert(ov[j] == out@[j]@);
                assert(ov[j] == cv[d]);
                assert(cof[cv[d][k] as int] == d);
                assert(cof2[ov[j][k] as int] == pos[d] as usize);
            }
            assert forall|j: int| 0 <= j < ov.len() implies #[trigger] ov[j].len() > 0 && strictly_sorted(ov[j]) by {
                assert(ov[j] == out@[j]@);
                assert(ov[j] == cv[inv[j]]);
            }
        }
        assert forall|i: int, j: int| 0 <= i < j < ov.len() implies #[trigger] ov[i][0] < #[trigger] ov[j][0] by {
            assert(ov[i] == out@[i]@);
            assert(ov[j] == out@[j]@);
        }
        let g = graph@.map_values(|s: Vec<usize>| s@);
        assert(dg.adj() =~= g) by {
            assert forall|u: int| 0 <= u < n implies dg.adj()[u] == g[u] by {
                assert(lists@[u]@ == graph@[u]@);
            }
        }
        assert(blocks_are_mutual_reach(g, cof2)) by {
            assert forall|u: int, w: int| 0 <= u < g.len() && 0 <= w < g.len() implies
                (#[trigger] cof2[u] == #[trigger] cof2[w]) == (cof[u] == cof[w]) by {
                assert(cof[u] < cv.len() && cof[w] < cv.len());
                assert(pos[cof[u] as int] >= 0 && pos[cof[w] as int] >= 0);
                assert(inv[pos[cof[u] as int]] == cof[u] as int);
                assert(inv[pos[cof[w] as int]] == cof[w] as int);
            }
        }
        assert(is_partition(ov, cof2, g.len() as int));
    }
    out
}

/// The matching, its dependency graph and the block decomposition.
#[derive(Clone, Debug)]
pub struct StructuralAnalysis {
    pub matching: StructuralMatching,
    pub dependency_graph: Vec<Vec<usize>>,
    pub blocks: Vec<Vec<usize>>,
}

/// Match, build the dependency graph and decompose it into blocks.
pub fn analyze(system: &System) -> (r: StructuralAnalysis)
    ensures
        valid_matching(*system, r.matching),
        r.dependency_graph@.len() == system.equations@.len(),
        forall|e: int, o: usize|
            0 <= e < r.dependency_graph@.len() ==> (#[trigger] r.dependency_graph@[e]@.contains(o)
                <==> depends_on(*system, r.matching.equation_to_variable@, e, o)),
        ordered_partition(r.blocks@.map_values(|s: Vec<usize>| s@), system.equations@.len() as int),
        grouped_by_mutual_reach(
            r.blocks@.map_values(|s: Vec<usize>| s@),
            r.dependency_graph@.map_values(|s: Vec<usize>| s@),
        ),
{
    let matching = maximum_matching(system);
    let dependency_graph = equation_dependency_graph(system, &matching);
    let blocks = strongly_connected_components(dependency_graph.as_slice());
    StructuralAnalysis { matching, dependency_graph, blocks }
}

} // verus!
