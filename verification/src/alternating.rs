//! Alternating search on a bipartite matching: the left vertices reached
//! from the free ones along non-matched then matched edges, the certificate
//! that no augmenting path exists, and augmentation along a found path.
use vstd::prelude::*;
use vstd::relations::injective_on;
use crate::structural::{adj_view, matching_ok, graph_ok, count_some, lemma_count_some_same, lemma_count_some_grow, incidence_row, valid_matching, StructuralMatching, last_variable_index, lemma_last_variable_index};
use crate::system::{System, VariableId};
use crate::scc::{filled_usize, filled_bool};
use crate::reach::{count_other, lemma_count_other_mark};

verus! {

/// The alternating search from the free left vertices is closed and meets
/// no free right vertex: free lefts are reached (`zl[x] == 1`), every
/// neighbour of a reached left is reached (`zr`), the partner of a reached
/// right is reached, and every reached right is matched.
pub open spec fn no_augmenting_path(
    av: Seq<Seq<usize>>,
    pl: Seq<Option<usize>>,
    pr: Seq<Option<usize>>,
    zl: Seq<usize>,
    zr: Seq<bool>,
) -> bool {
    &&& zl.len() == pl.len()
    &&& zr.len() == pr.len()
    &&& forall|x: int| 0 <= x < pl.len() && #[trigger] pl[x] is None ==> zl[x] == 1
    &&& forall|x: int, k: int| 0 <= x < pl.len() && zl[x] == 1 && 0 <= k < av[x].len() ==> zr[#[trigger] av[x][k] as int]
    &&& forall|y: int| 0 <= y < pr.len() && #[trigger] zr[y] ==> pr[y] is Some && zl[pr[y]->0 as int] == 1
}

/// The search facts about one state: closure as in [`no_augmenting_path`]
/// (without its last clause), and for each reached right the reached left
/// it was found from (`par`), with depths (`dl`) that fall along matched
/// edges.
pub open spec fn search_facts(
    av: Seq<Seq<usize>>,
    pl: Seq<Option<usize>>,
    pr: Seq<Option<usize>>,
    zl: Seq<usize>,
    zr: Seq<bool>,
    par: Seq<usize>,
    dl: Seq<usize>,
) -> bool {
    &&& zl.len() == pl.len()
    &&& dl.len() == pl.len()
    &&& zr.len() == pr.len()
    &&& par.len() == pr.len()
    &&& forall|x: int| 0 <= x < pl.len() && #[trigger] pl[x] is None ==> zl[x] == 1
    &&& forall|x: int, k: int| 0 <= x < pl.len() && zl[x] == 1 && 0 <= k < av[x].len() ==> zr[#[trigger] av[x][k] as int]
    &&& forall|y: int| 0 <= y < pr.len() && #[trigger] zr[y] && pr[y] is Some ==> zl[pr[y]->0 as int] == 1
    &&& forall|y: int|
        0 <= y < pr.len() && #[trigger] zr[y] ==> par[y] < pl.len() && zl[par[y] as int] == 1 && av[par[y] as int].contains(
            y as usize,
        )
    &&& forall|x: int|
        0 <= x < pl.len() && zl[x] == 1 && #[trigger] pl[x] is Some ==> pl[x]->0 < pr.len() && zr[pl[x]->0 as int] && dl[par[pl[x]->0 as int] as int] < dl[x]
}

/// The alternating search from the free left vertices of a matching:
/// breadth first, along any edge from a reached left and then along the
/// matched edge of the right it reaches.
pub(crate) fn alternating_search(adj: &Vec<Vec<usize>>, pl: &Vec<Option<usize>>, pr: &Vec<Option<usize>>) -> (r: (
    Vec<usize>,
    Vec<bool>,
    Vec<usize>,
    Vec<usize>,
))
    requires
        pl@.len() == adj@.len(),
        graph_ok(adj_view(adj@), pr@.len() as int),
        matching_ok(adj_view(adj@), pl@, pr@, None),
    ensures
        search_facts(adj_view(adj@), pl@, pr@, r.0@, r.1@, r.2@, r.3@),
{
    let ghost av = adj_view(adj@);
    let left = adj.len();
    let right = pr.len();
    let mut zl = filled_usize(left, 0);
    let mut dl = filled_usize(left, 0);
    let mut zr = filled_bool(right, false);
    let mut par = filled_usize(right, 0);
    let mut queue: Vec<usize> = Vec::new();
    let mut u: usize = 0;
    while u < left
        invariant
            left == adj@.len() == pl@.len(),
            zl@.len() == left,
            dl@.len() == left,
            u <= left,
            queue@.len() <= u,
            forall|x: int| 0 <= x < u && #[trigger] pl@[x] is None ==> zl@[x] == 1,
            forall|x: int| 0 <= x < left && #[trigger] zl@[x] == 1 ==> x < u && pl@[x] is None && exists|i: int|
                0 <= i < queue@.len() && queue@[i] == x,
            forall|i: int| 0 <= i < queue@.len() ==> #[trigger] queue@[i] < left && zl@[queue@[i] as int] == 1 && dl@[queue@[i] as int] == 0,
            forall|x: int| 0 <= x < left ==> #[trigger] dl@[x] == 0,
        decreases left - u,
    {
        if pl[u].is_none() {
            let ghost q0 = queue@;
            zl.set(u, 1);
            queue.push(u);
            proof {
                assert(queue@[q0.len() as int] == u);
                assert forall|x: int| 0 <= x < left && #[trigger] zl@[x] == 1 implies x < u + 1 && pl@[x] is None && exists|i: int|
                    0 <= i < queue@.len() && queue@[i] == x by {
                    if x != u {
                        let i = choose|i: int| 0 <= i < q0.len() && q0[i] == x;
                        assert(queue@[i] == x);
                    }
                }
            }
        }
        u = u + 1;
    }
    proof {
        assert forall|y: int| 0 <= y < right ==> !#[trigger] zr@[y] by {}
    }
    let mut qi: usize = 0;
    while qi < queue.len()
        invariant
            left == adj@.len() == pl@.len(),
            right == pr@.len(),
            av == adj_view(adj@),
            graph_ok(av, right as int),
            matching_ok(av, pl@, pr@, None),
            zl@.len() == left,
            dl@.len() == left,
            zr@.len() == right,
            par@.len() == right,
            qi <= queue@.len(),
            forall|x: int| 0 <= x < left && #[trigger] pl@[x] is None ==> zl@[x] == 1,
            forall|i: int| 0 <= i < queue@.len() ==> #[trigger] queue@[i] < left && zl@[queue@[i] as int] == 1 && dl@[queue@[i] as int] <= i,
            forall|x: int| 0 <= x < left && #[trigger] zl@[x] == 1 ==> exists|i: int| 0 <= i < queue@.len() && queue@[i] == x,
            forall|i: int, k: int| 0 <= i < qi && 0 <= k < av[queue@[i] as int].len() ==> zr@[#[trigger] av[queue@[i] as int][k] as int],
            forall|y: int| 0 <= y < right && #[trigger] zr@[y] && pr@[y] is Some ==> zl@[pr@[y]->0 as int] == 1,
            forall|y: int|
                0 <= y < right && #[trigger] zr@[y] ==> par@[y] < left && zl@[par@[y] as int] == 1 && av[par@[y] as int].contains(
                    y as usize,
                ),
            forall|x: int|
                0 <= x < left && zl@[x] == 1 && #[trigger] pl@[x] is Some ==> pl@[x]->0 < right && zr@[pl@[x]->0 as int]
                    && dl@[par@[pl@[x]->0 as int] as int] < dl@[x],
        decreases count_other(zl@, 1), queue@.len() - qi,
    {
        let x = queue[qi];
        assert(av[x as int] == adj@[x as int]@);
        let ghost co0 = count_other(zl@, 1);
        let ghost ql0 = queue@.len();
        let mut k: usize = 0;
        while k < adj[x].len()
            invariant
                left == adj@.len() == pl@.len(),
                right == pr@.len(),
                av == adj_view(adj@),
                av[x as int] == adj@[x as int]@,
                graph_ok(av, right as int),
                matching_ok(av, pl@, pr@, None),
                zl@.len() == left,
                dl@.len() == left,
                zr@.len() == right,
                par@.len() == right,
                x < left,
                qi < queue@.len(),
                queue@[qi as int] == x,
                zl@[x as int] == 1,
                dl@[x as int] <= qi,
                k <= av[x as int].len(),
                count_other(zl@, 1) + queue@.len() == co0 + ql0,
                queue@.len() >= ql0,
                forall|x2: int| 0 <= x2 < left && #[trigger] pl@[x2] is None ==> zl@[x2] == 1,
                forall|i: int| 0 <= i < queue@.len() ==> #[trigger] queue@[i] < left && zl@[queue@[i] as int] == 1 && dl@[queue@[i] as int] <= i,
                forall|x2: int| 0 <= x2 < left && #[trigger] zl@[x2] == 1 ==> exists|i: int| 0 <= i < queue@.len() && queue@[i] == x2,
                forall|i: int, j: int| 0 <= i < qi && 0 <= j < av[queue@[i] as int].len() ==> zr@[#[trigger] av[queue@[i] as int][j] as int],
                forall|j: int| 0 <= j < k ==> zr@[#[trigger] av[x as int][j] as int],
                forall|y: int| 0 <= y < right && #[trigger] zr@[y] && pr@[y] is Some ==> zl@[pr@[y]->0 as int] == 1,
                forall|y: int|
                    0 <= y < right && #[trigger] zr@[y] ==> par@[y] < left && zl@[par@[y] as int] == 1 && av[par@[y] as int].contains(
                        y as usize,
                    ),
                forall|x2: int|
                    0 <= x2 < left && zl@[x2] == 1 && #[trigger] pl@[x2] is Some ==> pl@[x2]->0 < right && zr@[pl@[x2]->0 as int]
                        && dl@[par@[pl@[x2]->0 as int] as int] < dl@[x2],
            decreases av[x as int].len() - k,
        {
            let y = adj[x][k];
            assert(av[x as int][k as int] == y);
            assert(y < right);
            if !zr[y] {
                match pr[y] {
                    Some(w) => {
                        proof {
                            assert(pr@[y as int] is Some);
                            assert(w < left);
                            assert(pl@[w as int] == Some(y));
                            if zl@[w as int] == 1 {
                                assert(pl@[w as int] is Some);
                                assert(zr@[y as int]);
                            }
                            lemma_count_other_mark(zl@, w as int, 1);
                        }
                        let ghost q0 = queue@;
                        let _ql = queue.len();
                        let d = dl[x] + 1;
                        zr.set(y, true);
                        par.set(y, x);
                        zl.set(w, 1);
                        dl.set(w, d);
                        queue.push(w);
                        proof {
                            assert(queue@[q0.len() as int] == w);
                            assert forall|x2: int| 0 <= x2 < left && #[trigger] zl@[x2] == 1 implies exists|i: int|
                                0 <= i < queue@.len() && queue@[i] == x2 by {
                                if x2 != w {
                                    let i = choose|i: int| 0 <= i < q0.len() && q0[i] == x2;
                                    assert(queue@[i] == x2);
                                }
                            }
                        }
                    },
                    None => {
                        zr.set(y, true);
                        par.set(y, x);
                    },
                }
            }
            k = k + 1;
        }
        qi = qi + 1;
    }
    proof {
        assert forall|x2: int, j: int| 0 <= x2 < left && zl@[x2] == 1 && 0 <= j < av[x2].len() implies zr@[#[trigger] av[x2][j] as int] by {
            let i = choose|i: int| 0 <= i < queue@.len() && queue@[i] == x2;
            assert(zr@[av[queue@[i] as int][j] as int]);
        }
    }
    (zl, zr, par, dl)
}

/// Augment along the alternating path that the search found to the free
/// right vertex `y0`: walking back through the left vertices the rights
/// were found from, each takes the right it was found from, and the free
/// left at the start of the path becomes matched.
pub(crate) fn augment_path(
    adj: &Vec<Vec<usize>>,
    pl: &mut Vec<Option<usize>>,
    pr: &mut Vec<Option<usize>>,
    y0: usize,
    zl: &Vec<usize>,
    zr: &Vec<bool>,
    par: &Vec<usize>,
    dl: &Vec<usize>,
)
    requires
        old(pl)@.len() == adj@.len(),
        graph_ok(adj_view(adj@), old(pr)@.len() as int),
        matching_ok(adj_view(adj@), old(pl)@, old(pr)@, None),
        search_facts(adj_view(adj@), old(pl)@, old(pr)@, zl@, zr@, par@, dl@),
        y0 < old(pr)@.len(),
        zr@[y0 as int],
        old(pr)@[y0 as int] is None,
    ensures
        final(pl)@.len() == old(pl)@.len(),
        final(pr)@.len() == old(pr)@.len(),
        matching_ok(adj_view(adj@), final(pl)@, final(pr)@, None),
        count_some(final(pl)@) == count_some(old(pl)@) + 1,
{
    let ghost av = adj_view(adj@);
    let ghost pl0 = pl@;
    let ghost pr0 = pr@;
    let left = pl.len();
    let right = pr.len();
    let mut y = y0;
    proof {
        assert forall|x: int| 0 <= x < left implies pl@[x] != Some(y0) by {
            if pl@[x] == Some(y0) {
                assert(pl@[x] is Some);
            }
        }
    }
    loop
        invariant_except_break
            left == adj@.len() == pl@.len() == pl0.len(),
            right == pr@.len() == pr0.len(),
            av == adj_view(adj@),
            search_facts(av, pl0, pr0, zl@, zr@, par@, dl@),
            y < right,
            zr@[y as int],
            matching_ok(av, pl@, pr@, Some(y)),
            forall|x: int| 0 <= x < left ==> pl@[x] != Some(y),
            forall|x: int|
                #![trigger pl@[x]]
                0 <= x < left && pl@[x] != pl0[x] ==> zl@[x] == 1 && dl@[x] > dl@[par@[y as int] as int],
            forall|x: int| 0 <= x < left ==> (#[trigger] pl@[x] is Some <==> pl0[x] is Some),
        ensures
            pl@.len() == left,
            pr@.len() == right,
            matching_ok(av, pl@, pr@, None),
            count_some(pl@) == count_some(pl0) + 1,
        decreases dl@[par@[y as int] as int],
    {
        let u = par[y];
        assert(u < left && zl@[u as int] == 1 && av[u as int].contains(y));
        let prev = pl[u];
        assert(prev == pl0[u as int]);
        let ghost before = pl@;
        let ghost prb = pr@;
        pl.set(u, Some(y));
        pr.set(y, Some(u));
        proof {
            assert forall|x: int| 0 <= x < left && #[trigger] pl@[x] is Some implies pl@[x]->0 < right && pr@[pl@[x]->0 as int]
                == Some(x as usize) && av[x].contains(pl@[x]->0) by {
                if x != u {
                    assert(before[x] == pl@[x]);
                    assert(before[x] is Some);
                    assert(before[x] != Some(y));
                }
            }
        }
        match prev {
            None => {
                proof {
                    assert forall|z: int| 0 <= z < right && #[trigger] pr@[z] is Some implies pr@[z]->0 < left && pl@[pr@[z]->0 as int]
                        == Some(z as usize) by {
                        if z != y {
                            assert(prb[z] == pr@[z]);
                            assert(prb[z] is Some);
                            if prb[z]->0 == u {
                                assert(before[u as int] == Some(z as usize));
                            }
                            assert(before[prb[z]->0 as int] == Some(z as usize));
                        }
                    }
                    assert(matching_ok(av, pl@, pr@, None));
                    assert forall|x: int| 0 <= x < left implies (#[trigger] before[x] is Some <==> pl0[x] is Some) by {}
                    lemma_count_some_same(pl0, before);
                    assert forall|x: int| 0 <= x < left && x != u implies (#[trigger] before[x] is Some <==> pl@[x] is Some) by {
                        assert(before[x] == pl@[x]);
                    }
                    lemma_count_some_grow(before, pl@, u as int);
                }
                break;
            },
            Some(y2) => {
                proof {
                    assert(pl0[u as int] is Some);
                    assert(y2 < right && zr@[y2 as int] && dl@[par@[y2 as int] as int] < dl@[u as int]);
                    assert(y2 != y);
                    assert forall|z: int| 0 <= z < right && #[trigger] pr@[z] is Some implies pr@[z]->0 < left && (Some(y2)
                        != Some(z as usize) ==> pl@[pr@[z]->0 as int] == Some(z as usize)) by {
                        if z != y {
                            assert(prb[z] == pr@[z]);
                            assert(prb[z] is Some);
                            if prb[z]->0 != u {
                                assert(before[prb[z]->0 as int] == Some(z as usize));
                                assert(pl@[prb[z]->0 as int] == before[prb[z]->0 as int]);
                            } else {
                                assert(before[u as int] == Some(z as usize));
                            }
                        }
                    }
                    assert forall|x: int| 0 <= x < left implies pl@[x] != Some(y2) by {
                        if x != u && pl@[x] == Some(y2) {
                            assert(before[x] == Some(y2));
                            assert(before[x] is Some);
                            assert(prb[y2 as int] == Some(x as usize));
                            assert(before[u as int] is Some);
                            assert(prb[y2 as int] == Some(u));
                        }
                    }
                    assert forall|x: int|
                        #![trigger pl@[x]]
                        0 <= x < left && pl@[x] != pl0[x] implies zl@[x] == 1 && dl@[x] > dl@[par@[y2 as int] as int] by {
                        if x != u {
                            assert(before[x] == pl@[x]);
                        }
                    }
                    assert forall|x: int| 0 <= x < left implies (#[trigger] pl@[x] is Some <==> pl0[x] is Some) by {
                        if x != u {
                            assert(before[x] == pl@[x]);
                        }
                    }
                }
                y = y2;
            },
        }
    }
}

/// The matched positions of `s` form a finite set of `count_some(s)`
/// indices.
proof fn lemma_some_positions<T>(s: Seq<Option<T>>)
    ensures
        Set::new(|u: int| 0 <= u < s.len() && s[u] is Some).finite(),
        Set::new(|u: int| 0 <= u < s.len() && s[u] is Some).len() == count_some(s),
    decreases s.len(),
{
    let b = Set::new(|u: int| 0 <= u < s.len() && s[u] is Some);
    if s.len() == 0 {
        assert(b =~= Set::<int>::empty());
    } else {
        let t = s.drop_last();
        lemma_some_positions(t);
        let a = Set::new(|u: int| 0 <= u < t.len() && t[u] is Some);
        if s.last() is Some {
            assert(b =~= a.insert(s.len() - 1));
        } else {
            assert(b =~= a);
        }
    }
}

/// No valid matching of the system matches more equations than a matching
/// of its incidence graph from which the alternating search meets no free
/// variable (the variables' ids being distinct): each equation that the
/// other matching matches is sent to one this matching matches, and no two
/// to the same.
pub(crate) proof fn lemma_no_augmenting_path_is_maximum(
    system: System,
    adj: Seq<Vec<usize>>,
    pl: Seq<Option<usize>>,
    pr: Seq<Option<usize>>,
    zl: Seq<usize>,
    zr: Seq<bool>,
    m: StructuralMatching,
)
    requires
        adj.len() == system.equations@.len(),
        pl.len() == adj.len(),
        pr.len() == system.variables@.len(),
        system.variables@.len() <= usize::MAX,
        forall|u: int, i: usize| 0 <= u < adj.len() ==> (#[trigger] adj[u]@.contains(i) <==> incidence_row(system, u, i)),
        matching_ok(adj_view(adj), pl, pr, None),
        no_augmenting_path(adj_view(adj), pl, pr, zl, zr),
        forall|i: int, j: int|
            0 <= i < j < system.variables@.len() ==> system.variables@[i].id != system.variables@[j].id,
        valid_matching(system, m),
    ensures
        count_some(m.equation_to_variable@) <= count_some(pl),
{
    let av = adj_view(adj);
    let n = adj.len() as int;
    let etv = m.equation_to_variable@;
    let vars = system.variables@;
    let s2 = Set::new(|u: int| 0 <= u < etv.len() && etv[u] is Some);
    let s1 = Set::new(|u: int| 0 <= u < pl.len() && pl[u] is Some);
    lemma_some_positions(etv);
    lemma_some_positions(pl);
    let idx = |u: int| last_variable_index(vars, etv[u]->0);
    let h = |u: int|
        if zl[u] == 1 {
            pr[idx(u)]->0 as int
        } else {
            u
        };
    assert forall|u: int| s2.contains(u) implies 0 <= idx(u) < vars.len() && #[trigger] av[u].contains(idx(u) as usize)
        && vars[idx(u)].id == etv[u]->0 by {
        let id = etv[u]->0;
        assert(etv[u] is Some);
        assert(system.equations@[u].variables@.contains(id));
        lemma_last_variable_index(vars, id);
        let i0 = choose|i: int| 0 <= i < vars.len() && vars[i].id == id;
        assert(vars[i0].id == id);
        assert(idx(u) >= 0);
        let k = choose|k: int| 0 <= k < system.equations@[u].variables@.len() && system.equations@[u].variables@[k] == id;
        assert(incidence_row(system, u, idx(u) as usize));
        assert(adj[u]@.contains(idx(u) as usize));
        assert(av[u] == adj[u]@);
    }
    assert forall|u: int| s2.contains(u) implies s1.contains(#[trigger] h(u)) && (zl[h(u)] == 1 <==> zl[u] == 1) by {
        let i = idx(u);
        assert(av[u].contains(i as usize));
        if zl[u] == 1 {
            let k = choose|k: int| 0 <= k < av[u].len() && av[u][k] == i as usize;
            assert(zr[av[u][k] as int]);
            assert(zr[i]);
            assert(pr[i] is Some);
        } else {
            if pl[u] is None {
                assert(zl[u] == 1);
            }
        }
    }
    assert(injective_on(h, s2)) by {
        assert forall|u1: int, u2: int| s2.contains(u1) && s2.contains(u2) && #[trigger] h(u1) == #[trigger] h(u2) implies u1 == u2 by {
            if zl[u1] == 1 && zl[u2] == 1 {
                let i1 = idx(u1);
                let i2 = idx(u2);
                assert(av[u1].contains(i1 as usize));
                assert(av[u2].contains(i2 as usize));
                let k1 = choose|k: int| 0 <= k < av[u1].len() && av[u1][k] == i1 as usize;
                let k2 = choose|k: int| 0 <= k < av[u2].len() && av[u2][k] == i2 as usize;
                assert(zr[av[u1][k1] as int]);
                assert(zr[av[u2][k2] as int]);
                assert(zr[i1] && zr[i2]);
                assert(pr[i1] is Some && pr[i2] is Some);
                assert(pl[pr[i1]->0 as int] == Some(i1 as usize));
                assert(pl[pr[i2]->0 as int] == Some(i2 as usize));
                assert(i1 == i2);
                assert(etv[u1] == etv[u2]);
                if u1 < u2 {
                    assert(etv[u1] != etv[u2]);
                } else if u2 < u1 {
                    assert(etv[u2] != etv[u1]);
                }
            }
        }
    }
    let img = s2.map(h);
    vstd::set_lib::lemma_map_size(s2, img, h);
    assert(img.subset_of(s1)) by {
        assert forall|x: int| img.contains(x) implies s1.contains(x) by {
            let u = choose|u: int| s2.contains(u) && x == h(u);
        }
    }
    vstd::set_lib::lemma_len_subset(img, s1);
}

} // verus!
