//! Branch-and-bound search for a maximum clique, pruned by the coloring bound.

use vstd::prelude::*;

use crate::coloring::{assigns, assigns_le, distinct_firsts, lemma_clique_le_colors, proper};
use crate::graph::{
    candidates_ok, is_clique, lemma_clique_len, lemma_clique_to_set, set_clique, Graph,
};
use crate::heuristic::MaxCliqueData;
use crate::vset::{copy_vec, lemma_sorted_set_len, sorted_set, vset_remove};

verus! {

broadcast use vstd::seq_lib::group_seq_properties, vstd::set::group_set_axioms;

/// The best-known clique, read and conditionally overwritten by every branch.
pub struct BestClique {
    pub clique: Vec<u16>,
}

impl BestClique {
    /// Starts from a seed clique, usually the heuristic result.
    pub fn new(seed: Vec<u16>) -> (b: BestClique)
        ensures
            b.clique@ == seed@,
    {
        BestClique { clique: seed }
    }

    /// A snapshot of the best clique found so far.
    pub fn read(&self) -> (r: Vec<u16>)
        ensures
            r@ == self.clique@,
    {
        copy_vec(&self.clique)
    }

    /// Replaces the stored clique exactly when the candidate is longer, so
    /// the stored length never decreases.
    pub fn update_if_longer(&mut self, cand: &Vec<u16>)
        ensures
            final(self).clique@ == if cand@.len() > old(self).clique@.len() {
                cand@
            } else {
                old(self).clique@
            },
            final(self).clique@.len() >= old(self).clique@.len(),
    {
        if cand.len() > self.clique.len() {
            self.clique = copy_vec(cand);
        }
    }
}

/// Every clique inside `cands`, stacked on top of `base`, stays within the
/// length of `best`.
pub open spec fn covers(g: Graph, best: Seq<u16>, base: Seq<u16>, cands: Seq<u16>) -> bool {
    forall|s: Set<u16>|
        #![trigger set_clique(g, s), s.subset_of(cands.to_set())]
        set_clique(g, s) && s.subset_of(cands.to_set()) ==> base.len() + s.len() <= best.len()
}

/// One branch of the exact search: extends `current_clique` with vertices of
/// `vertexes`, keeping `max_clique` the longest clique seen.  Candidates are
/// taken by decreasing color; when even the coloring bound cannot beat the
/// best clique, the remaining candidates are pruned.
pub fn max_clique_impl(
    graph: &Graph,
    max_clique: &mut BestClique,
    current_clique: &Vec<u16>,
    vertexes: Vec<u16>,
)
    requires
        graph.wf(),
        is_clique(*graph, old(max_clique).clique@),
        is_clique(*graph, current_clique@),
        candidates_ok(*graph, current_clique@, vertexes@),
    ensures
        is_clique(*graph, final(max_clique).clique@),
        final(max_clique).clique@.len() >= old(max_clique).clique@.len(),
        final(max_clique).clique@.len() >= current_clique@.len(),
        covers(*graph, final(max_clique).clique@, current_clique@, vertexes@),
        current_clique@.len() == 0 && vertexes@.len() == 0 ==> final(max_clique).clique@ == old(
            max_clique,
        ).clique@,
    decreases vertexes@.len(),
{
    let ghost verts = vertexes@;
    max_clique.update_if_longer(current_clique);
    let coloring = graph.greedy_coloring(&vertexes);
    let mut vx = copy_vec(&vertexes);
    let mut remaining = coloring;
    let ghost col = coloring@;
    let mut prune = false;
    proof {
        assert forall|j: int| 0 <= j < remaining@.len() implies col.contains(
            #[trigger] remaining@[j],
        ) by {}
        assert forall|y: u16| vx@.contains(y) implies assigns(remaining@, y) by {}
    }
    while !prune && remaining.len() > 0
        invariant
            verts == vertexes@,
            graph.wf(),
            is_clique(*graph, current_clique@),
            candidates_ok(*graph, current_clique@, vx@),
            is_clique(*graph, max_clique.clique@),
            max_clique.clique@.len() >= old(max_clique).clique@.len(),
            max_clique.clique@.len() >= current_clique@.len(),
            sorted_set(verts),
            vx@.len() <= verts.len(),
            forall|y: u16| #[trigger] vx@.contains(y) ==> verts.contains(y),
            col.len() == verts.len(),
            distinct_firsts(col),
            proper(*graph, col),
            forall|i: int| 0 <= i < col.len() ==> (#[trigger] col[i]).1 <= i,
            distinct_firsts(remaining@),
            forall|j: int| 0 <= j < remaining@.len() ==> col.contains(#[trigger] remaining@[j]),
            forall|j: int| 0 <= j < remaining@.len() ==> vx@.contains((#[trigger] remaining@[j]).0),
            forall|y: u16| #[trigger] vx@.contains(y) ==> assigns(remaining@, y),
            forall|s: Set<u16>|
                #![trigger set_clique(*graph, s), s.subset_of(verts.to_set())]
                set_clique(*graph, s) && s.subset_of(verts.to_set()) && !s.subset_of(
                    vx@.to_set(),
                ) ==> current_clique@.len() + s.len() <= max_clique.clique@.len(),
            prune ==> covers(*graph, max_clique.clique@, current_clique@, verts),
            current_clique@.len() == 0 && verts.len() == 0 ==> max_clique.clique@ == old(
                max_clique,
            ).clique@,
        decreases remaining@.len() + (if prune {
            0int
        } else {
            1int
        }),
    {
        let mut best_j: usize = 0;
        let mut jj: usize = 1;
        while jj < remaining.len()
            invariant
                1 <= jj <= remaining@.len(),
                best_j < jj,
                forall|k: int|
                    0 <= k < jj ==> (#[trigger] remaining@[k]).1 <= remaining@[best_j as int].1,
            decreases remaining@.len() - jj,
        {
            if remaining[jj].1 > remaining[best_j].1 {
                best_j = jj;
            }
            jj += 1;
        }
        let v = remaining[best_j].0;
        let c = remaining[best_j].1;
        proof {
            assert(col.contains(remaining@[best_j as int]));
            let ii = choose|ii: int| 0 <= ii < col.len() && col[ii] == remaining@[best_j as int];
            assert(col[ii].1 <= ii);
            lemma_clique_len(*graph, current_clique@);
            lemma_sorted_set_len(verts);
        }
        if current_clique.len() + c + 1 <= max_clique.clique.len() {
            proof {
                assert forall|s: Set<u16>|
                    set_clique(*graph, s) && s.subset_of(verts.to_set()) implies current_clique@.len()
                    + s.len() <= max_clique.clique@.len() by {
                    if s.subset_of(vx@.to_set()) {
                        assert forall|y: u16| #[trigger] s.contains(y) implies assigns_le(
                            col,
                            y,
                            c as int,
                        ) by {
                            assert(vx@.to_set().contains(y));
                            assert(vx@.contains(y));
                            assert(assigns(remaining@, y));
                            let j = choose|j: int|
                                0 <= j < remaining@.len() && (#[trigger] remaining@[j]).0 == y;
                            assert(remaining@[j].1 <= remaining@[best_j as int].1);
                            assert(col.contains(remaining@[j]));
                            let i2 = choose|i2: int|
                                0 <= i2 < col.len() && col[i2] == remaining@[j];
                            assert(col[i2].0 == y && col[i2].1 <= c as int);
                        }
                        lemma_clique_le_colors(*graph, col, s, c as int);
                    }
                }
            }
            prune = true;
        } else {
            let ghost rem_pre = remaining@;
            let picked = remaining.remove(best_j);
            proof {
                assert(remaining@ == rem_pre.remove(best_j as int));
                assert forall|k: int|
                    0 <= k < remaining@.len() implies remaining@[k] == rem_pre[k] || remaining@[k]
                        == rem_pre[k + 1] by {
                    if k < best_j {
                        assert(remaining@[k] == rem_pre[k]);
                    } else {
                        assert(remaining@[k] == rem_pre[k + 1]);
                    }
                }
                assert(vx@.contains(v));
            }
            let ghost vx_old = vx@;
            let vx2 = vset_remove(&vx, v);
            vx = vx2;
            proof {
                assert forall|k: int| 0 <= k < vx@.len() implies graph.valid_vertex(
                    #[trigger] vx@[k],
                ) && !current_clique@.contains(vx@[k]) by {
                    assert(vx@.contains(vx@[k]));
                    assert(vx_old.contains(vx@[k]));
                    let m = choose|m: int| 0 <= m < vx_old.len() && vx_old[m] == vx@[k];
                    assert(graph.valid_vertex(vx_old[m]));
                    assert(!current_clique@.contains(vx_old[m]));
                }
                assert forall|k: int, j: int|
                    0 <= k < vx@.len() && 0 <= j < current_clique@.len() implies graph.edge(
                    #[trigger] vx@[k],
                    #[trigger] current_clique@[j],
                ) by {
                    assert(vx@.contains(vx@[k]));
                    assert(vx_old.contains(vx@[k]));
                    let m = choose|m: int| 0 <= m < vx_old.len() && vx_old[m] == vx@[k];
                    assert(graph.edge(vx_old[m], current_clique@[j]));
                }
                assert(candidates_ok(*graph, current_clique@, vx@));
            }
            let child = graph.subgraph_neighbours(&vx, v);
            let mut cur2 = copy_vec(current_clique);
            cur2.push(v);
            proof {
                let cur = cur2@;
                assert(cur == current_clique@.push(v));
                assert(is_clique(*graph, cur)) by {
                    assert(!current_clique@.contains(v));
                    assert forall|i: int, j: int|
                        0 <= i < cur.len() && 0 <= j < cur.len() && i != j implies graph.edge(
                        #[trigger] cur[i],
                        #[trigger] cur[j],
                    ) by {
                        if i == cur.len() - 1 {
                            assert(graph.edge(v, current_clique@[j]));
                        } else if j == cur.len() - 1 {
                            assert(graph.edge(current_clique@[i], v)) by {
                                assert(graph.edge(v, current_clique@[i]));
                            }
                        }
                    }
                }
                assert forall|k: int| 0 <= k < child@.len() implies graph.valid_vertex(
                    #[trigger] child@[k],
                ) && !cur.contains(child@[k]) by {
                    assert(child@.contains(child@[k]));
                    assert(vx@.contains(child@[k]));
                    assert(vx_old.contains(child@[k]));
                    let m = choose|m: int| 0 <= m < vx_old.len() && vx_old[m] == child@[k];
                    assert(graph.valid_vertex(vx_old[m]));
                    if cur.contains(child@[k]) {
                        let m2 = choose|m2: int| 0 <= m2 < cur.len() && cur[m2] == child@[k];
                        if m2 < cur.len() - 1 {
                            assert(current_clique@.contains(child@[k]));
                            assert(!current_clique@.contains(vx_old[m]));
                            assert(false);
                        } else {
                            assert(child@[k] == v);
                            assert(false);
                        }
                    }
                }
                assert forall|k: int, j: int|
                    0 <= k < child@.len() && 0 <= j < cur.len() implies graph.edge(
                    #[trigger] child@[k],
                    #[trigger] cur[j],
                ) by {
                    assert(child@.contains(child@[k]));
                    assert(vx@.contains(child@[k]));
                    assert(vx_old.contains(child@[k]));
                    let m = choose|m: int| 0 <= m < vx_old.len() && vx_old[m] == child@[k];
                    if j < cur.len() - 1 {
                        assert(graph.edge(vx_old[m], current_clique@[j]));
                        assert(cur[j] == current_clique@[j]);
                    } else {
                        assert(graph.edge(v, child@[k]));
                        assert(graph.edge(child@[k], v));
                    }
                }
                assert(candidates_ok(*graph, cur, child@));
            }
            let ghost mc_mid = max_clique.clique@;
            proof {
                assert(vx@.len() == vx_old.len() - 1);
                assert(child@.len() <= vx@.len());
                assert(child@.len() < verts.len());
            }
            max_clique_impl(graph, max_clique, &cur2, child);
            proof {
                assert forall|j: int| 0 <= j < remaining@.len() implies vx@.contains(
                    (#[trigger] remaining@[j]).0,
                ) by {
                    assert(col.contains(remaining@[j]));
                    assert(rem_pre[best_j as int] == picked);
                    let k0 = if j < best_j {
                        j
                    } else {
                        j + 1
                    };
                    assert(rem_pre[k0] == remaining@[j]);
                    assert(vx_old.contains(remaining@[j].0));
                    assert(remaining@[j].0 != v) by {
                        if k0 < best_j {
                            assert(rem_pre[k0].0 != rem_pre[best_j as int].0);
                        } else {
                            assert(rem_pre[best_j as int].0 != rem_pre[k0].0);
                        }
                    }
                }
                assert forall|y: u16| #[trigger] vx@.contains(y) implies assigns(
                    remaining@,
                    y,
                ) by {
                    assert(vx_old.contains(y));
                    assert(y != v);
                    assert(assigns(rem_pre, y));
                    let j = choose|j: int|
                        0 <= j < rem_pre.len() && (#[trigger] rem_pre[j]).0 == y;
                    assert(rem_pre[best_j as int] == picked);
                    assert(j != best_j);
                    if j < best_j {
                        assert(remaining@[j] == rem_pre[j]);
                        assert(remaining@[j].0 == y);
                    } else {
                        assert(remaining@[j - 1] == rem_pre[j]);
                        assert(remaining@[j - 1].0 == y);
                    }
                }
                assert forall|s: Set<u16>|
                    set_clique(*graph, s) && s.subset_of(verts.to_set()) && !s.subset_of(
                        vx@.to_set(),
                    ) implies current_clique@.len() + s.len() <= max_clique.clique@.len() by {
                    if s.subset_of(vx_old.to_set()) {
                        let w = choose|w: u16| s.contains(w) && !vx@.to_set().contains(w);
                        assert(vx_old.to_set().contains(w));
                        assert(vx_old.contains(w));
                        assert(!vx@.contains(w));
                        assert(w == v);
                        let s2 = s.remove(v);
                        assert forall|y: u16| #[trigger] s2.contains(y) implies child@.to_set().contains(
                            y,
                        ) by {
                            assert(s.contains(y));
                            assert(y != v);
                            assert(vx_old.to_set().contains(y));
                            assert(vx_old.contains(y));
                            assert(vx@.contains(y));
                            assert(graph.edge(v, y));
                            assert(child@.contains(y));
                        }
                        assert(set_clique(*graph, s2));
                        assert(s2.subset_of(child@.to_set()));
                        assert(cur2@.len() + s2.len() <= max_clique.clique@.len());
                        assert(s2.len() == s.len() - 1);
                    } else {
                        assert(current_clique@.len() + s.len() <= mc_mid.len());
                    }
                }
            }
        }
    }
    proof {
        if !prune {
            assert(remaining@.len() == 0);
            assert forall|s: Set<u16>|
                set_clique(*graph, s) && s.subset_of(verts.to_set()) implies current_clique@.len()
                + s.len() <= max_clique.clique@.len() by {
                if s.subset_of(vx@.to_set()) {
                    assert forall|y: u16| !s.contains(y) by {
                        if s.contains(y) {
                            assert(vx@.to_set().contains(y));
                            assert(vx@.contains(y));
                            assert(assigns(remaining@, y));
                        }
                    }
                    assert(s =~= Set::<u16>::empty());
                }
            }
        }
    }
}

/// What a complete run returns: a clique that no clique of two or more
/// vertices can beat, with two or more members exactly when the graph has an
/// edge, and never exactly one member — an edgeless graph yields the empty
/// clique.
pub open spec fn max_clique_result(g: Graph, r: Seq<u16>) -> bool {
    &&& is_clique(g, r)
    &&& forall|s: Set<u16>|
        #![trigger set_clique(g, s)]
        set_clique(g, s) && s.len() >= 2 ==> s.len() <= r.len()
    &&& ((exists|u: u16, v: u16| g.edge(u, v)) <==> r.len() >= 2)
    &&& r.len() != 1
}

/// Computes a maximum clique of the graph: the heuristic seeds the bound,
/// then the branch-and-bound search explores every branch it cannot prune.
pub fn get_max_clique(graph: &Graph) -> (r: Vec<u16>)
    requires
        graph.wf(),
    ensures
        max_clique_result(*graph, r@),
{
    let mut data = MaxCliqueData::new();
    graph.max_clique_heuristic(&mut data);
    let seed = copy_vec(&data.max_clique);
    let ghost hseed = seed@;
    let mut best = BestClique::new(seed);
    let verts = graph.vertices();
    let ghost gv = verts@;
    let empty: Vec<u16> = Vec::new();
    proof {
        assert(is_clique(*graph, empty@));
        assert(candidates_ok(*graph, empty@, verts@));
    }
    max_clique_impl(graph, &mut best, &empty, verts);
    let r = best.clique;
    proof {
        assert forall|s: Set<u16>|
            set_clique(*graph, s) && s.len() >= 2 implies s.len() <= r@.len() by {
            assert forall|u: u16| #[trigger] s.contains(u) implies gv.to_set().contains(u) by {
                let s1 = s.remove(u);
                assert(s1.len() >= 1);
                let w = s1.choose();
                assert(s1.contains(w));
                assert(s.contains(w) && w != u);
                assert(graph.edge(u, w));
                assert(graph.nbrs(u).contains(w));
                assert(graph.nbrs(u).len() > 0);
                assert(gv.contains(u));
            }
            assert(s.subset_of(gv.to_set()));
            assert(set_clique(*graph, s));
        }
        if r@.len() >= 2 {
            assert(graph.edge(r@[0], r@[1]));
        }
        if !(exists|u: u16, v: u16| graph.edge(u, v)) {
            assert(gv.len() == 0) by {
                if gv.len() > 0 {
                    let u = gv[0];
                    assert(graph.nbrs(u)[0] == graph.nbrs(u)[0]);
                    assert(graph.nbrs(u).contains(graph.nbrs(u)[0]));
                    assert(graph.edge(u, graph.nbrs(u)[0]));
                }
            }
            assert(hseed.len() != 1);
            if hseed.len() >= 2 {
                assert(graph.edge(hseed[0], hseed[1]));
                assert(false);
            }
            assert(r@ == hseed);
            assert(r@.len() == 0);
        } else {
            assert(hseed.len() >= 2);
            assert(r@.len() >= 2);
        }
    }
    r
}

/// Idempotence: two complete runs on the same graph return cliques of the
/// same length, whatever ties each run broke.
pub proof fn lemma_search_idempotent(g: Graph, r1: Seq<u16>, r2: Seq<u16>)
    requires
        g.wf(),
        max_clique_result(g, r1),
        max_clique_result(g, r2),
    ensures
        r1.len() == r2.len(),
{
    if r1.len() >= 2 {
        lemma_clique_to_set(g, r1);
        assert(set_clique(g, r1.to_set()));
        assert(r1.to_set().len() <= r2.len());
    }
    if r2.len() >= 2 {
        lemma_clique_to_set(g, r2);
        assert(set_clique(g, r2.to_set()));
        assert(r2.to_set().len() <= r1.len());
    }
}

/// The exact search never returns a shorter clique than the heuristic: the
/// heuristic's result is itself a clique, so the search's bound applies.
pub proof fn lemma_exact_beats_heuristic(g: Graph, h: Seq<u16>, r: Seq<u16>)
    requires
        g.wf(),
        is_clique(g, h),
        h.len() != 1,
        max_clique_result(g, r),
    ensures
        h.len() <= r.len(),
{
    if h.len() >= 2 {
        lemma_clique_to_set(g, h);
        assert(set_clique(g, h.to_set()));
        assert(h.to_set().len() <= r.len());
    }
}

} // verus!
