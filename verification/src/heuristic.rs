//! Greedy clique heuristic: a fast descent that seeds the lower bound.

use vstd::prelude::*;

use crate::graph::{candidates_ok, is_clique, Graph};
use crate::vset::{copy_vec, sorted_set, vset_contains, vset_remove};

verus! {

broadcast use vstd::seq_lib::group_seq_properties;

/// The best clique found so far together with the growing path of the
/// current descent.
pub struct MaxCliqueData {
    pub max_clique: Vec<u16>,
    pub current_clique: Vec<u16>,
}

impl MaxCliqueData {
    /// Fresh search state: both cliques empty.
    pub fn new() -> (d: MaxCliqueData)
        ensures
            d.max_clique@ == Seq::<u16>::empty(),
            d.current_clique@ == Seq::<u16>::empty(),
    {
        MaxCliqueData { max_clique: Vec::new(), current_clique: Vec::new() }
    }
}

impl Graph {
    /// Greedy descent: repeatedly moves to the candidate with the most
    /// connections inside the candidate set, dropping candidates whose
    /// graph-wide degree cannot beat the best clique found so far.
    pub fn clique_heuristic(&self, data: &mut MaxCliqueData, vertexes: Vec<u16>)
        requires
            self.wf(),
            is_clique(*self, old(data).current_clique@),
            is_clique(*self, old(data).max_clique@),
            candidates_ok(*self, old(data).current_clique@, vertexes@),
        ensures
            is_clique(*self, final(data).max_clique@),
            final(data).current_clique@ == old(data).current_clique@,
            final(data).max_clique@.len() >= old(data).max_clique@.len(),
            final(data).max_clique@.len() >= old(data).current_clique@.len() + (
            if vertexes@.len() > 0 {
                1int
            } else {
                0int
            }),
        decreases vertexes@.len(),
    {
        if vertexes.len() == 0 {
            if data.current_clique.len() > data.max_clique.len() {
                data.max_clique = copy_vec(&data.current_clique);
            }
            return ;
        }
        let mut best_i: usize = 0;
        let mut best_cnt: usize = self.subgraph_neighbours(&vertexes, vertexes[0]).len();
        let mut i: usize = 1;
        while i < vertexes.len()
            invariant
                self.wf(),
                candidates_ok(*self, data.current_clique@, vertexes@),
                1 <= i <= vertexes@.len(),
                best_i < i,
            decreases vertexes@.len() - i,
        {
            let cnt = self.subgraph_neighbours(&vertexes, vertexes[i]).len();
            if cnt > best_cnt {
                best_cnt = cnt;
                best_i = i;
            }
            i += 1;
        }
        let best_vertex = vertexes[best_i];
        proof {
            assert(vertexes@.contains(best_vertex));
        }
        let rest = vset_remove(&vertexes, best_vertex);
        proof {
            assert forall|k: int| 0 <= k < rest@.len() implies self.valid_vertex(
                #[trigger] rest@[k],
            ) by {
                assert(rest@.contains(rest@[k]));
                assert(vertexes@.contains(rest@[k]));
                let m = choose|m: int| 0 <= m < vertexes@.len() && vertexes@[m] == rest@[k];
                assert(self.valid_vertex(vertexes@[m]));
            }
        }
        let bound = data.max_clique.len();
        let mut child: Vec<u16> = Vec::new();
        let mut i: usize = 0;
        while i < rest.len()
            invariant
                i <= rest@.len(),
                self.wf(),
                self.valid_vertex(best_vertex),
                sorted_set(rest@),
                sorted_set(child@),
                forall|k: int| 0 <= k < rest@.len() ==> self.valid_vertex(#[trigger] rest@[k]),
                child@.len() <= i,
                forall|k: int|
                    0 <= k < child@.len() ==> rest@.subrange(0, i as int).contains(
                        #[trigger] child@[k],
                    ),
                forall|y: u16|
                    child@.contains(y) ==> rest@.contains(y) && self.edge(best_vertex, y),
            decreases rest@.len() - i,
        {
            proof {
                assert(rest@.subrange(0, i + 1) =~= rest@.subrange(0, i as int).push(
                    rest@[i as int],
                ));
                assert(rest@.contains(rest@[i as int]));
            }
            let y = rest[i];
            if vset_contains(self.neighbours(best_vertex), y) && self.degree(y) >= bound {
                proof {
                    crate::vset::lemma_sorted_push(child@, rest@, i as int);
                }
                child.push(y);
            }
            i += 1;
        }
        data.current_clique.push(best_vertex);
        proof {
            let cur = data.current_clique@;
            assert(is_clique(*self, cur));
            assert forall|k: int| 0 <= k < child@.len() implies !cur.contains(
                #[trigger] child@[k],
            ) && self.valid_vertex(child@[k]) by {
                assert(child@.contains(child@[k]));
            }
            assert forall|k: int, j: int|
                0 <= k < child@.len() && 0 <= j < cur.len() implies self.edge(
                #[trigger] child@[k],
                #[trigger] cur[j],
            ) by {
                assert(child@.contains(child@[k]));
                assert(rest@.contains(child@[k]));
                assert(vertexes@.contains(child@[k]));
                if j == cur.len() - 1 {
                    assert(self.edge(best_vertex, child@[k]));
                }
            }
            assert(candidates_ok(*self, cur, child@));
        }
        self.clique_heuristic(data, child);
        data.current_clique.pop();
        proof {
            assert(data.current_clique@ =~= old(data).current_clique@);
        }
    }

    /// Seeds the search: vertices are taken from a queue ordered by
    /// decreasing degree, and each seed whose degree can still beat the best
    /// known clique starts a greedy descent.
    pub fn max_clique_heuristic(&self, data: &mut MaxCliqueData)
        requires
            self.wf(),
            old(data).current_clique@.len() == 0,
            is_clique(*self, old(data).max_clique@),
            old(data).max_clique@.len() != 1,
        ensures
            is_clique(*self, final(data).max_clique@),
            final(data).current_clique@ == old(data).current_clique@,
            final(data).max_clique@.len() >= old(data).max_clique@.len(),
            final(data).max_clique@.len() != 1,
            old(data).max_clique@.len() == 0 && (exists|u: u16, v: u16| self.edge(u, v))
                ==> final(data).max_clique@.len() >= 2,
    {
        let mut pool: Vec<u16> = self.vertices();
        let ghost has = exists|u: u16, w: u16| self.edge(u, w);
        proof {
            if has {
                let (u, w): (u16, u16) = choose|u: u16, w: u16| self.edge(u, w);
                assert(self.nbrs(u).contains(w));
                assert(self.nbrs(u).len() > 0);
                assert(pool@.contains(u));
            }
        }
        let ghost witness: u16 = if has {
            choose|u: u16| self.valid_vertex(u) && self.nbrs(u).len() > 0 && pool@.contains(u)
        } else {
            0u16
        };
        while pool.len() > 0
            invariant
                self.wf(),
                data.current_clique@ == old(data).current_clique@,
                data.current_clique@.len() == 0,
                is_clique(*self, data.max_clique@),
                data.max_clique@.len() >= old(data).max_clique@.len(),
                data.max_clique@.len() != 1,
                sorted_set(pool@),
                forall|k: int|
                    0 <= k < pool@.len() ==> self.valid_vertex(#[trigger] pool@[k]) && self.nbrs(
                        pool@[k],
                    ).len() > 0,
                old(data).max_clique@.len() == 0 && has ==> data.max_clique@.len() >= 2
                    || pool@.contains(witness),
            decreases pool@.len(),
        {
            let mut best_i: usize = 0;
            let mut i: usize = 1;
            while i < pool.len()
                invariant
                    self.wf(),
                    1 <= i <= pool@.len(),
                    best_i < i,
                    forall|k: int|
                        0 <= k < pool@.len() ==> self.valid_vertex(#[trigger] pool@[k]),
                decreases pool@.len() - i,
            {
                let di = self.degree(pool[i]);
                let db = self.degree(pool[best_i]);
                if di > db || (di == db && pool[i] > pool[best_i]) {
                    best_i = i;
                }
                i += 1;
            }
            let node = pool[best_i];
            proof {
                assert(pool@.contains(node));
            }
            let ghost pre_pool = pool@;
            let pool2 = vset_remove(&pool, node);
            pool = pool2;
            proof {
                assert forall|k: int|
                    0 <= k < pool@.len() implies self.valid_vertex(#[trigger] pool@[k])
                        && self.nbrs(pool@[k]).len() > 0 by {
                    assert(pool@.contains(pool@[k]));
                    assert(pre_pool.contains(pool@[k]));
                    let m = choose|m: int| 0 <= m < pre_pool.len() && pre_pool[m] == pool@[k];
                    assert(self.valid_vertex(pre_pool[m]) && self.nbrs(pre_pool[m]).len() > 0);
                }
            }
            if self.degree(node) > data.max_clique.len() {
                let bound = data.max_clique.len();
                let row = self.neighbours(node);
                let mut child: Vec<u16> = Vec::new();
                let mut i: usize = 0;
                while i < row.len()
                    invariant
                        i <= row@.len(),
                        self.wf(),
                        self.valid_vertex(node),
                        row@ == self.nbrs(node),
                        sorted_set(row@),
                        sorted_set(child@),
                        child@.len() <= i,
                        forall|k: int|
                            0 <= k < child@.len() ==> row@.subrange(0, i as int).contains(
                                #[trigger] child@[k],
                            ),
                        forall|y: u16|
                            child@.contains(y) ==> row@.contains(y) && self.nbrs(y).len() > bound,
                        bound == 0 ==> child@.len() == i,
                    decreases row@.len() - i,
                {
                    proof {
                        assert(row@.subrange(0, i + 1) =~= row@.subrange(0, i as int).push(
                            row@[i as int],
                        ));
                        assert(row@.contains(row@[i as int]));
                        assert(self.edge(node, row@[i as int]));
                        assert(self.edge(row@[i as int], node));
                        assert(self.nbrs(row@[i as int]).contains(node));
                    }
                    let y = row[i];
                    if self.degree(y) > bound {
                        proof {
                            crate::vset::lemma_sorted_push(child@, row@, i as int);
                        }
                        child.push(y);
                    }
                    i += 1;
                }
                data.current_clique.push(node);
                proof {
                    let cur = data.current_clique@;
                    assert(cur.len() == 1 && cur[0] == node);
                    assert forall|k: int| 0 <= k < child@.len() implies !cur.contains(
                        #[trigger] child@[k],
                    ) && self.valid_vertex(child@[k]) by {
                        assert(child@.contains(child@[k]));
                        assert(row@.contains(child@[k]));
                        assert(self.edge(node, child@[k]));
                        if cur.contains(child@[k]) {
                            assert(child@[k] == node);
                        }
                    }
                    assert forall|k: int, j: int|
                        0 <= k < child@.len() && 0 <= j < cur.len() implies self.edge(
                        #[trigger] child@[k],
                        #[trigger] cur[j],
                    ) by {
                        assert(child@.contains(child@[k]));
                        assert(row@.contains(child@[k]));
                        assert(self.edge(node, child@[k]));
                    }
                    assert(candidates_ok(*self, cur, child@));
                    assert(is_clique(*self, cur));
                }
                let ghost mid_max = data.max_clique@;
                self.clique_heuristic(data, child);
                data.current_clique.pop();
                proof {
                    assert(data.current_clique@ =~= old(data).current_clique@);
                    if mid_max.len() == 0 {
                        assert(self.nbrs(node).len() > 0);
                        assert(row@.contains(row@[0]));
                        assert(child@.len() > 0);
                        assert(data.max_clique@.len() >= 2);
                    }
                }
            }
        }
    }
}

} // verus!
