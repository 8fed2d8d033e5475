//! Greedy vertex coloring of a subset, used as a clique upper bound.

use vstd::prelude::*;

use crate::graph::{Graph, set_clique};
use crate::vset::sorted_set;

verus! {

broadcast use vstd::seq_lib::group_seq_properties, vstd::set::group_set_axioms;

/// No vertex is assigned twice.
pub open spec fn distinct_firsts(res: Seq<(u16, usize)>) -> bool {
    forall|i: int, j: int| 0 <= i < j < res.len() ==> (#[trigger] res[i]).0 != (#[trigger] res[j]).0
}

/// Adjacent vertices never share a color.
pub open spec fn proper(g: Graph, res: Seq<(u16, usize)>) -> bool {
    forall|i: int, j: int|
        0 <= i < res.len() && 0 <= j < res.len() && i != j && g.edge(
            (#[trigger] res[i]).0,
            (#[trigger] res[j]).0,
        ) ==> res[i].1 != res[j].1
}

/// `v` received some color.
pub open spec fn assigns(res: Seq<(u16, usize)>, v: u16) -> bool {
    exists|j: int| 0 <= j < res.len() && (#[trigger] res[j]).0 == v
}

/// `v` received a color of at most `cmax`.
pub open spec fn assigns_le(res: Seq<(u16, usize)>, v: u16, cmax: int) -> bool {
    exists|j: int| 0 <= j < res.len() && (#[trigger] res[j]).0 == v && res[j].1 <= cmax
}

/// Some entry gives a neighbour of `v` the color `c2`.
pub open spec fn neighbour_has_color(g: Graph, res: Seq<(u16, usize)>, v: u16, c2: int) -> bool {
    exists|i: int| 0 <= i < res.len() && g.edge(v, (#[trigger] res[i]).0) && res[i].1 == c2
}

/// Entry `j` holds the smallest color that no colored neighbour of its
/// vertex has taken: every lower color is already on some neighbour.
pub open spec fn smallest_free(g: Graph, res: Seq<(u16, usize)>, j: int) -> bool {
    forall|c2: int| 0 <= c2 < res[j].1 ==> #[trigger] neighbour_has_color(g, res, res[j].0, c2)
}

/// The color already given to `y`, if any.
fn find_color(res: &Vec<(u16, usize)>, y: u16) -> (r: Option<usize>)
    ensures
        r matches Some(c) ==> exists|j: int|
            0 <= j < res@.len() && (#[trigger] res@[j]) == (y, c),
        r is None ==> forall|j: int| 0 <= j < res@.len() ==> (#[trigger] res@[j]).0 != y,
{
    let mut i: usize = 0;
    while i < res.len()
        invariant
            i <= res@.len(),
            forall|j: int| 0 <= j < i ==> (#[trigger] res@[j]).0 != y,
        decreases res@.len() - i,
    {
        if res[i].0 == y {
            return Some(res[i].1);
        }
        i += 1;
    }
    None
}

impl Graph {
    /// Greedy coloring of the subset `vertexes`: vertices are taken in order
    /// of decreasing degree within the subset, and each receives the smallest
    /// color not yet given to a colored neighbour inside the subset.
    pub fn greedy_coloring(&self, vertexes: &Vec<u16>) -> (res: Vec<(u16, usize)>)
        requires
            self.wf(),
            sorted_set(vertexes@),
            forall|k: int| 0 <= k < vertexes@.len() ==> self.valid_vertex(#[trigger] vertexes@[k]),
        ensures
            res@.len() == vertexes@.len(),
            distinct_firsts(res@),
            proper(*self, res@),
            forall|j: int|
                0 <= j < res@.len() ==> vertexes@.contains((#[trigger] res@[j]).0) && res@[j].1
                    <= j,
            forall|v: u16| #[trigger] vertexes@.contains(v) ==> assigns(res@, v),
            forall|j: int| 0 <= j < res@.len() ==> smallest_free(*self, res@, j),
    {
        let mut degs: Vec<(u16, usize)> = Vec::new();
        let mut i: usize = 0;
        while i < vertexes.len()
            invariant
                i <= vertexes@.len(),
                self.wf(),
                sorted_set(vertexes@),
                forall|k: int|
                    0 <= k < vertexes@.len() ==> self.valid_vertex(#[trigger] vertexes@[k]),
                degs@.len() == i,
                forall|k: int| 0 <= k < i ==> (#[trigger] degs@[k]).0 == vertexes@[k],
            decreases vertexes@.len() - i,
        {
            let sn = self.subgraph_neighbours(vertexes, vertexes[i]);
            degs.push((vertexes[i], sn.len()));
            i += 1;
        }
        let mut res: Vec<(u16, usize)> = Vec::new();
        proof {
            crate::vset::lemma_sorted_set_no_duplicates(vertexes@);
            assert forall|v: u16| #[trigger] vertexes@.contains(v) implies assigns(res@, v)
                || assigns(degs@, v) by {
                let k = choose|k: int| 0 <= k < vertexes@.len() && vertexes@[k] == v;
                assert((degs@[k]).0 == v);
            }
            assert forall|a: int, b: int| 0 <= a < b < degs@.len() implies (#[trigger] degs@[a]).0
                != (#[trigger] degs@[b]).0 by {
                assert(vertexes@[a] != vertexes@[b]);
            }
            assert forall|k: int| 0 <= k < degs@.len() implies vertexes@.contains(
                (#[trigger] degs@[k]).0,
            ) by {
                assert(degs@[k].0 == vertexes@[k]);
            }
        }
        while degs.len() > 0
            invariant
                self.wf(),
                sorted_set(vertexes@),
                forall|k: int|
                    0 <= k < vertexes@.len() ==> self.valid_vertex(#[trigger] vertexes@[k]),
                res@.len() + degs@.len() == vertexes@.len(),
                distinct_firsts(res@),
                distinct_firsts(degs@),
                proper(*self, res@),
                forall|a: int, b: int|
                    0 <= a < res@.len() && 0 <= b < degs@.len() ==> (#[trigger] res@[a]).0 != (
                    #[trigger] degs@[b]).0,
                forall|j: int|
                    0 <= j < res@.len() ==> vertexes@.contains((#[trigger] res@[j]).0) && res@[j].1
                        <= j,
                forall|k: int| 0 <= k < degs@.len() ==> vertexes@.contains((#[trigger] degs@[k]).0),
                forall|v: u16| #[trigger] vertexes@.contains(v) ==> assigns(res@, v) || assigns(
                    degs@,
                    v,
                ),
                forall|j: int| 0 <= j < res@.len() ==> smallest_free(*self, res@, j),
            decreases degs@.len(),
        {
            let mut best: usize = 0;
            let mut j: usize = 1;
            while j < degs.len()
                invariant
                    best < j || (j == 0 && best == 0),
                    best < degs@.len() || (degs@.len() == 0 && best == 0),
                    j <= degs@.len(),
                decreases degs@.len() - j,
            {
                if degs[j].1 > degs[best].1 {
                    best = j;
                }
                j += 1;
            }
            let ghost pre_degs = degs@;
            let picked = degs.remove(best);
            let node = picked.0;
            proof {
                assert(vertexes@.contains(node));
                let kx = choose|kx: int| 0 <= kx < vertexes@.len() && vertexes@[kx] == node;
                assert(self.valid_vertex(vertexes@[kx]));
                assert forall|k: int|
                    0 <= k < degs@.len() implies degs@[k] == pre_degs[k] || degs@[k] == pre_degs[k
                    + 1] by {
                    if k < best {
                        assert(degs@[k] == pre_degs[k]);
                    } else {
                        assert(degs@[k] == pre_degs[k + 1]);
                    }
                }
            }
            let sn = self.subgraph_neighbours(vertexes, node);
            let total = vertexes.len();
            proof {
                assert(res@.len() < total);
            }
            let cap = res.len() + 1;
            let mut used: Vec<bool> = Vec::new();
            while used.len() < cap
                invariant
                    used@.len() <= cap,
                    forall|k: int| 0 <= k < used@.len() ==> !(#[trigger] used@[k]),
                decreases cap - used@.len(),
            {
                used.push(false);
            }
            proof {
                assert(used@.len() == res@.len() + 1);
            }
            let mut t: usize = 0;
            while t < sn.len()
                invariant
                    t <= sn@.len(),
                    used@.len() == res@.len() + 1,
                    distinct_firsts(res@),
                    forall|j2: int|
                        0 <= j2 < res@.len() ==> vertexes@.contains((#[trigger] res@[j2]).0)
                            && res@[j2].1 <= j2,
                    !used@[res@.len() as int],
                    forall|j2: int|
                        0 <= j2 < res@.len() && sn@.subrange(0, t as int).contains(
                            (#[trigger] res@[j2]).0,
                        ) ==> used@[res@[j2].1 as int],
                    forall|c2: int|
                        0 <= c2 < used@.len() && #[trigger] used@[c2] ==> exists|i: int|
                            #![auto]
                            0 <= i < res@.len() && (res@[i]).1 == c2 && sn@.contains((res@[i]).0),
                decreases sn@.len() - t,
            {
                proof {
                    assert(sn@.subrange(0, t + 1) =~= sn@.subrange(0, t as int).push(
                        sn@[t as int],
                    ));
                }
                let ghost used_pre = used@;
                match find_color(&res, sn[t]) {
                    Some(c) => {
                        proof {
                            let j2 = choose|j2: int|
                                0 <= j2 < res@.len() && (#[trigger] res@[j2]) == (
                                sn@[t as int],
                                c,
                                );
                            assert(res@[j2].1 <= j2);
                        }
                        used[c] = true;
                        proof {
                            assert(used@ == used_pre.update(c as int, true));
                            assert(sn@.contains(sn@[t as int]));
                            let j2 = choose|j2: int|
                                0 <= j2 < res@.len() && (#[trigger] res@[j2]) == (
                                sn@[t as int],
                                c,
                                );
                            assert forall|c2: int|
                                0 <= c2 < used@.len() && #[trigger] used@[c2] implies exists|
                                i: int,
                            |
                                #![auto]
                                0 <= i < res@.len() && (res@[i]).1 == c2 && sn@.contains(
                                    (res@[i]).0,
                                ) by {
                                if c2 == c as int {
                                    assert(0 <= j2 < res@.len() && (res@[j2]).1 == c2
                                        && sn@.contains((res@[j2]).0));
                                } else {
                                    assert(used_pre[c2]);
                                }
                            }
                        }
                    },
                    None => {},
                }
                t += 1;
            }
            proof {
                assert(sn@.subrange(0, sn@.len() as int) =~= sn@);
            }
            let mut c: usize = 0;
            while c < used.len() && used[c]
                invariant
                    c <= used@.len(),
                    forall|k: int| 0 <= k < c ==> used@[k],
                decreases used@.len() - c,
            {
                c += 1;
            }
            proof {
                if c == used@.len() {
                    assert(used@[res@.len() as int]);
                }
            }
            let ghost pre_res = res@;
            res.push((node, c));
            proof {
                assert forall|a: int, b: int|
                    0 <= a < res@.len() && 0 <= b < res@.len() && a != b && self.edge(
                        (#[trigger] res@[a]).0,
                        (#[trigger] res@[b]).0,
                    ) implies res@[a].1 != res@[b].1 by {
                    if a < pre_res.len() && b < pre_res.len() {
                    } else if b == pre_res.len() && a < pre_res.len() {
                        assert(self.edge(node, res@[a].0));
                        assert(sn@.contains(res@[a].0));
                        assert(used@[res@[a].1 as int]);
                    } else if a == pre_res.len() && b < pre_res.len() {
                        assert(self.edge(res@[b].0, node));
                        assert(self.edge(node, res@[b].0));
                        assert(sn@.contains(res@[b].0));
                        assert(used@[res@[b].1 as int]);
                    }
                }
                assert forall|j2: int| 0 <= j2 < res@.len() implies smallest_free(
                    *self,
                    res@,
                    j2,
                ) by {
                    if j2 < pre_res.len() {
                        assert(smallest_free(*self, pre_res, j2));
                        assert forall|c2: int|
                            0 <= c2 < res@[j2].1 implies #[trigger] neighbour_has_color(
                            *self,
                            res@,
                            res@[j2].0,
                            c2,
                        ) by {
                            assert(res@[j2] == pre_res[j2]);
                            assert(neighbour_has_color(*self, pre_res, pre_res[j2].0, c2));
                            let i = choose|i: int|
                                0 <= i < pre_res.len() && self.edge(
                                    pre_res[j2].0,
                                    (#[trigger] pre_res[i]).0,
                                ) && pre_res[i].1 == c2;
                            assert(res@[i] == pre_res[i]);
                            assert(self.edge(res@[j2].0, (res@[i]).0) && res@[i].1 == c2);
                        }
                    } else {
                        assert forall|c2: int|
                            0 <= c2 < res@[j2].1 implies #[trigger] neighbour_has_color(
                            *self,
                            res@,
                            res@[j2].0,
                            c2,
                        ) by {
                            assert(used@[c2]);
                            let i = choose|i: int|
                                #![auto]
                                0 <= i < pre_res.len() && (pre_res[i]).1 == c2 && sn@.contains(
                                    (pre_res[i]).0,
                                );
                            assert(self.edge(node, pre_res[i].0));
                            assert(res@[i] == pre_res[i]);
                            assert(self.edge(res@[j2].0, (res@[i]).0) && res@[i].1 == c2);
                        }
                    }
                }
                assert forall|v: u16| #[trigger] vertexes@.contains(v) implies assigns(res@, v)
                    || assigns(degs@, v) by {
                    if assigns(pre_res, v) {
                        let j2 = choose|j2: int|
                            0 <= j2 < pre_res.len() && (#[trigger] pre_res[j2]).0 == v;
                        assert((res@[j2]).0 == v);
                    } else if assigns(pre_degs, v) {
                        let j2 = choose|j2: int|
                            0 <= j2 < pre_degs.len() && (#[trigger] pre_degs[j2]).0 == v;
                        if j2 == best {
                            assert((res@[pre_res.len() as int]).0 == v);
                        } else if j2 < best {
                            assert((degs@[j2]).0 == v);
                        } else {
                            assert((degs@[j2 - 1]).0 == v);
                        }
                    }
                }
            }
        }
        res
    }
}

/// Coloring soundness, second half: a clique whose members all received a
/// color of at most `cmax` from one proper assignment has at most `cmax + 1`
/// members, because clique members take pairwise distinct colors.
pub proof fn lemma_clique_le_colors(g: Graph, res: Seq<(u16, usize)>, s: Set<u16>, cmax: int)
    requires
        g.wf(),
        distinct_firsts(res),
        proper(g, res),
        set_clique(g, s),
        cmax >= -1,
        forall|v: u16| #[trigger] s.contains(v) ==> assigns_le(res, v, cmax),
    ensures
        s.len() <= cmax + 1,
    decreases cmax + 1,
{
    if s.len() > 0 {
        let y = s.choose();
        assert(s.contains(y));
        let jy = choose|j: int| 0 <= j < res.len() && (#[trigger] res[j]).0 == y && res[j].1
            <= cmax;
        if cmax < 0 {
            assert(false);
        } else if exists|v: u16, j: int|
            #![trigger s.contains(v), res[j]]
            s.contains(v) && 0 <= j < res.len() && res[j].0 == v && res[j].1 == cmax {
            let (v0, j0): (u16, int) = choose|v: u16, j: int|
                #![trigger s.contains(v), res[j]]
                s.contains(v) && 0 <= j < res.len() && res[j].0 == v && res[j].1 == cmax;
            let s2 = s.remove(v0);
            assert forall|v: u16| #[trigger] s2.contains(v) implies assigns_le(
                res,
                v,
                cmax - 1,
            ) by {
                let jv = choose|j: int|
                    0 <= j < res.len() && (#[trigger] res[j]).0 == v && res[j].1 <= cmax;
                if res[jv].1 == cmax {
                    assert(v != v0);
                    assert(g.edge(v, v0));
                    assert(jv != j0);
                    assert(res[jv].1 != res[j0].1);
                    assert(false);
                }
                assert(res[jv].1 <= cmax - 1);
            }
            lemma_clique_le_colors(g, res, s2, cmax - 1);
            assert(s2.len() == s.len() - 1);
        } else {
            assert forall|v: u16| #[trigger] s.contains(v) implies assigns_le(
                res,
                v,
                cmax - 1,
            ) by {
                let jv = choose|j: int|
                    0 <= j < res.len() && (#[trigger] res[j]).0 == v && res[j].1 <= cmax;
                assert(!(res[jv].1 == cmax));
            }
            lemma_clique_le_colors(g, res, s, cmax - 1);
        }
    }
}

/// Coloring soundness for a colored subset: if every color stays at or
/// below `cmax`, then no clique inside the subset has more than `cmax + 1`
/// members — the greedy bound is an upper bound on the clique number.
pub proof fn lemma_coloring_bounds_subset(
    g: Graph,
    vertexes: Seq<u16>,
    res: Seq<(u16, usize)>,
    s: Set<u16>,
    cmax: int,
)
    requires
        g.wf(),
        distinct_firsts(res),
        proper(g, res),
        forall|v: u16| #[trigger] vertexes.contains(v) ==> assigns(res, v),
        forall|j: int| 0 <= j < res.len() ==> (#[trigger] res[j]).1 <= cmax,
        cmax >= -1,
        set_clique(g, s),
        forall|v: u16| #[trigger] s.contains(v) ==> vertexes.contains(v),
    ensures
        s.len() <= cmax + 1,
{
    assert forall|v: u16| #[trigger] s.contains(v) implies assigns_le(res, v, cmax) by {
        assert(vertexes.contains(v));
        assert(assigns(res, v));
        let j = choose|j: int| 0 <= j < res.len() && (#[trigger] res[j]).0 == v;
        assert(res[j].1 <= cmax);
    }
    lemma_clique_le_colors(g, res, s, cmax);
}

} // verus!
