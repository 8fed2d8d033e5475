//! Immutable adjacency structure, built once from a list of undirected edges.

use vstd::prelude::*;

use crate::vset::{sorted_set, vset_contains, lemma_sorted_set_no_duplicates};

verus! {

broadcast use vstd::seq_lib::group_seq_properties;

/// Adjacency lists indexed by vertex identifier.  Row `v` holds the
/// neighbours of `v` as a strictly increasing vector.
pub struct Graph {
    pub adj: Vec<Vec<u16>>,
}

impl Graph {
    /// Number of identifier slots; every vertex identifier is below it.
    pub open spec fn n(self) -> int {
        self.adj@.len() as int
    }

    pub open spec fn valid_vertex(self, v: u16) -> bool {
        (v as int) < self.n()
    }

    /// The neighbour list of `v`.
    pub open spec fn nbrs(self, v: u16) -> Seq<u16> {
        self.adj@[v as int]@
    }

    /// `u` and `v` are joined by an edge.
    pub open spec fn edge(self, u: u16, v: u16) -> bool {
        self.valid_vertex(u) && self.nbrs(u).contains(v)
    }

    /// The structural invariant: identifiers fit in 16 bits, every row is a
    /// sorted set of valid identifiers, there are no self-loops, and the
    /// relation is symmetric.
    pub open spec fn wf(self) -> bool {
        &&& self.n() <= 0x10000
        &&& forall|v: int| 0 <= v < self.n() ==> sorted_set(#[trigger] self.adj@[v]@)
        &&& forall|v: int, j: int|
            0 <= v < self.n() && 0 <= j < self.adj@[v]@.len() ==> ((
            #[trigger] self.adj@[v]@[j]) as int) < self.n() && self.adj@[v]@[j] != v
        &&& forall|u: u16, v: u16| #[trigger] self.edge(u, v) ==> self.edge(v, u)
    }
}

/// `c` is a clique of `g`: distinct valid vertices, pairwise adjacent.
pub open spec fn is_clique(g: Graph, c: Seq<u16>) -> bool {
    &&& c.no_duplicates()
    &&& forall|i: int| 0 <= i < c.len() ==> g.valid_vertex(#[trigger] c[i])
    &&& forall|i: int, j: int|
        0 <= i < c.len() && 0 <= j < c.len() && i != j ==> g.edge(#[trigger] c[i], #[trigger] c[j])
}

/// A clique given as a set of vertices.
pub open spec fn set_clique(g: Graph, s: Set<u16>) -> bool {
    &&& s.finite()
    &&& forall|v: u16| s.contains(v) ==> g.valid_vertex(v)
    &&& forall|u: u16, v: u16| s.contains(u) && s.contains(v) && u != v ==> g.edge(u, v)
}

/// `cands` may extend the partial clique `clique`: a sorted set of valid
/// vertices, disjoint from the clique and adjacent to each of its members.
pub open spec fn candidates_ok(g: Graph, clique: Seq<u16>, cands: Seq<u16>) -> bool {
    &&& sorted_set(cands)
    &&& forall|i: int| 0 <= i < cands.len() ==> g.valid_vertex(#[trigger] cands[i])
    &&& forall|i: int| 0 <= i < cands.len() ==> !clique.contains(#[trigger] cands[i])
    &&& forall|i: int, j: int|
        0 <= i < cands.len() && 0 <= j < clique.len() ==> g.edge(#[trigger] cands[i], #[trigger] clique[j])
}

impl Graph {
    /// Inserts `x` into a sorted neighbour row.
    fn insert_sorted(row: &mut Vec<u16>, x: u16)
        requires
            sorted_set(old(row)@),
        ensures
            sorted_set(final(row)@),
            forall|y: u16| final(row)@.contains(y) <==> old(row)@.contains(y) || y == x,
    {
        let mut i: usize = 0;
        while i < row.len() && row[i] < x
            invariant
                i <= row@.len(),
                sorted_set(row@),
                row@ == old(row)@,
                forall|k: int| 0 <= k < i ==> row@[k] < x,
            decreases row@.len() - i,
        {
            i += 1;
        }
        if i < row.len() && row[i] == x {
            proof {
                assert(row@.contains(row@[i as int]));
            }
            return ;
        }
        let ghost pre = row@;
        row.insert(i, x);
        proof {
            assert forall|a: int, b: int| 0 <= a < b < row@.len() implies row@[a] < row@[b] by {
                assert(row@ == pre.insert(i as int, x));
                if a < i && b == i {
                } else if a == i && b > i {
                    assert(row@[b] == pre[b - 1]);
                    assert(pre[b - 1] > x) by {
                        if b - 1 > i {
                            assert(pre[i as int] < pre[b - 1]);
                        }
                    }
                } else if a < i && b > i {
                    assert(row@[b] == pre[b - 1]);
                } else if a > i && b > i {
                    assert(row@[a] == pre[a - 1]);
                    assert(row@[b] == pre[b - 1]);
                }
            }
            assert forall|y: u16| row@.contains(y) <==> pre.contains(y) || y == x by {
                assert(row@ == pre.insert(i as int, x));
                if pre.contains(y) {
                    let m = choose|m: int| 0 <= m < pre.len() && pre[m] == y;
                    if m < i {
                        assert(row@[m] == y);
                    } else {
                        assert(row@[m + 1] == y);
                    }
                }
                assert(row@[i as int] == x);
                if row@.contains(y) {
                    let m = choose|m: int| 0 <= m < row@.len() && row@[m] == y;
                    if m < i {
                        assert(pre[m] == y);
                    } else if m > i {
                        assert(pre[m - 1] == y);
                    }
                }
            }
        }
    }

    /// Records the undirected edge `{a, b}` in both rows.
    fn insert_edge(&mut self, a: u16, b: u16)
        requires
            old(self).wf(),
            old(self).valid_vertex(a),
            old(self).valid_vertex(b),
            a != b,
        ensures
            final(self).wf(),
            final(self).n() == old(self).n(),
            forall|u: u16, v: u16|
                final(self).edge(u, v) <==> old(self).edge(u, v) || (u == a && v == b) || (u == b
                    && v == a),
    {
        let ghost pre = *self;
        let row_a = &mut self.adj[a as usize];
        Self::insert_sorted(row_a, b);
        let ghost mid = *self;
        proof {
            assert(mid.adj@ == pre.adj@.update(a as int, mid.adj@[a as int]));
        }
        let row_b = &mut self.adj[b as usize];
        Self::insert_sorted(row_b, a);
        proof {
            let post = *self;
            assert(post.adj@ == mid.adj@.update(b as int, post.adj@[b as int]));
            assert forall|v: int| 0 <= v < post.n() implies sorted_set(#[trigger] post.adj@[v]@) by {
                if v != a && v != b {
                    assert(post.adj@[v]@ == pre.adj@[v]@);
                }
            }
            assert forall|v: int, j: int|
                0 <= v < post.n() && 0 <= j < post.adj@[v]@.len() implies ((
            #[trigger] post.adj@[v]@[j]) as int) < post.n() && post.adj@[v]@[j] != v by {
                if v == a as int {
                    assert(post.adj@[v]@.contains(post.adj@[v]@[j]));
                    let y = post.adj@[v]@[j];
                    assert(pre.adj@[v]@.contains(y) || y == b);
                    if pre.adj@[v]@.contains(y) {
                        let m = choose|m: int| 0 <= m < pre.adj@[v]@.len() && pre.adj@[v]@[m] == y;
                        assert((pre.adj@[v]@[m] as int) < pre.n() && pre.adj@[v]@[m] != v);
                    }
                } else if v == b as int {
                    assert(post.adj@[v]@.contains(post.adj@[v]@[j]));
                    let y = post.adj@[v]@[j];
                    assert(pre.adj@[v]@.contains(y) || y == a);
                    if pre.adj@[v]@.contains(y) {
                        let m = choose|m: int| 0 <= m < pre.adj@[v]@.len() && pre.adj@[v]@[m] == y;
                        assert((pre.adj@[v]@[m] as int) < pre.n() && pre.adj@[v]@[m] != v);
                    }
                } else {
                    assert(post.adj@[v]@ == pre.adj@[v]@);
                }
            }
            assert forall|u: u16, v: u16|
                post.edge(u, v) <==> pre.edge(u, v) || (u == a && v == b) || (u == b && v == a) by {
                if (u as int) < post.n() {
                    if u == a {
                        assert(post.nbrs(u).contains(v) <==> pre.nbrs(u).contains(v) || v == b);
                    } else if u == b {
                        assert(post.nbrs(u).contains(v) <==> pre.nbrs(u).contains(v) || v == a);
                    } else {
                        assert(post.nbrs(u) == pre.nbrs(u));
                    }
                }
            }
            assert forall|u: u16, v: u16| #[trigger] post.edge(u, v) implies post.edge(v, u) by {
                if pre.edge(u, v) {
                    assert(pre.edge(v, u));
                }
            }
        }
    }

    /// Builds the graph from a list of undirected edges.  Both orientations
    /// are recorded, duplicates collapse, and self-loops are discarded.
    pub fn build(edges: &Vec<(u16, u16)>) -> (g: Graph)
        ensures
            g.wf(),
            forall|u: u16, v: u16|
                g.edge(u, v) <==> u != v && (edges@.contains((u, v)) || edges@.contains((v, u))),
    {
        let mut m: usize = 0;
        let mut i: usize = 0;
        while i < edges.len()
            invariant
                i <= edges@.len(),
                m <= 0x10000,
                forall|k: int|
                    0 <= k < i ==> ((#[trigger] edges@[k]).0 as int) < m && (edges@[k].1 as int)
                        < m,
            decreases edges@.len() - i,
        {
            let (a, b) = edges[i];
            if (a as usize) >= m {
                m = a as usize + 1;
            }
            if (b as usize) >= m {
                m = b as usize + 1;
            }
            i += 1;
        }
        let mut adj: Vec<Vec<u16>> = Vec::new();
        while adj.len() < m
            invariant
                adj@.len() <= m,
                forall|v: int| 0 <= v < adj@.len() ==> (#[trigger] adj@[v]@) == Seq::<u16>::empty(),
            decreases m - adj@.len(),
        {
            adj.push(Vec::new());
        }
        let mut g = Graph { adj };
        proof {
            assert(forall|u: u16, v: u16| !g.edge(u, v));
        }
        let mut i: usize = 0;
        while i < edges.len()
            invariant
                i <= edges@.len(),
                g.wf(),
                g.n() == m as int,
                forall|k: int|
                    0 <= k < edges@.len() ==> ((#[trigger] edges@[k]).0 as int) < m && (
                    edges@[k].1 as int) < m,
                forall|u: u16, v: u16|
                    g.edge(u, v) <==> u != v && (edges@.subrange(0, i as int).contains((u, v))
                        || edges@.subrange(0, i as int).contains((v, u))),
            decreases edges@.len() - i,
        {
            proof {
                assert(edges@.subrange(0, i + 1) =~= edges@.subrange(0, i as int).push(
                    edges@[i as int],
                ));
            }
            let (a, b) = edges[i];
            if a != b {
                g.insert_edge(a, b);
            }
            i += 1;
        }
        proof {
            assert(edges@.subrange(0, edges@.len() as int) =~= edges@);
        }
        g
    }

    /// All vertices that carry at least one edge, in increasing order.
    pub fn vertices(&self) -> (r: Vec<u16>)
        requires
            self.wf(),
        ensures
            sorted_set(r@),
            forall|k: int|
                0 <= k < r@.len() ==> self.valid_vertex(#[trigger] r@[k]) && self.nbrs(
                    r@[k],
                ).len() > 0,
            forall|u: u16|
                self.valid_vertex(u) && self.nbrs(u).len() > 0 ==> #[trigger] r@.contains(u),
    {
        let mut r: Vec<u16> = Vec::new();
        let mut v: usize = 0;
        while v < self.adj.len()
            invariant
                self.wf(),
                v <= self.n(),
                sorted_set(r@),
                forall|k: int| 0 <= k < r@.len() ==> (#[trigger] r@[k] as int) < v,
                forall|k: int|
                    0 <= k < r@.len() ==> self.valid_vertex(#[trigger] r@[k]) && self.nbrs(
                        r@[k],
                    ).len() > 0,
                forall|u: u16|
                    (u as int) < v && self.valid_vertex(u) && self.nbrs(u).len() > 0
                        ==> #[trigger] r@.contains(u),
            decreases self.n() - v,
        {
            let ghost pre = r@;
            if self.adj[v].len() > 0 {
                r.push(v as u16);
                proof {
                    assert forall|a: int, b: int| 0 <= a < b < r@.len() implies r@[a] < r@[b] by {
                        if b == r@.len() - 1 {
                            assert((pre[a] as int) < v);
                        }
                    }
                }
            }
            proof {
                assert forall|u: u16|
                    (u as int) < v + 1 && self.valid_vertex(u) && self.nbrs(u).len() > 0 implies
                r@.contains(u) by {
                    if (u as int) < v {
                        assert(pre.contains(u));
                        let m = choose|m: int| 0 <= m < pre.len() && pre[m] == u;
                        assert(r@[m] == u);
                    } else {
                        assert(u == v as u16);
                        assert(r@[r@.len() - 1] == u);
                    }
                }
            }
            v += 1;
        }
        r
    }

    /// Size of the neighbour set of `node`.
    pub fn degree(&self, node: u16) -> (d: usize)
        requires
            self.valid_vertex(node),
        ensures
            d == self.nbrs(node).len(),
    {
        self.adj[node as usize].len()
    }

    /// Read-only view of the neighbour set of `node`.
    pub fn neighbours(&self, node: u16) -> (r: &Vec<u16>)
        requires
            self.valid_vertex(node),
        ensures
            r@ == self.nbrs(node),
    {
        &self.adj[node as usize]
    }

    /// Neighbours of `node` within `subgraph`: the candidate-shrinking step.
    pub fn subgraph_neighbours(&self, subgraph: &Vec<u16>, node: u16) -> (r: Vec<u16>)
        requires
            self.wf(),
            self.valid_vertex(node),
            sorted_set(subgraph@),
        ensures
            sorted_set(r@),
            forall|y: u16| r@.contains(y) <==> subgraph@.contains(y) && self.edge(node, y),
            r@.len() <= subgraph@.len(),
    {
        let mut r: Vec<u16> = Vec::new();
        let mut i: usize = 0;
        while i < subgraph.len()
            invariant
                i <= subgraph@.len(),
                self.wf(),
                self.valid_vertex(node),
                sorted_set(subgraph@),
                sorted_set(r@),
                r@.len() <= i,
                forall|k: int|
                    0 <= k < r@.len() ==> subgraph@.subrange(0, i as int).contains(
                        #[trigger] r@[k],
                    ),
                forall|y: u16|
                    r@.contains(y) <==> subgraph@.subrange(0, i as int).contains(y) && self.edge(
                        node,
                        y,
                    ),
            decreases subgraph@.len() - i,
        {
            proof {
                assert(subgraph@.subrange(0, i + 1) =~= subgraph@.subrange(0, i as int).push(
                    subgraph@[i as int],
                ));
            }
            if vset_contains(self.neighbours(node), subgraph[i]) {
                proof {
                    crate::vset::lemma_sorted_push(r@, subgraph@, i as int);
                }
                r.push(subgraph[i]);
            }
            i += 1;
        }
        proof {
            assert(subgraph@.subrange(0, subgraph@.len() as int) =~= subgraph@);
        }
        r
    }
}

/// A clique has no more members than there are identifier slots.
pub proof fn lemma_clique_len(g: Graph, c: Seq<u16>)
    requires
        g.wf(),
        is_clique(g, c),
    ensures
        c.len() <= g.n(),
{
    let f = |v: u16| v as int;
    let ints = c.map_values(f);
    assert(vstd::relations::injective(f)) by {
        assert forall|x1: u16, x2: u16| #[trigger] f(x1) == #[trigger] f(x2) implies x1 == x2 by {}
    }
    c.lemma_no_duplicates_injective(f);
    ints.unique_seq_to_set();
    assert(ints.to_set().subset_of(vstd::set_lib::set_int_range(0, g.n()))) by {
        assert forall|x: int| ints.to_set().contains(x) implies 0 <= x < g.n() by {
            let k = choose|k: int| 0 <= k < ints.len() && ints[k] == x;
            assert(g.valid_vertex(c[k]));
        }
    }
    vstd::set_lib::lemma_int_range(0, g.n());
    vstd::set_lib::lemma_len_subset(ints.to_set(), vstd::set_lib::set_int_range(0, g.n()));
}

/// A clique sequence, seen as a set, is a clique of the same cardinality.
pub proof fn lemma_clique_to_set(g: Graph, c: Seq<u16>)
    requires
        g.wf(),
        is_clique(g, c),
    ensures
        set_clique(g, c.to_set()),
        c.to_set().len() == c.len(),
{
    c.unique_seq_to_set();
    let s = c.to_set();
    assert forall|u: u16, v: u16| s.contains(u) && s.contains(v) && u != v implies g.edge(
        u,
        v,
    ) by {
        let i = choose|i: int| 0 <= i < c.len() && c[i] == u;
        let j = choose|j: int| 0 <= j < c.len() && c[j] == v;
        assert(g.edge(c[i], c[j]));
    }
    assert forall|v: u16| s.contains(v) implies g.valid_vertex(v) by {
        let i = choose|i: int| 0 <= i < c.len() && c[i] == v;
        assert(g.valid_vertex(c[i]));
    }
    vstd::seq_lib::seq_to_set_is_finite(c);
}

} // verus!
