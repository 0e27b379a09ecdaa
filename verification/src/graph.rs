//! The dense weighted-graph model.
//!
//! A graph over vertex ids `1..=n` (id 0 is reserved) keeps an
//! `(n+1) x (n+1)` symmetric weight matrix in one flat, row-major buffer.
//! A weight of zero means "no edge" while the graph is being built or
//! loaded; `set_zero_to_max` later replaces every zero off-diagonal entry
//! with the maximal weight, so cost summation can treat the graph as
//! complete.

use vstd::prelude::*;

use crate::rng::Rng;

verus! {

/// Largest supported vertex count: keeps `(n+1) * (n+1)` well inside
/// `usize` on every target, and keeps tour costs well inside `u64`.
pub const MAX_VERTICES: usize = 46340;

/// Everything that can go wrong while building or decoding a graph.
/// Each variant names the fatal condition; `line` fields are zero-based
/// line numbers of the offending input line.
#[derive(Clone, Copy, PartialEq, Eq, Structural, Debug)]
pub enum GraphError {
    /// More extra edges were requested than a complete graph can hold.
    TooManyEdges,
    /// The input had no header line.
    MissingHeader,
    /// The header's vertex count did not parse.
    BadHeader,
    /// The vertex count exceeds `MAX_VERTICES`.
    GraphTooLarge,
    /// A numeric field did not parse or does not fit its type.
    BadNumber { line: usize },
    /// A vertex id was outside `1..=n`.
    VertexOutOfRange { line: usize },
    /// An edge joining a vertex to itself was listed with a nonzero weight.
    SelfLoop { line: usize },
    /// A dense-matrix row had fewer than `n` entries.
    MissingEntry { line: usize },
    /// A dense matrix disagreed with its own transpose.
    NotSymmetric { line: usize },
}

/// A complete, symmetrically weighted graph on vertices `1..=n`.
#[derive(Debug)]
pub struct Graph {
    matrix: Vec<u32>,
    n: usize,
}

/// Flat indices of distinct matrix cells are distinct, and all stay in
/// range.
pub proof fn lemma_flat_idx(n: int, i: int, j: int, i2: int, j2: int)
    by (nonlinear_arith)
    requires
        0 <= i <= n,
        0 <= j <= n,
        0 <= i2 <= n,
        0 <= j2 <= n,
    ensures
        0 <= i * (n + 1) + j < (n + 1) * (n + 1),
        i * (n + 1) + j == i2 * (n + 1) + j2 ==> i == i2 && j == j2,
{
}

/// All vertex ids of `v` lie in `1..=n`.
pub open spec fn vertices_in_range(v: Seq<usize>, n: int) -> bool {
    forall|k: int| 0 <= k < v.len() ==> 1 <= #[trigger] v[k] <= n
}

/// Vertex `v` can reach vertex 1 by walking edges that always lead to a
/// strictly smaller vertex id; the spanning-tree step of random
/// construction guarantees exactly this shape of path.
pub open spec fn reaches_root(g: Graph, v: int) -> bool
    decreases v,
{
    if v <= 1 {
        v == 1
    } else {
        exists|j: int| 1 <= j < v && #[trigger] g.edge(v, j) != 0 && reaches_root(g, j)
    }
}

/// Vertex `i` has an edge to some strictly smaller vertex.
pub open spec fn has_parent(g: Graph, i: int) -> bool {
    exists|j: int| 1 <= j < i && #[trigger] g.edge(i, j) != 0
}

/// Every vertex from 2 up to `n` has an edge to some smaller vertex.
pub open spec fn has_tree_edges(g: Graph, n: int) -> bool {
    forall|i: int| 2 <= i <= n ==> #[trigger] has_parent(g, i)
}

/// Number of nonzero entries of row `i` among columns `1..j`.
pub open spec fn count_row(g: Graph, i: int, j: int) -> int
    decreases j,
{
    if j <= 1 {
        0
    } else {
        count_row(g, i, j - 1) + if g.edge(i, j - 1) != 0 {
            1int
        } else {
            0int
        }
    }
}

/// Number of nonzero strictly-lower-triangular entries of rows `2..i`.
pub open spec fn count_rows(g: Graph, i: int) -> int
    decreases i,
{
    if i <= 2 {
        0
    } else {
        count_rows(g, i - 1) + count_row(g, i - 1, i - 1)
    }
}

/// Number of undirected edges of `g`: nonzero entries strictly below the
/// diagonal.
pub open spec fn edge_count(g: Graph) -> int {
    count_rows(g, g.spec_n() + 1)
}

impl Graph {
    /// The vertex count `n`.
    pub closed spec fn spec_n(self) -> int {
        self.n as int
    }

    /// The weight stored for the ordered pair `(i, j)`.
    pub closed spec fn edge(self, i: int, j: int) -> u32 {
        self.matrix@[i * (self.spec_n() + 1) + j]
    }

    /// Structural invariant: a square `(n+1) x (n+1)` buffer, symmetric,
    /// with a zero diagonal, over a bounded vertex count.
    pub closed spec fn wf(self) -> bool {
        &&& self.n <= MAX_VERTICES
        &&& self.matrix@.len() == (self.spec_n() + 1) * (self.spec_n() + 1)
        &&& forall|i: int, j: int|
            0 <= i <= self.spec_n() && 0 <= j <= self.spec_n() ==> #[trigger] self.edge(i, j)
                == self.edge(j, i)
        &&& forall|i: int| 0 <= i <= self.spec_n() ==> #[trigger] self.edge(i, i) == 0
    }

    /// The vertex count of a well-formed graph is bounded, so flat
    /// offsets and tour costs stay inside machine integers.
    pub proof fn wf_bounds(self)
        requires
            self.wf(),
        ensures
            0 <= self.spec_n() <= MAX_VERTICES,
    {
    }

    /// Distances are symmetric and vanish on the diagonal.
    pub proof fn lemma_symmetry(self)
        requires
            self.wf(),
        ensures
            forall|a: int, b: int|
                0 <= a <= self.spec_n() && 0 <= b <= self.spec_n() ==> #[trigger] self.edge(a, b)
                    == self.edge(b, a),
            forall|a: int| 0 <= a <= self.spec_n() ==> #[trigger] self.edge(a, a) == 0,
    {
    }

    /// Flat offset of cell `(i, j)`.
    fn idx(&self, i: usize, j: usize) -> (r: usize)
        requires
            self.n <= MAX_VERTICES,
            self.matrix@.len() == (self.spec_n() + 1) * (self.spec_n() + 1),
            i <= self.spec_n(),
            j <= self.spec_n(),
        ensures
            r == i * (self.spec_n() + 1) + j,
            r < self.matrix@.len(),
    {
        let l = self.matrix.len();
        proof {
            lemma_flat_idx(self.spec_n(), i as int, j as int, i as int, j as int);
            assert(l == (self.spec_n() + 1) * (self.spec_n() + 1));
        }
        i * (self.n + 1) + j
    }

    /// An edgeless graph on `n` vertices: every weight is zero.
    pub fn new_empty(n: usize) -> (g: Graph)
        requires
            n <= MAX_VERTICES,
        ensures
            g.wf(),
            g.spec_n() == n,
            forall|i: int, j: int| 0 <= i <= n && 0 <= j <= n ==> #[trigger] g.edge(i, j) == 0,
    {
        proof {
            lemma_flat_idx(n as int, n as int, n as int, n as int, n as int);
            assert((n + 1) * (n + 1) <= 46341 * 46341) by (nonlinear_arith)
                requires
                    n <= 46340,
            ;
            assert(usize::MAX >= 0xffff_ffff);
        }
        let side = n + 1;
        let len = side * side;
        let g = Graph { matrix: vec![0u32; len], n };
        proof {
            assert forall|i: int, j: int| 0 <= i <= n && 0 <= j <= n implies #[trigger] g.edge(
                i,
                j,
            ) == 0 by {
                lemma_flat_idx(n as int, i, j, i, j);
            }
        }
        g
    }

    /// Stores weight `w` for the unordered pair `{i, j}` (both
    /// orientations), leaving every other cell unchanged.
    pub(crate) fn set_edge(&mut self, i: usize, j: usize, w: u32)
        requires
            old(self).wf(),
            i <= old(self).spec_n(),
            j <= old(self).spec_n(),
            i != j,
        ensures
            final(self).wf(),
            final(self).spec_n() == old(self).spec_n(),
            final(self).edge(i as int, j as int) == w,
            final(self).edge(j as int, i as int) == w,
            forall|a: int, b: int|
                0 <= a <= old(self).spec_n() && 0 <= b <= old(self).spec_n() && !((a == i && b
                    == j) || (a == j && b == i)) ==> #[trigger] final(self).edge(a, b) == old(
                    self,
                ).edge(a, b),
    {
        let ghost n = self.spec_n();
        let ghost m0 = self.matrix@;
        let idx1 = self.idx(i, j);
        self.matrix[idx1] = w;
        let idx2 = self.idx(j, i);
        self.matrix[idx2] = w;
        proof {
            assert forall|a: int, b: int| 0 <= a <= n && 0 <= b <= n implies #[trigger] self.edge(
                a,
                b,
            ) == (if (a == i && b == j) || (a == j && b == i) {
                w
            } else {
                old(self).edge(a, b)
            }) by {
                lemma_flat_idx(n, a, b, i as int, j as int);
                lemma_flat_idx(n, a, b, j as int, i as int);
                assert(old(self).edge(a, b) == m0[a * (n + 1) + b]);
            }
            assert forall|a: int, b: int| 0 <= a <= n && 0 <= b <= n implies #[trigger] self.edge(
                a,
                b,
            ) == self.edge(b, a) by {
                assert(old(self).edge(a, b) == old(self).edge(b, a));
            }
        }
    }

    /// The number of vertices of the graph.
    pub fn number_of_vertex(&self) -> (r: usize)
        ensures
            r == self.spec_n(),
    {
        self.n
    }

    /// O(1) weight lookup.  On a well-formed graph the result is
    /// symmetric in its arguments and zero on the diagonal.
    pub fn distance(&self, v1: usize, v2: usize) -> (r: u32)
        requires
            self.wf(),
            v1 <= self.spec_n(),
            v2 <= self.spec_n(),
        ensures
            r == self.edge(v1 as int, v2 as int),
            r == self.edge(v2 as int, v1 as int),
            v1 == v2 ==> r == 0,
    {
        proof {
            if v1 == v2 {
                assert(self.edge(v1 as int, v1 as int) == 0);
            }
            assert(self.edge(v1 as int, v2 as int) == self.edge(v2 as int, v1 as int));
        }
        let k = self.idx(v1, v2);
        self.matrix[k]
    }

    /// True iff the pair holds an edge, that is, its weight differs from
    /// the zero default.
    pub fn connected(&self, id: (usize, usize)) -> (r: bool)
        requires
            self.wf(),
            id.0 <= self.spec_n(),
            id.1 <= self.spec_n(),
        ensures
            r == (self.edge(id.0 as int, id.1 as int) != 0),
    {
        self.distance(id.0, id.1) != 0
    }

    /// Replaces every zero off-diagonal weight with the maximal weight,
    /// the sentinel for "no edge", so the graph behaves as complete.
    pub fn set_zero_to_max(&mut self)
        requires
            old(self).wf(),
        ensures
            final(self).wf(),
            final(self).spec_n() == old(self).spec_n(),
            forall|a: int, b: int|
                0 <= a <= old(self).spec_n() && 0 <= b <= old(self).spec_n()
                    ==> #[trigger] final(self).edge(a, b) == (if a != b && old(self).edge(a, b)
                    == 0 {
                    u32::MAX
                } else {
                    old(self).edge(a, b)
                }),
    {
        let ghost g0 = *self;
        let ghost n = self.spec_n();
        let en = self.n;
        let mut hi: usize = 1;
        while hi <= en
            invariant
                en == n,
                n == self.spec_n(),
                g0.spec_n() == n,
                self.wf(),
                g0.wf(),
                1 <= hi <= n + 1,
                forall|a: int, b: int|
                    0 <= a <= n && 0 <= b <= n ==> #[trigger] self.edge(a, b) == (if a != b
                        && g0.edge(a, b) == 0 && (if a < b {
                        b
                    } else {
                        a
                    }) < hi {
                        u32::MAX
                    } else {
                        g0.edge(a, b)
                    }),
            decreases n + 1 - hi,
        {
            let mut lo: usize = 0;
            while lo < hi
                invariant
                    en == n,
                    n == self.spec_n(),
                    g0.spec_n() == n,
                    self.wf(),
                    g0.wf(),
                    1 <= hi <= n,
                    lo <= hi,
                    forall|a: int, b: int|
                        0 <= a <= n && 0 <= b <= n ==> #[trigger] self.edge(a, b) == (if a != b
                            && g0.edge(a, b) == 0 && ((if a < b {
                            b
                        } else {
                            a
                        }) < hi || ((if a < b {
                            b
                        } else {
                            a
                        }) == hi && (if a < b {
                            a
                        } else {
                            b
                        }) < lo)) {
                            u32::MAX
                        } else {
                            g0.edge(a, b)
                        }),
                decreases hi - lo,
            {
                if self.distance(hi, lo) == 0 {
                    self.set_edge(hi, lo, u32::MAX);
                }
                lo = lo + 1;
            }
            hi = hi + 1;
        }
    }

    /// Open-path cost of `v`: the sum of the weights between consecutive
    /// entries, zero when fewer than two vertices are listed.
    pub open spec fn spec_path_cost(self, v: Seq<usize>) -> int
        decreases v.len(),
    {
        if v.len() < 2 {
            0
        } else {
            self.spec_path_cost(v.drop_last()) + self.edge(
                v[v.len() - 2] as int,
                v[v.len() - 1] as int,
            )
        }
    }

    /// Cycle cost of `v`: the open-path cost plus the closing edge from
    /// the last vertex back to the first.
    pub open spec fn spec_cycle_cost(self, v: Seq<usize>) -> int {
        self.spec_path_cost(v) + self.edge(v[0] as int, v[v.len() - 1] as int)
    }

    /// The open-path cost is non-negative and at most one maximal weight
    /// per step.
    pub proof fn lemma_path_cost_bounds(self, v: Seq<usize>)
        requires
            self.wf(),
            vertices_in_range(v, self.spec_n()),
        ensures
            0 <= self.spec_path_cost(v),
            v.len() >= 1 ==> self.spec_path_cost(v) <= (v.len() - 1) * (u32::MAX as int),
        decreases v.len(),
    {
        if v.len() >= 2 {
            self.lemma_path_cost_bounds(v.drop_last());
        }
    }

    /// Sum of weights along consecutive entries of the tour, as an open
    /// path (no closing edge); 0 for fewer than two entries.
    pub fn distance_vec(&self, v: &Vec<usize>) -> (r: u64)
        requires
            self.wf(),
            vertices_in_range(v@, self.spec_n()),
            v@.len() < 0x1_0000_0000,
        ensures
            r == self.spec_path_cost(v@),
    {
        if v.len() < 2 {
            proof {
                assert(self.spec_path_cost(v@) == 0);
            }
            return 0;
        }
        let mut sum: u64 = 0;
        let mut k: usize = 1;
        while k < v.len()
            invariant
                self.wf(),
                vertices_in_range(v@, self.spec_n()),
                v@.len() < 0x1_0000_0000,
                1 <= k <= v@.len(),
                sum == self.spec_path_cost(v@.take(k as int)),
            decreases v@.len() - k,
        {
            proof {
                assert(vertices_in_range(v@.take(k as int), self.spec_n()));
                self.lemma_path_cost_bounds(v@.take(k as int));
                assert(v@.take(k as int).len() == k);
                assert(v@.take(k + 1).drop_last() =~= v@.take(k as int));
                assert(v@.take(k + 1)[k as int] == v@[k as int]);
            }
            sum = sum + self.distance(v[k - 1], v[k]) as u64;
            k = k + 1;
        }
        proof {
            assert(v@.take(v@.len() as int) =~= v@);
        }
        sum
    }

    /// Cycle cost: open-path cost plus the weight of the edge joining the
    /// tour's two ends.
    pub fn distance_cycle(&self, v: &Vec<usize>) -> (r: u64)
        requires
            self.wf(),
            vertices_in_range(v@, self.spec_n()),
            1 <= v@.len() < 0x1_0000_0000,
        ensures
            r == self.spec_cycle_cost(v@),
            r == self.spec_path_cost(v@) + self.edge(v@[0] as int, v@[v@.len() - 1] as int),
    {
        proof {
            self.lemma_path_cost_bounds(v@);
        }
        self.distance_vec(v) + self.distance(v[0], v[v.len() - 1]) as u64
    }

    /// Stores `weight` for `{v1, v2}` if the pair held no edge yet;
    /// reports whether it did.
    fn add_edge_if_not_exists(&mut self, v1: usize, v2: usize, weight: u32) -> (added: bool)
        requires
            old(self).wf(),
            1 <= v1 <= old(self).spec_n(),
            1 <= v2 <= old(self).spec_n(),
            v1 != v2,
        ensures
            final(self).wf(),
            final(self).spec_n() == old(self).spec_n(),
            added == (old(self).edge(v1 as int, v2 as int) == 0),
            added ==> final(self).edge(v1 as int, v2 as int) == weight && final(self).edge(
                v2 as int,
                v1 as int,
            ) == weight,
            forall|a: int, b: int|
                0 <= a <= old(self).spec_n() && 0 <= b <= old(self).spec_n() && !((a == v1 && b
                    == v2) || (a == v2 && b == v1)) ==> #[trigger] final(self).edge(a, b) == old(
                    self,
                ).edge(a, b),
            !added ==> *final(self) == *old(self),
    {
        if self.distance(v1, v2) == 0 {
            self.set_edge(v1, v2, weight);
            true
        } else {
            false
        }
    }

    /// Every strictly-lower-triangular pair that holds no edge yet.
    fn free_pairs(&self) -> (ps: Vec<(usize, usize)>)
        requires
            self.wf(),
        ensures
            forall|k: int|
                0 <= k < ps@.len() ==> 1 <= (#[trigger] ps@[k]).1 < ps@[k].0 <= self.spec_n()
                    && self.edge(ps@[k].0 as int, ps@[k].1 as int) == 0,
    {
        let n = self.n;
        let mut ps: Vec<(usize, usize)> = Vec::new();
        let mut i: usize = 2;
        while i <= n
            invariant
                self.wf(),
                n == self.spec_n(),
                2 <= i,
                forall|k: int|
                    0 <= k < ps@.len() ==> 1 <= (#[trigger] ps@[k]).1 < ps@[k].0 <= self.spec_n()
                        && self.edge(ps@[k].0 as int, ps@[k].1 as int) == 0,
            decreases n + 1 - i,
        {
            let mut j: usize = 1;
            while j < i
                invariant
                    self.wf(),
                    n == self.spec_n(),
                    2 <= i <= n,
                    1 <= j,
                    forall|k: int|
                        0 <= k < ps@.len() ==> 1 <= (#[trigger] ps@[k]).1 < ps@[k].0
                            <= self.spec_n() && self.edge(ps@[k].0 as int, ps@[k].1 as int) == 0,
                decreases i - j,
            {
                if self.distance(i, j) == 0 {
                    ps.push((i, j));
                }
                j = j + 1;
            }
            i = i + 1;
        }
        ps
    }

    /// Builds a connected weighted graph on `n` vertices.  A random
    /// spanning tree joins each vertex from 2 up to `n` to a uniformly
    /// random smaller vertex, which guarantees connectivity with `n - 1`
    /// edges; then `additional_edges` further edges are placed on
    /// uniformly random still-free vertex pairs.  The request fails
    /// before any state exists when the tree edges plus the additional
    /// edges would exceed the `n * (n - 1) / 2` pairs a complete graph
    /// holds.
    pub fn generate_random_complete_graph(
        n: usize,
        w_lo: u32,
        w_hi: u32,
        additional_edges: usize,
        rng: &mut Rng,
    ) -> (r: Result<Graph, GraphError>)
        requires
            1 <= n <= MAX_VERTICES,
            1 <= w_lo < w_hi,
        ensures
            r is Err <==> n - 1 + additional_edges > (n * n - n) / 2,
            r is Err ==> r == Result::<Graph, GraphError>::Err(GraphError::TooManyEdges),
            r is Ok ==> {
                let g = r.unwrap();
                &&& g.wf()
                &&& g.spec_n() == n
                &&& has_tree_edges(g, n as int)
                &&& forall|v: int| 1 <= v <= n ==> reaches_root(g, v)
                &&& edge_count(g) >= n - 1
                &&& forall|a: int, b: int|
                    0 <= a <= n && 0 <= b <= n ==> #[trigger] g.edge(a, b) == 0 || w_lo
                        <= g.edge(a, b) < w_hi
            },
    {
        proof {
            assert((n * n - n) / 2 >= n - 1 && n * n <= 46340 * 46340) by (nonlinear_arith)
                requires
                    1 <= n <= 46340,
            ;
            assert(usize::MAX >= 0xffff_ffff);
        }
        let max_edges = (n * n - n) / 2;
        let tree_edges = n - 1;
        if additional_edges > max_edges - tree_edges {
            return Err(GraphError::TooManyEdges);
        }
        let mut g = Graph::new_empty(n);
        let mut i: usize = 2;
        while i <= n
            invariant
                g.wf(),
                g.spec_n() == n,
                1 <= n <= MAX_VERTICES,
                1 <= w_lo < w_hi,
                2 <= i <= n + 1,
                forall|v: int| 2 <= v < i ==> #[trigger] has_parent(g, v),
                forall|a: int, b: int|
                    0 <= a <= n && 0 <= b <= n ==> #[trigger] g.edge(a, b) == 0 || w_lo <= g.edge(
                        a,
                        b,
                    ) < w_hi,
            decreases n + 1 - i,
        {
            let parent = rng.next_in(1, i as u64) as usize;
            let w = rng.next_in(w_lo as u64, w_hi as u64) as u32;
            let ghost gp = g;
            g.set_edge(i, parent, w);
            proof {
                assert forall|v: int| 2 <= v < i + 1 implies #[trigger] has_parent(g, v) by {
                    if v < i {
                        assert(has_parent(gp, v));
                        let j = choose|j: int| 1 <= j < v && #[trigger] gp.edge(v, j) != 0;
                        assert(g.edge(v, j) == gp.edge(v, j));
                        assert(1 <= j < v && g.edge(v, j) != 0);
                    } else {
                        assert(g.edge(i as int, parent as int) != 0);
                        assert(1 <= parent < i);
                    }
                }
            }
            i = i + 1;
        }
        let mut added: usize = 0;
        let mut exhausted = false;
        while added < additional_edges && !exhausted
            invariant
                g.wf(),
                g.spec_n() == n,
                1 <= n <= MAX_VERTICES,
                1 <= w_lo < w_hi,
                added <= additional_edges,
                has_tree_edges(g, n as int),
                forall|a: int, b: int|
                    0 <= a <= n && 0 <= b <= n ==> #[trigger] g.edge(a, b) == 0 || w_lo <= g.edge(
                        a,
                        b,
                    ) < w_hi,
            decreases
                    additional_edges - added,
                    (if exhausted {
                        0int
                    } else {
                        1int
                    }),
        {
            let free = g.free_pairs();
            if free.len() == 0 {
                // cannot occur below the feasibility bound; stop rather
                // than search a full board forever
                exhausted = true;
            } else {
                let k = rng.next_in(0, free.len() as u64) as usize;
                let (v1, v2) = (free[k].0, free[k].1);
                let w = rng.next_in(w_lo as u64, w_hi as u64) as u32;
                let ghost gp = g;
                let was_free = g.add_edge_if_not_exists(v1, v2, w);
                proof {
                    assert(was_free);
                    assert forall|v: int| 2 <= v <= n implies #[trigger] has_parent(g, v) by {
                        assert(has_parent(gp, v));
                        let j = choose|j: int| 1 <= j < v && #[trigger] gp.edge(v, j) != 0;
                        assert(g.edge(v, j) == gp.edge(v, j));
                        assert(1 <= j < v && g.edge(v, j) != 0);
                    }
                }
                added = added + 1;
            }
        }
        proof {
            lemma_tree_edges_connect(g);
        }
        Ok(g)
    }
}

/// Tree edges carry every vertex down to vertex 1.
pub proof fn lemma_parent_reaches(g: Graph, v: int)
    requires
        has_tree_edges(g, g.spec_n()),
        1 <= v <= g.spec_n(),
    ensures
        reaches_root(g, v),
    decreases v,
{
    if v > 1 {
        assert(has_parent(g, v));
        let j = choose|j: int| 1 <= j < v && #[trigger] g.edge(v, j) != 0;
        lemma_parent_reaches(g, j);
        assert(1 <= j < v && g.edge(v, j) != 0 && reaches_root(g, j));
    }
}

/// Row counts never go negative.
pub proof fn lemma_count_row_nonneg(g: Graph, i: int, j: int)
    ensures
        count_row(g, i, j) >= 0,
    decreases j,
{
    if j > 1 {
        lemma_count_row_nonneg(g, i, j - 1);
    }
}

/// A row holding a nonzero entry below column `j` counts at least one.
pub proof fn lemma_count_row_ge_one(g: Graph, i: int, j: int, jw: int)
    requires
        1 <= jw < j,
        g.edge(i, jw) != 0,
    ensures
        count_row(g, i, j) >= 1,
    decreases j,
{
    if jw == j - 1 {
        lemma_count_row_nonneg(g, i, j - 1);
    } else {
        lemma_count_row_ge_one(g, i, j - 1, jw);
    }
}

/// With tree edges in place, the rows below `i` count at least `i - 2`
/// edges.
pub proof fn lemma_count_rows_ge(g: Graph, i: int)
    requires
        has_tree_edges(g, g.spec_n()),
        2 <= i <= g.spec_n() + 1,
    ensures
        count_rows(g, i) >= i - 2,
    decreases i,
{
    if i > 2 {
        lemma_count_rows_ge(g, i - 1);
        assert(has_parent(g, i - 1));
        let jw = choose|j: int| 1 <= j < i - 1 && #[trigger] g.edge(i - 1, j) != 0;
        lemma_count_row_ge_one(g, i - 1, i - 1, jw);
    }
}

/// A graph whose every vertex above 1 has an edge to a smaller vertex is
/// connected — every vertex reaches vertex 1 — and holds at least
/// `n - 1` edges.
pub proof fn lemma_tree_edges_connect(g: Graph)
    requires
        g.wf(),
        has_tree_edges(g, g.spec_n()),
        g.spec_n() >= 1,
    ensures
        forall|v: int| 1 <= v <= g.spec_n() ==> reaches_root(g, v),
        edge_count(g) >= g.spec_n() - 1,
{
    assert forall|v: int| 1 <= v <= g.spec_n() implies reaches_root(g, v) by {
        lemma_parent_reaches(g, v);
    }
    lemma_count_rows_ge(g, g.spec_n() + 1);
}

} // verus!
