//! An unweighted graph kept as an adjacency list, with edge multiplicity.
//!
//! Vertices are the indices `0 .. vertex_count`.  Each adjacency row is an
//! ordered sequence of neighbour indices; repeated entries stand for repeated
//! contact opportunities.  An undirected edge is a pair of symmetric directed
//! entries.  `edge_count` is a running tally of recorded insertions and is
//! informational only: nothing ties it to the adjacency contents.

use vstd::prelude::*;

verus! {

/// `adj` with `v` appended to row `u`.
pub open spec fn push_edge(adj: Seq<Seq<usize>>, u: usize, v: usize) -> Seq<Seq<usize>> {
    adj.update(u as int, adj[u as int].push(v))
}

/// `adj` with the two directed entries of the undirected edge `u -- v` appended.
pub open spec fn push_undirected(adj: Seq<Seq<usize>>, u: usize, v: usize) -> Seq<Seq<usize>> {
    push_edge(push_edge(adj, u, v), v, u)
}

/// Index of the first occurrence of `v` in `s`, or `-1` when there is none.
pub open spec fn find_first(s: Seq<usize>, v: usize) -> int
    decreases s.len(),
{
    if s.len() == 0 {
        -1
    } else if s[0] == v {
        0
    } else {
        let r = find_first(s.drop_first(), v);
        if r == -1 {
            -1
        } else {
            r + 1
        }
    }
}

/// `s` with its first occurrence of `v` removed, or `s` itself when `v` does
/// not occur.
pub open spec fn drop_first_occurrence(s: Seq<usize>, v: usize) -> Seq<usize> {
    if find_first(s, v) == -1 {
        s
    } else {
        s.remove(find_first(s, v))
    }
}

/// `adj` with the first occurrence of `v` removed from row `u`.
pub open spec fn remove_one(adj: Seq<Seq<usize>>, u: usize, v: usize) -> Seq<Seq<usize>> {
    adj.update(u as int, drop_first_occurrence(adj[u as int], v))
}

/// `n` empty adjacency rows.
pub open spec fn empty_adj(n: nat) -> Seq<Seq<usize>> {
    Seq::new(n, |i: int| Seq::<usize>::empty())
}

/// The adjacency built by inserting each pair of `edges` as an undirected
/// edge, in order, starting from `adj`.
pub open spec fn build_undirected(adj: Seq<Seq<usize>>, edges: Seq<[usize; 2]>) -> Seq<Seq<usize>>
    decreases edges.len(),
{
    if edges.len() == 0 {
        adj
    } else {
        push_undirected(build_undirected(adj, edges.drop_last()), edges.last()[0], edges.last()[1])
    }
}

/// The forward neighbour at ring distance `j` from vertex `i`, over `n`
/// vertices.
pub open spec fn ring_fwd(i: int, j: int, n: int) -> usize {
    (((i + j) % n) as usize)
}

/// The backward neighbour at ring distance `j` from vertex `i`.
pub open spec fn ring_bwd(i: int, j: int, n: int) -> usize {
    (((i + n - j) % n) as usize)
}

/// `c` repetitions of the pair of ring entries at distance `j`.
pub open spec fn ring_reps(i: int, j: int, n: int, c: int) -> Seq<usize>
    decreases c,
{
    if c <= 0 {
        Seq::empty()
    } else {
        ring_reps(i, j, n, c - 1) + seq![ring_fwd(i, j, n), ring_bwd(i, j, n)]
    }
}

/// Everything the lattice generator appends to row `i`: the pairs at
/// distances `1 ..= m`, each repeated `k` times.
pub open spec fn ring_row(i: int, n: int, m: int, k: int) -> Seq<usize>
    decreases m,
{
    if m <= 0 {
        Seq::empty()
    } else {
        ring_row(i, n, m - 1, k) + ring_reps(i, m, n, k)
    }
}

/// The neighbourhood radius after clamping: reduced modulo `n` when larger
/// than `n`.
pub open spec fn ring_clamp(m: int, n: int) -> int {
    if m > n {
        m % n
    } else {
        m
    }
}

/// The lattice block for row `i` holds `2 * m * k` entries.
pub proof fn lemma_ring_row_len(i: int, n: int, m: int, k: int)
    requires
        m >= 0,
        k >= 0,
    ensures
        ring_row(i, n, m, k).len() == 2 * m * k,
    decreases m,
{
    if m <= 0 {
        assert(2 * m * k == 0) by (nonlinear_arith)
            requires
                m == 0,
        ;
    } else {
        lemma_ring_row_len(i, n, m - 1, k);
        lemma_ring_reps_len(i, m, n, k);
        assert(2 * (m - 1) * k + 2 * k == 2 * m * k) by (nonlinear_arith);
    }
}

proof fn lemma_ring_reps_len(i: int, j: int, n: int, c: int)
    requires
        c >= 0,
    ensures
        ring_reps(i, j, n, c).len() == 2 * c,
    decreases c,
{
    if c > 0 {
        lemma_ring_reps_len(i, j, n, c - 1);
    }
}

/// Every entry of a lattice block is a valid vertex index.
pub proof fn lemma_ring_row_bound(i: int, n: int, m: int, k: int)
    requires
        1 <= n <= usize::MAX,
    ensures
        forall|x: int|
            0 <= x < ring_row(i, n, m, k).len() ==> #[trigger] ring_row(i, n, m, k)[x] < n,
    decreases m,
{
    if m > 0 {
        lemma_ring_row_bound(i, n, m - 1, k);
        lemma_ring_reps_bound(i, m, n, k);
        assert forall|x: int|
            0 <= x < ring_row(i, n, m, k).len() implies #[trigger] ring_row(i, n, m, k)[x]
            < n by {
            if x < ring_row(i, n, m - 1, k).len() {
                assert(ring_row(i, n, m, k)[x] == ring_row(i, n, m - 1, k)[x]);
            } else {
                assert(ring_row(i, n, m, k)[x] == ring_reps(i, m, n, k)[x - ring_row(
                    i,
                    n,
                    m - 1,
                    k,
                ).len()]);
            }
        }
    }
}

proof fn lemma_ring_reps_bound(i: int, j: int, n: int, c: int)
    requires
        1 <= n <= usize::MAX,
    ensures
        forall|x: int|
            0 <= x < ring_reps(i, j, n, c).len() ==> #[trigger] ring_reps(i, j, n, c)[x] < n,
    decreases c,
{
    if c > 0 {
        lemma_ring_reps_bound(i, j, n, c - 1);
        assert(0 <= (i + j) % n < n) by (nonlinear_arith)
            requires
                n >= 1,
        ;
        assert(0 <= (i + n - j) % n < n) by (nonlinear_arith)
            requires
                n >= 1,
        ;
        assert forall|x: int|
            0 <= x < ring_reps(i, j, n, c).len() implies #[trigger] ring_reps(i, j, n, c)[x]
            < n by {
            if x < ring_reps(i, j, n, c - 1).len() {
                assert(ring_reps(i, j, n, c)[x] == ring_reps(i, j, n, c - 1)[x]);
            } else {
                assert(ring_reps(i, j, n, c)[x] == seq![
                    ring_fwd(i, j, n),
                    ring_bwd(i, j, n),
                ][x - ring_reps(i, j, n, c - 1).len()]);
            }
        }
    }
}

/// `find_first` finds exactly the first occurrence: it is `-1` iff the value
/// is absent, and otherwise points at an occurrence before which there is
/// none.
pub proof fn lemma_find_first(s: Seq<usize>, v: usize)
    ensures
        (find_first(s, v) == -1) <==> !s.contains(v),
        s.contains(v) ==> 0 <= find_first(s, v) < s.len() && s[find_first(s, v)] == v && (forall|
            k: int,
        | 0 <= k < find_first(s, v) ==> s[k] != v),
    decreases s.len(),
{
    if s.len() == 0 {
    } else if s[0] == v {
        assert(s.contains(v));
    } else {
        let t = s.drop_first();
        lemma_find_first(t, v);
        if s.contains(v) {
            let i = choose|i: int| 0 <= i < s.len() && s[i] == v;
            assert(t[i - 1] == v);
            assert(t.contains(v));
        }
        if t.contains(v) {
            let i = choose|i: int| 0 <= i < t.len() && t[i] == v;
            assert(s[i + 1] == v);
            assert(s.contains(v));
        }
        if s.contains(v) {
            let f = find_first(t, v);
            assert(forall|k: int| 0 <= k < f + 1 ==> s[k] != v) by {
                assert(forall|k: int| 1 <= k < f + 1 ==> s[k] == t[k - 1]);
            }
        }
    }
}

/// Removing an occurrence of a value and pushing it back restores the
/// multiset of entries.
proof fn lemma_remove_push_multiset(s: Seq<usize>, v: usize)
    requires
        s.contains(v),
    ensures
        drop_first_occurrence(s, v).push(v).to_multiset() =~= s.to_multiset(),
{
    lemma_find_first(s, v);
    let f = find_first(s, v);
    s.to_multiset_ensures();
    vstd::seq_lib::to_multiset_remove(s, f);
    vstd::seq_lib::to_multiset_build(s.remove(f), v);
    assert(s.to_multiset().count(v) > 0);
    assert(drop_first_occurrence(s, v) == s.remove(f));
    assert(s.to_multiset().remove(v).insert(v) =~= s.to_multiset());
}

/// Removing one undirected edge and then adding it back restores every
/// adjacency row as a multiset of entries: nothing is lost, nothing is
/// duplicated.  This holds whenever both directed entries were present and
/// the endpoints are distinct; the order of entries within a row may change.
pub proof fn lemma_remove_add_restores(adj: Seq<Seq<usize>>, u: usize, v: usize)
    requires
        (u as int) < adj.len(),
        (v as int) < adj.len(),
        u != v,
        adj[u as int].contains(v),
        adj[v as int].contains(u),
    ensures
        forall|w: int|
            0 <= w < adj.len() ==> (#[trigger] push_undirected(
                remove_one(remove_one(adj, u, v), v, u),
                u,
                v,
            )[w]).to_multiset() =~= adj[w].to_multiset(),
{
    let a2 = remove_one(remove_one(adj, u, v), v, u);
    let a3 = push_undirected(a2, u, v);
    assert(a3[u as int] == drop_first_occurrence(adj[u as int], v).push(v));
    assert(a3[v as int] == drop_first_occurrence(adj[v as int], u).push(u));
    lemma_remove_push_multiset(adj[u as int], v);
    lemma_remove_push_multiset(adj[v as int], u);
    assert forall|w: int| 0 <= w < adj.len() implies (#[trigger] a3[w]).to_multiset()
        =~= adj[w].to_multiset() by {
        if w != u as int && w != v as int {
            assert(a3[w] == adj[w]);
        }
    }
}

/// An unweighted graph represented by an adjacency list.
#[derive(Clone, Debug)]
pub struct Unweighted {
    adj_list: Vec<Vec<usize>>,
    edge_count: u32,
}

impl Unweighted {
    /// The adjacency structure, one sequence of neighbour indices per vertex.
    pub closed spec fn adj(self) -> Seq<Seq<usize>> {
        Seq::new(self.adj_list@.len(), |u: int| self.adj_list@[u]@)
    }

    /// The recorded number of edge insertions (informational tally).
    pub closed spec fn tally(self) -> u32 {
        self.edge_count
    }

    /// Every neighbour index lies inside the vertex index space.
    pub open spec fn wf(self) -> bool {
        forall|u: int, j: int|
            0 <= u < self.adj().len() && 0 <= j < self.adj()[u].len()
                ==> #[trigger] self.adj()[u][j] < self.adj().len()
    }

    /// Create `n` isolated vertices.
    #[verifier::loop_isolation(false)]
    pub fn init(n: usize) -> (g: Self)
        ensures
            g.adj() == Seq::new(n as nat, |i: int| Seq::<usize>::empty()),
            g.tally() == 0,
            g.wf(),
    {
        let mut adj_list: Vec<Vec<usize>> = Vec::new();
        let mut i: usize = 0;
        while i < n
            invariant
                i <= n,
                adj_list@.len() == i,
                forall|x: int| 0 <= x < i ==> (#[trigger] adj_list@[x])@.len() == 0,
            decreases n - i,
        {
            adj_list.push(Vec::new());
            i = i + 1;
        }
        let g = Self { adj_list, edge_count: 0 };
        proof {
            assert(g.adj() =~~= Seq::new(n as nat, |x: int| Seq::<usize>::empty()));
        }
        g
    }

    /// The number of vertices.
    pub fn vertex_count(&self) -> (r: usize)
        ensures
            r == self.adj().len(),
    {
        self.adj_list.len()
    }

    /// The number of outgoing contact entries of vertex `u`.
    pub fn degree(&self, u: usize) -> (r: usize)
        requires
            u < self.adj().len(),
        ensures
            r == self.adj()[u as int].len(),
    {
        self.adj_list[u].len()
    }

    /// The `j`-th outgoing contact entry of vertex `u`.
    pub fn neighbor(&self, u: usize, j: usize) -> (r: usize)
        requires
            u < self.adj().len(),
            j < self.adj()[u as int].len(),
        ensures
            r == self.adj()[u as int][j as int],
    {
        self.adj_list[u][j]
    }

    /// The recorded insertion tally.
    pub fn edge_count(&self) -> (r: u32)
        ensures
            r == self.tally(),
    {
        self.edge_count
    }

    /// True iff the graph has no vertices.
    pub fn is_empty(&self) -> (r: bool)
        ensures
            r == (self.adj().len() == 0),
    {
        self.adj_list.is_empty()
    }

    /// Append one isolated vertex and return its index.
    pub fn add_vertex(&mut self) -> (idx: usize)
        ensures
            final(self).adj() == old(self).adj().push(Seq::<usize>::empty()),
            final(self).tally() == old(self).tally(),
            idx == old(self).adj().len(),
            old(self).wf() ==> final(self).wf(),
    {
        self.adj_list.push(Vec::new());
        proof {
            assert(self.adj().len() == old(self).adj().len() + 1);
            assert(self.adj() =~~= old(self).adj().push(Seq::<usize>::empty()));
            if old(self).wf() {
                assert forall|u: int, j: int|
                    0 <= u < self.adj().len() && 0 <= j < self.adj()[u].len()
                        implies #[trigger] self.adj()[u][j] < self.adj().len() by {
                    if u < old(self).adj().len() {
                        assert(old(self).adj()[u][j] < old(self).adj().len());
                    } else {
                        assert(self.adj()[u].len() == 0);
                    }
                }
            }
        }
        self.adj_list.len() - 1
    }

    /// Append the directed edge `u -> v` to row `u`.
    ///
    /// Out-of-range endpoints are a programming error and are excluded by
    /// precondition rather than handled at run time.
    pub fn add_edge(&mut self, u: usize, v: usize)
        requires
            u < old(self).adj().len(),
            v < old(self).adj().len(),
        ensures
            final(self).adj() == push_edge(old(self).adj(), u, v),
            final(self).tally() == old(self).tally(),
            old(self).wf() ==> final(self).wf(),
    {
        let mut row: Vec<usize> = Vec::new();
        self.adj_list.set_and_swap(u, &mut row);
        row.push(v);
        self.adj_list.set_and_swap(u, &mut row);
        proof {
            assert(self.adj() =~~= push_edge(old(self).adj(), u, v));
            if old(self).wf() {
                assert forall|x: int, j: int|
                    0 <= x < self.adj().len() && 0 <= j < self.adj()[x].len()
                        implies #[trigger] self.adj()[x][j] < self.adj().len() by {
                    if x == u as int && j == old(self).adj()[x].len() {
                        assert(self.adj()[x][j] == v);
                    } else {
                        assert(self.adj()[x][j] == old(self).adj()[x][j]);
                    }
                }
            }
        }
    }

    /// Append both directed entries of the undirected edge `u -- v` and
    /// record one insertion in the tally.
    pub fn add_undirected_edge(&mut self, u: usize, v: usize)
        requires
            u < old(self).adj().len(),
            v < old(self).adj().len(),
            old(self).tally() < u32::MAX,
        ensures
            final(self).adj() == push_undirected(old(self).adj(), u, v),
            final(self).tally() == old(self).tally() + 1,
            old(self).wf() ==> final(self).wf(),
    {
        self.add_edge(u, v);
        self.add_edge(v, u);
        self.edge_count = self.edge_count + 1;
    }

    /// Remove the first occurrence of `v` from row `u`; a no-op when `v` does
    /// not occur there.
    #[verifier::loop_isolation(false)]
    pub fn remove_edge(&mut self, u: usize, v: usize)
        requires
            u < old(self).adj().len(),
        ensures
            final(self).adj() == remove_one(old(self).adj(), u, v),
            final(self).tally() == old(self).tally(),
            old(self).wf() ==> final(self).wf(),
    {
        proof {
            lemma_find_first(old(self).adj()[u as int], v);
        }
        let ghost row0 = self.adj()[u as int];
        let len_u = self.adj_list[u].len();
        let mut pos: usize = 0;
        while pos < len_u && self.adj_list[u][pos] != v
            invariant
                pos <= len_u,
                forall|k: int| 0 <= k < pos ==> row0[k] != v,
            decreases len_u - pos,
        {
            pos += 1;
        }
        if pos < len_u {
            let mut row: Vec<usize> = Vec::new();
            self.adj_list.set_and_swap(u, &mut row);
            row.remove(pos);
            self.adj_list.set_and_swap(u, &mut row);
            proof {
                assert(row0[pos as int] == v);
                assert(row0.contains(v));
                assert(find_first(row0, v) == pos);
                assert(self.adj() =~~= remove_one(old(self).adj(), u, v));
                if old(self).wf() {
                    assert forall|x: int, j: int|
                        0 <= x < self.adj().len() && 0 <= j < self.adj()[x].len()
                            implies #[trigger] self.adj()[x][j] < self.adj().len() by {
                        if x == u as int {
                            if j < pos {
                                assert(self.adj()[x][j] == row0[j]);
                            } else {
                                assert(self.adj()[x][j] == row0[j + 1]);
                            }
                        } else {
                            assert(self.adj()[x][j] == old(self).adj()[x][j]);
                        }
                    }
                }
            }
        } else {
            proof {
                assert(forall|k: int| 0 <= k < row0.len() ==> row0[k] != v);
                assert(!row0.contains(v));
                assert(self.adj() =~~= remove_one(old(self).adj(), u, v));
            }
        }
    }

    /// Remove one occurrence of the undirected edge `u -- v`: the first
    /// occurrence in each direction.  The tally is left as it is.
    pub fn remove_edges(&mut self, u: usize, v: usize)
        requires
            u < old(self).adj().len(),
            v < old(self).adj().len(),
        ensures
            final(self).adj() == remove_one(remove_one(old(self).adj(), u, v), v, u),
            final(self).tally() == old(self).tally(),
            old(self).wf() ==> final(self).wf(),
    {
        self.remove_edge(u, v);
        self.remove_edge(v, u);
    }

    /// Empty every adjacency row, keeping the vertex count and the tally.
    #[verifier::loop_isolation(false)]
    pub fn clear_graph(&mut self)
        ensures
            final(self).adj() == Seq::new(old(self).adj().len(), |i: int| Seq::<usize>::empty()),
            final(self).tally() == old(self).tally(),
            final(self).wf(),
    {
        let n = self.adj_list.len();
        let mut i: usize = 0;
        while i < n
            invariant
                i <= n,
                self.adj().len() == n,
                self.tally() == old(self).tally(),
                forall|x: int| 0 <= x < i ==> (#[trigger] self.adj()[x]).len() == 0,
            decreases n - i,
        {
            let ghost snap = self.adj();
            let mut row: Vec<usize> = Vec::new();
            self.adj_list.set_and_swap(i, &mut row);
            proof {
                assert(self.adj() =~~= snap.update(i as int, Seq::<usize>::empty()));
            }
            i += 1;
        }
        proof {
            assert(self.adj() =~~= Seq::new(old(self).adj().len(), |i: int| Seq::<usize>::empty()));
        }
    }

    /// Drop every vertex; the graph becomes empty.  The tally is left as it
    /// is.
    pub fn kill_graph(&mut self)
        ensures
            final(self).adj() == Seq::<Seq<usize>>::empty(),
            final(self).tally() == old(self).tally(),
            final(self).wf(),
    {
        self.adj_list.clear();
        proof {
            assert(self.adj() =~~= Seq::<Seq<usize>>::empty());
        }
    }

    /// Build a graph of `size` vertices holding each listed pair as an
    /// undirected edge, inserted in order.
    #[verifier::loop_isolation(false)]
    pub fn new_undirected(size: usize, edges: &[[usize; 2]]) -> (g: Self)
        requires
            forall|i: int|
                0 <= i < edges@.len() ==> (#[trigger] edges@[i])[0] < size && edges@[i][1] < size,
            edges@.len() <= u32::MAX,
        ensures
            g.adj() == build_undirected(empty_adj(size as nat), edges@),
            g.adj().len() == size,
            g.tally() == edges@.len(),
            g.wf(),
    {
        let mut graph = Self::init(size);
        let m = edges.len();
        let mut i: usize = 0;
        while i < m
            invariant
                i <= m,
                m == edges@.len(),
                graph.adj() == build_undirected(empty_adj(size as nat), edges@.take(i as int)),
                graph.adj().len() == size,
                graph.tally() == i,
                graph.wf(),
            decreases m - i,
        {
            let e = edges[i];
            graph.add_undirected_edge(e[0], e[1]);
            proof {
                assert(edges@.take(i + 1).drop_last() =~= edges@.take(i as int));
                assert(edges@.take(i + 1).last() == edges@[i as int]);
            }
            i += 1;
        }
        proof {
            assert(edges@.take(m as int) =~= edges@);
        }
        graph
    }

    /// Build a circulant ring lattice over the current vertex set: for every
    /// vertex `i`, every ring distance `j` in `1 ..= m` (with `m` reduced
    /// modulo the vertex count when larger) and each of `k` contact
    /// repetitions, append the directed entries `i -> (i + j) mod n` and
    /// `i -> (i - j) mod n`, recording each insertion in the tally.
    #[verifier::loop_isolation(false)]
    pub fn ring_graph(&mut self, m: usize, k: usize)
        requires
            old(self).adj().len() <= usize::MAX / 2,
            old(self).tally() + 2 * ring_clamp(m as int, old(self).adj().len() as int) * (
            k as int) * (old(self).adj().len() as int) <= u32::MAX,
        ensures
            final(self).adj().len() == old(self).adj().len(),
            forall|i: int|
                0 <= i < old(self).adj().len() ==> #[trigger] final(self).adj()[i] == old(
                    self,
                ).adj()[i] + ring_row(
                    i,
                    old(self).adj().len() as int,
                    ring_clamp(m as int, old(self).adj().len() as int),
                    k as int,
                ),
            forall|i: int|
                0 <= i < old(self).adj().len() ==> (#[trigger] final(self).adj()[i]).len() == old(
                    self,
                ).adj()[i].len() + 2 * ring_clamp(m as int, old(self).adj().len() as int) * (
                k as int),
            final(self).tally() == old(self).tally() + 2 * ring_clamp(
                m as int,
                old(self).adj().len() as int,
            ) * (k as int) * (old(self).adj().len() as int),
            old(self).wf() ==> final(self).wf(),
    {
        let n = self.adj_list.len();
        if n == 0 {
            proof {
                let ghost zlen = old(self).adj().len() as int;
                let ghost zcl = ring_clamp(m as int, zlen);
                assert(2 * zcl * (k as int) * zlen == 0) by (nonlinear_arith)
                    requires
                        zlen == 0,
                ;
            }
            return ;
        }
        let mut mm = m;
        if mm > n {
            mm = mm % n;
        }
        let ghost nn = n as int;
        let ghost mmi = mm as int;
        let ghost kk = k as int;
        let ghost mu = 2 * mmi * kk;
        let ghost base = old(self).tally() as int;
        let ghost adj0 = old(self).adj();
        proof {
            assert(mmi == ring_clamp(m as int, nn));
            assert(base + 2 * mmi * kk * nn <= u32::MAX);
            assert(mu * nn == 2 * mmi * kk * nn) by (nonlinear_arith)
                requires
                    mu == 2 * mmi * kk,
            ;
        }
        let mut i: usize = 0;
        while i < n
            invariant
                i <= n,
                self.adj().len() == nn,
                forall|x: int|
                    0 <= x < i ==> #[trigger] self.adj()[x] == adj0[x] + ring_row(x, nn, mmi, kk),
                forall|x: int| i <= x < nn ==> #[trigger] self.adj()[x] == adj0[x],
                self.tally() as int == base + i as int * mu,
            decreases n - i,
        {
            proof {
                assert(0 <= i as int * mu <= nn * mu) by (nonlinear_arith)
                    requires
                        0 <= i as int,
                        (i as int) <= nn,
                        mu >= 0,
                ;
            }
            let ghost adj_pre = self.adj();
            proof {
                assert(adj_pre[i as int] == adj0[i as int]);
            }
            let mut row: Vec<usize> = Vec::new();
            self.adj_list.set_and_swap(i, &mut row);
            let ghost adj_mid = self.adj();
            proof {
                assert(adj_mid =~= adj_pre.update(i as int, Seq::<usize>::empty()));
                assert(row@ == adj0[i as int]);
                assert(row@ =~= adj0[i as int] + ring_row(i as int, nn, 0, kk));
            }
            let mut j: usize = 1;
            while j <= mm
                invariant
                    1 <= j <= mm + 1,
                    self.adj() == adj_mid,
                    row@ == adj0[i as int] + ring_row(i as int, nn, j - 1, kk),
                    self.tally() as int == base + i as int * mu + (j - 1) * (2 * kk),
                decreases mm + 1 - j,
            {
                proof {
                    assert(row@ =~= adj0[i as int] + ring_row(i as int, nn, j - 1, kk) + ring_reps(
                        i as int,
                        j as int,
                        nn,
                        0,
                    ));
                }
                let mut c: usize = 0;
                while c < k
                    invariant
                        c <= k,
                        1 <= j <= mm,
                        self.adj() == adj_mid,
                        row@ == adj0[i as int] + ring_row(i as int, nn, j - 1, kk) + ring_reps(
                            i as int,
                            j as int,
                            nn,
                            c as int,
                        ),
                        self.tally() as int == base + i as int * mu + (j - 1) * (2 * kk) + 2 * (
                        c as int),
                    decreases k - c,
                {
                    proof {
                        assert(i as int * mu + (j - 1) * (2 * kk) + 2 * (c as int) + 2 <= nn
                            * mu) by (nonlinear_arith)
                            requires
                                0 <= i as int,
                                (i as int) < nn,
                                1 <= j as int,
                                (j as int) <= mmi,
                                0 <= c as int,
                                (c as int) < kk,
                                mu == 2 * mmi * kk,
                        ;
                    }
                    let fwd = (i + j) % n;
                    row.push(fwd);
                    self.edge_count = self.edge_count + 1;
                    let bwd = (i + n - j) % n;
                    row.push(bwd);
                    self.edge_count = self.edge_count + 1;
                    proof {
                        assert(0 <= (i as int + j as int) % nn < nn) by (nonlinear_arith)
                            requires
                                nn >= 1,
                        ;
                        assert(0 <= (i as int + nn - j as int) % nn < nn) by (nonlinear_arith)
                            requires
                                nn >= 1,
                        ;
                        assert(fwd == ring_fwd(i as int, j as int, nn));
                        assert(bwd == ring_bwd(i as int, j as int, nn));
                        assert(ring_reps(i as int, j as int, nn, c as int + 1) == ring_reps(
                            i as int,
                            j as int,
                            nn,
                            c as int,
                        ) + seq![fwd, bwd]);
                        assert(row@ =~= adj0[i as int] + ring_row(i as int, nn, j - 1, kk)
                            + ring_reps(i as int, j as int, nn, c as int + 1));
                    }
                    c += 1;
                }
                proof {
                    assert(ring_row(i as int, nn, j as int, kk) == ring_row(i as int, nn, j - 1, kk)
                        + ring_reps(i as int, j as int, nn, kk));
                    assert(row@ =~= adj0[i as int] + ring_row(i as int, nn, j as int, kk));
                    assert((j - 1) * (2 * kk) + 2 * kk == j as int * (2 * kk)) by (nonlinear_arith);
                }
                j += 1;
            }
            self.adj_list.set_and_swap(i, &mut row);
            proof {
                assert(self.adj() =~= adj_mid.update(
                    i as int,
                    adj0[i as int] + ring_row(i as int, nn, mmi, kk),
                ));
                assert(self.adj() =~= adj_pre.update(
                    i as int,
                    adj0[i as int] + ring_row(i as int, nn, mmi, kk),
                ));
                assert((j - 1) * (2 * kk) == mu) by (nonlinear_arith)
                    requires
                        j - 1 == mmi,
                        mu == 2 * mmi * kk,
                ;
                assert(i as int * mu + mu == (i as int + 1) * mu) by (nonlinear_arith);
            }
            i += 1;
        }
        proof {
            assert(self.tally() as int == base + nn * mu) by {
                assert(i as int * mu == nn * mu);
            }
            assert(nn * mu == 2 * mmi * kk * nn) by (nonlinear_arith)
                requires
                    mu == 2 * mmi * kk,
            ;
            assert forall|x: int| 0 <= x < nn implies (#[trigger] self.adj()[x]).len() == adj0[x].len()
                + 2 * mmi * kk by {
                lemma_ring_row_len(x, nn, mmi, kk);
            }
            if old(self).wf() {
                assert forall|x: int, jj: int|
                    0 <= x < self.adj().len() && 0 <= jj < self.adj()[x].len()
                        implies #[trigger] self.adj()[x][jj] < self.adj().len() by {
                    lemma_ring_row_bound(x, nn, mmi, kk);
                    if jj < adj0[x].len() {
                        assert(self.adj()[x][jj] == adj0[x][jj]);
                    } else {
                        assert(self.adj()[x][jj] == ring_row(x, nn, mmi, kk)[jj - adj0[x].len()]);
                    }
                }
            }
        }
    }
}

} // verus!
