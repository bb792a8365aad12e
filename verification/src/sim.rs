//! The SIR simulation engine.
//!
//! Per-vertex health state is a colour: `0` susceptible, `1` infected, `2`
//! removed, and `3` for the transient pending-infection mark that exists only
//! inside a step.  The engine advances the whole population synchronously,
//! one time step at a time, until no vertex is infected, and reports the peak
//! number of concurrently infected vertices, the number of steps taken and
//! the total number of vertices ever infected.

use crate::graph::Unweighted;
use crate::trans::Alpha;
use crate::trans::SimRng;
use vstd::prelude::*;

verus! {

/// The number of entries of `s` equal to `x`.
spec fn count_val(s: Seq<u32>, x: u32) -> nat
    decreases s.len(),
{
    if s.len() == 0 {
        0
    } else {
        count_val(s.drop_last(), x) + (if s.last() == x {
            1nat
        } else {
            0nat
        })
    }
}

/// The total number of adjacency entries over all rows.
pub open spec fn flat_len(adj: Seq<Seq<usize>>) -> nat
    decreases adj.len(),
{
    if adj.len() == 0 {
        0
    } else {
        flat_len(adj.drop_last()) + adj.last().len()
    }
}

/// The synchronous end-of-step transition of one colour: infected vertices
/// are removed, pending ones become infected, the rest stay as they are.
spec fn advance_val(c: u32) -> u32 {
    if c == 1 {
        2
    } else if c == 3 {
        1
    } else {
        c
    }
}

proof fn lemma_count_none(s: Seq<u32>, x: u32)
    requires
        forall|k: int| 0 <= k < s.len() ==> s[k] != x,
    ensures
        count_val(s, x) == 0,
    decreases s.len(),
{
    if s.len() > 0 {
        lemma_count_none(s.drop_last(), x);
    }
}

proof fn lemma_count_bound(s: Seq<u32>, x: u32)
    ensures
        count_val(s, x) <= s.len(),
    decreases s.len(),
{
    if s.len() > 0 {
        lemma_count_bound(s.drop_last(), x);
    }
}

proof fn lemma_count_two(s: Seq<u32>, x: u32, y: u32)
    requires
        x != y,
    ensures
        count_val(s, x) + count_val(s, y) <= s.len(),
    decreases s.len(),
{
    if s.len() > 0 {
        lemma_count_two(s.drop_last(), x, y);
    }
}

proof fn lemma_count_update(s: Seq<u32>, x: u32, i: int, v: u32)
    requires
        0 <= i < s.len(),
    ensures
        count_val(s.update(i, v), x) + (if s[i] == x {
            1nat
        } else {
            0nat
        }) == count_val(s, x) + (if v == x {
            1nat
        } else {
            0nat
        }),
    decreases s.len(),
{
    let t = s.update(i, v);
    if i == s.len() - 1 {
        assert(t.drop_last() =~= s.drop_last());
        assert(t.last() == v);
    } else {
        assert(t.drop_last() =~= s.drop_last().update(i, v));
        lemma_count_update(s.drop_last(), x, i, v);
        assert(t.last() == s.last());
    }
}

proof fn lemma_count_take_succ(s: Seq<u32>, x: u32, i: int)
    requires
        0 <= i < s.len(),
    ensures
        count_val(s.take(i + 1), x) == count_val(s.take(i), x) + (if s[i] == x {
            1nat
        } else {
            0nat
        }),
{
    assert(s.take(i + 1).drop_last() =~= s.take(i));
    assert(s.take(i + 1).last() == s[i]);
}

proof fn lemma_flat_take_succ(adj: Seq<Seq<usize>>, i: int)
    requires
        0 <= i < adj.len(),
    ensures
        flat_len(adj.take(i + 1)) == flat_len(adj.take(i)) + adj[i].len(),
{
    assert(adj.take(i + 1).drop_last() =~= adj.take(i));
    assert(adj.take(i + 1).last() == adj[i]);
}

proof fn lemma_flat_take_le(adj: Seq<Seq<usize>>, i: int)
    requires
        0 <= i <= adj.len(),
    ensures
        flat_len(adj.take(i)) <= flat_len(adj),
    decreases adj.len() - i,
{
    if i == adj.len() {
        assert(adj.take(i) =~= adj);
    } else {
        lemma_flat_take_succ(adj, i);
        lemma_flat_take_le(adj, i + 1);
    }
}

/// Every adjacency entry is a valid vertex index.
spec fn in_range(adj: Seq<Seq<usize>>) -> bool {
    forall|u: int, j: int|
        0 <= u < adj.len() && 0 <= j < adj[u].len() ==> #[trigger] adj[u][j] < adj.len()
}

/// Vertex `v` lies within at most `t` directed steps of `s`.
pub open spec fn reached(adj: Seq<Seq<usize>>, s: int, t: int, v: int) -> bool
    decreases t,
{
    t >= 0 && (v == s || (t > 0 && exists|u: int, j: int|
        0 <= u < adj.len() && 0 <= j < adj[u].len() && (#[trigger] adj[u][j]) as int == v
            && reached(adj, s, t - 1, u)))
}

/// The number of vertices below `n` within at most `t` steps of `s`.
pub open spec fn count_reached(adj: Seq<Seq<usize>>, s: int, t: int, n: int) -> nat
    decreases n,
{
    if n <= 0 {
        0
    } else {
        count_reached(adj, s, t, n - 1) + (if reached(adj, s, t, n - 1) {
            1nat
        } else {
            0nat
        })
    }
}

/// Some vertex `u` below `ubound` is coloured infected and has `v` among its
/// contact entries.
spec fn exposed_by(adj: Seq<Seq<usize>>, clr: Seq<u32>, v: int, ubound: int) -> bool {
    exists|u: int, j: int|
        0 <= u < ubound && 0 <= j < adj[u].len() && clr[u] == 1 && (#[trigger] adj[u][j]) as int
            == v
}

/// One of the first `jbound` entries of `row` is `v`.
spec fn row_hits(row: Seq<usize>, v: int, jbound: int) -> bool {
    exists|j: int| 0 <= j < jbound && (#[trigger] row[j]) as int == v
}

/// The exposure buffer is positive exactly at the vertices that an infected
/// vertex reaches along one of its contact entries.
spec fn exposure_ok(adj: Seq<Seq<usize>>, clr: Seq<u32>, nin: Seq<u32>) -> bool {
    forall|v: int|
        0 <= v < nin.len() ==> ((#[trigger] nin[v]) > 0 <==> exposed_by(adj, clr, v, adj.len() as int))
}

/// After `t` completed steps the colours are the breadth-first layers from
/// the seed: infected vertices are exactly those at distance `t`, removed
/// ones exactly those at distance below `t`.
spec fn layers_ok(adj: Seq<Seq<usize>>, s: int, clr: Seq<u32>, t: int) -> bool {
    forall|v: int|
        0 <= v < clr.len() ==> (((#[trigger] clr[v]) == 1 <==> reached(adj, s, t, v) && !reached(
            adj,
            s,
            t - 1,
            v,
        )) && (clr[v] == 2 <==> reached(adj, s, t - 1, v)))
}

proof fn lemma_count_elem(s: Seq<u32>, x: u32, k: int)
    requires
        0 <= k < s.len(),
        s[k] == x,
    ensures
        count_val(s, x) > 0,
    decreases s.len(),
{
    if k < s.len() - 1 {
        lemma_count_elem(s.drop_last(), x, k);
    }
}

/// A witness below `a` is also one below any `b >= a`.
proof fn lemma_exposed_widen(adj: Seq<Seq<usize>>, clr: Seq<u32>, v: int, a: int, b: int)
    requires
        a <= b,
        exposed_by(adj, clr, v, a),
    ensures
        exposed_by(adj, clr, v, b),
{
    let (u, j) = choose|u: int, j: int|
        0 <= u < a && 0 <= j < adj[u].len() && clr[u] == 1 && (#[trigger] adj[u][j]) as int == v;
    assert((adj[u][j]) as int == v);
}

proof fn lemma_count_pos(s: Seq<u32>, x: u32)
    requires
        count_val(s, x) > 0,
    ensures
        exists|k: int| 0 <= k < s.len() && s[k] == x,
    decreases s.len(),
{
    if s.len() > 0 {
        if s.last() == x {
            assert(s[s.len() - 1] == x);
        } else {
            lemma_count_pos(s.drop_last(), x);
            let k = choose|k: int| 0 <= k < s.drop_last().len() && s.drop_last()[k] == x;
            assert(s[k] == x);
        }
    }
}

/// Reachability only grows with the step bound.
proof fn lemma_reached_mono(adj: Seq<Seq<usize>>, s: int, t: int)
    ensures
        forall|v: int| reached(adj, s, t, v) ==> #[trigger] reached(adj, s, t + 1, v),
    decreases t + 1,
{
    if t >= 0 {
        if t > 0 {
            lemma_reached_mono(adj, s, t - 1);
        }
        assert forall|v: int| reached(adj, s, t, v) implies #[trigger] reached(
            adj,
            s,
            t + 1,
            v,
        ) by {
            if v != s {
                let (u, j) = choose|u: int, j: int|
                    0 <= u < adj.len() && 0 <= j < adj[u].len() && (#[trigger] adj[u][j]) as int
                        == v && reached(adj, s, t - 1, u);
                assert(reached(adj, s, t, u));
                assert(0 <= u < adj.len() && 0 <= j < adj[u].len() && (adj[u][j]) as int == v
                    && reached(adj, s, (t + 1) - 1, u));
            }
        }
    }
}

proof fn lemma_reached_mono_range(adj: Seq<Seq<usize>>, s: int, t1: int, t2: int)
    requires
        t1 <= t2,
    ensures
        forall|v: int| reached(adj, s, t1, v) ==> #[trigger] reached(adj, s, t2, v),
    decreases t2 - t1,
{
    if t1 < t2 {
        lemma_reached_mono(adj, s, t1);
        lemma_reached_mono_range(adj, s, t1 + 1, t2);
        assert forall|v: int| reached(adj, s, t1, v) implies #[trigger] reached(
            adj,
            s,
            t2,
            v,
        ) by {
            assert(reached(adj, s, t1 + 1, v));
        }
    }
}

/// A vertex is within `t + 1` steps exactly when it is within `t` steps or
/// one contact entry away from a vertex at distance exactly `t`.
proof fn lemma_reached_step(adj: Seq<Seq<usize>>, s: int, t: int, v: int)
    requires
        t >= 0,
    ensures
        reached(adj, s, t + 1, v) <==> (reached(adj, s, t, v) || exists|u: int, j: int|
            0 <= u < adj.len() && 0 <= j < adj[u].len() && (#[trigger] adj[u][j]) as int == v
                && reached(adj, s, t, u) && !reached(adj, s, t - 1, u)),
{
    lemma_reached_mono(adj, s, t);
    if reached(adj, s, t + 1, v) && !reached(adj, s, t, v) {
        let (u, j) = choose|u: int, j: int|
            0 <= u < adj.len() && 0 <= j < adj[u].len() && (#[trigger] adj[u][j]) as int == v
                && reached(adj, s, t, u);
        if reached(adj, s, t - 1, u) {
            if t > 0 {
                assert(reached(adj, s, t, v));
            } else {
                assert(u == s);
                assert(reached(adj, s, t, u));
                assert(reached(adj, s, t + 1 - 1, u));
            }
        }
        assert(!reached(adj, s, t - 1, u));
    }
    if !reached(adj, s, t + 1, v) {
        if reached(adj, s, t, v) {
            assert(reached(adj, s, t + 1, v));
        }
    }
}

/// Once two consecutive bounds reach the same set, every later bound does.
proof fn lemma_reached_fixpoint(adj: Seq<Seq<usize>>, s: int, cap: int, t: int)
    requires
        in_range(adj),
        0 <= s < adj.len(),
        cap >= 1,
        forall|v: int|
            0 <= v < adj.len() ==> (#[trigger] reached(adj, s, cap, v) <==> reached(
                adj,
                s,
                cap - 1,
                v,
            )),
        t >= cap - 1,
    ensures
        forall|v: int|
            0 <= v < adj.len() ==> (#[trigger] reached(adj, s, t, v) <==> reached(
                adj,
                s,
                cap - 1,
                v,
            )),
    decreases t,
{
    if t == cap - 1 {
    } else {
        lemma_reached_fixpoint(adj, s, cap, t - 1);
        assert forall|v: int| 0 <= v < adj.len() implies (#[trigger] reached(adj, s, t, v)
            <==> reached(adj, s, cap - 1, v)) by {
            lemma_reached_mono_range(adj, s, cap - 1, t);
            if reached(adj, s, t, v) && v != s {
                let (u, j) = choose|u: int, j: int|
                    0 <= u < adj.len() && 0 <= j < adj[u].len() && (#[trigger] adj[u][j]) as int
                        == v && reached(adj, s, t - 1, u);
                assert(reached(adj, s, cap - 1, u));
                lemma_reached_mono_range(adj, s, cap - 1, cap);
                assert(reached(adj, s, cap, u));
                if cap > 0 {
                    assert(0 <= u < adj.len() && 0 <= j < adj[u].len() && (adj[u][j]) as int == v
                        && reached(adj, s, cap - 1, u));
                    assert(reached(adj, s, cap, v));
                }
            }
        }
    }
}

/// Counting agrees with a colour that marks exactly the reached vertices.
proof fn lemma_count_matches(s: Seq<u32>, x: u32, adj: Seq<Seq<usize>>, seed: int, t: int)
    requires
        forall|v: int| 0 <= v < s.len() ==> ((#[trigger] s[v]) == x <==> reached(adj, seed, t, v)),
    ensures
        count_val(s, x) == count_reached(adj, seed, t, s.len() as int),
    decreases s.len(),
{
    if s.len() > 0 {
        lemma_count_matches(s.drop_last(), x, adj, seed, t);
        assert(s[s.len() - 1] == x <==> reached(adj, seed, t, s.len() - 1));
    }
}

/// Counts of reached vertices agree when the two bounds reach the same set.
proof fn lemma_count_reached_eq(adj: Seq<Seq<usize>>, s: int, t1: int, t2: int, n: int)
    requires
        forall|v: int|
            0 <= v < n ==> (#[trigger] reached(adj, s, t1, v) <==> reached(adj, s, t2, v)),
    ensures
        count_reached(adj, s, t1, n) == count_reached(adj, s, t2, n),
    decreases n,
{
    if n > 0 {
        lemma_count_reached_eq(adj, s, t1, t2, n - 1);
    }
}

/// A strictly larger bound that reaches a new vertex gives a strictly larger
/// count.
proof fn lemma_count_reached_strict(adj: Seq<Seq<usize>>, s: int, t1: int, t2: int, n: int, w: int)
    requires
        t1 <= t2,
        0 <= w < n,
        reached(adj, s, t2, w),
        !reached(adj, s, t1, w),
    ensures
        count_reached(adj, s, t1, n) < count_reached(adj, s, t2, n),
    decreases n,
{
    lemma_reached_mono_range(adj, s, t1, t2);
    lemma_count_reached_le(adj, s, t1, t2, n);
    if w == n - 1 {
        lemma_count_reached_le(adj, s, t1, t2, n - 1);
    } else {
        lemma_count_reached_strict(adj, s, t1, t2, n - 1, w);
    }
}

/// The count of reached vertices never shrinks as the step bound grows.
pub proof fn lemma_count_reached_le(adj: Seq<Seq<usize>>, s: int, t1: int, t2: int, n: int)
    requires
        t1 <= t2,
    ensures
        count_reached(adj, s, t1, n) <= count_reached(adj, s, t2, n),
    decreases n,
{
    lemma_reached_mono_range(adj, s, t1, t2);
    if n > 0 {
        lemma_count_reached_le(adj, s, t1, t2, n - 1);
    }
}

/// One synchronous step turns the breadth-first layering at `t` into the
/// layering at `t + 1`: the marked vertices are exactly the next layer.
proof fn lemma_one_step(
    adj: Seq<Seq<usize>>,
    s: int,
    entry: Seq<u32>,
    nin: Seq<u32>,
    marked: Seq<u32>,
    post: Seq<u32>,
    t: int,
)
    requires
        in_range(adj),
        0 <= s < adj.len(),
        entry.len() == adj.len(),
        nin.len() == adj.len(),
        t >= 0,
        forall|v: int|
            0 <= v < entry.len() ==> (#[trigger] entry[v]) == 0 || entry[v] == 1 || entry[v] == 2,
        layers_ok(adj, s, entry, t),
        exposure_ok(adj, entry, nin),
        marked.len() == adj.len(),
        forall|v: int|
            0 <= v < marked.len() ==> (#[trigger] marked[v]) == (if entry[v] == 0 && nin[v] > 0 {
                3u32
            } else {
                entry[v]
            }),
        post.len() == adj.len(),
        forall|v: int| 0 <= v < post.len() ==> (#[trigger] post[v]) == advance_val(marked[v]),
    ensures
        layers_ok(adj, s, post, t + 1),
{
    lemma_reached_mono(adj, s, t - 1);
    assert forall|v: int| 0 <= v < post.len() implies (((#[trigger] post[v]) == 1 <==> reached(
        adj,
        s,
        t + 1,
        v,
    ) && !reached(adj, s, t, v)) && (post[v] == 2 <==> reached(adj, s, t, v))) by {
        lemma_reached_step(adj, s, t, v);
        // removed after the step: was infected or removed, i.e. within t
        if entry[v] == 1 {
            assert(reached(adj, s, t, v));
        }
        if entry[v] == 2 {
            assert(reached(adj, s, t - 1, v));
            assert(reached(adj, s, (t - 1) + 1, v));
        }
        if reached(adj, s, t, v) {
            if reached(adj, s, t - 1, v) {
                assert(entry[v] == 2);
            } else {
                assert(entry[v] == 1);
            }
            assert(post[v] == 2);
        }
        // infected after the step: was marked, i.e. exposed and susceptible
        if post[v] == 1 {
            assert(marked[v] == 3);
            assert(entry[v] == 0 && nin[v] > 0);
            assert(exposed_by(adj, entry, v, adj.len() as int));
            let (u, j) = choose|u: int, j: int|
                0 <= u < adj.len() && 0 <= j < adj[u].len() && entry[u] == 1 && (
                #[trigger] adj[u][j]) as int == v;
            assert(reached(adj, s, t, u) && !reached(adj, s, t - 1, u));
            assert(reached(adj, s, t + 1, v));
            assert(!reached(adj, s, t, v));
        }
        if reached(adj, s, t + 1, v) && !reached(adj, s, t, v) {
            assert(v != s);
            let (u, j) = choose|u: int, j: int|
                0 <= u < adj.len() && 0 <= j < adj[u].len() && (#[trigger] adj[u][j]) as int == v
                    && reached(adj, s, t, u) && !reached(adj, s, t - 1, u);
            assert(entry[u] == 1);
            assert(exposed_by(adj, entry, v, adj.len() as int));
            assert(nin[v] > 0);
            assert(entry[v] == 0);
            assert(marked[v] == 3);
            assert(post[v] == 1);
        }
    }
}

/// The aggregate statistics of one simulation run.
#[derive(Clone, Copy, PartialEq, Eq, Structural, Debug)]
pub struct SimulationResult {
    /// The largest number of vertices infected at the same time.
    pub peak_concurrent_infected: u32,
    /// The number of time steps until the epidemic burned out.
    pub duration_steps: u32,
    /// The number of vertices that were ever infected.
    pub total_ever_infected: u32,
}

impl Unweighted {
    /// A population of `n` vertices, every one given the colour `value`.
    pub fn set_colour(value: u32, n: usize) -> (r: Vec<u32>)
        ensures
            r@.len() == n,
            forall|k: int| 0 <= k < n ==> r@[k] == value,
    {
        let mut clr: Vec<u32> = Vec::new();
        let mut i: usize = 0;
        while i < n
            invariant
                i <= n,
                clr@.len() == i,
                forall|k: int| 0 <= k < i ==> clr@[k] == value,
            decreases n - i,
        {
            clr.push(value);
            i += 1;
        }
        clr
    }

    /// One transmission trial: whether at least one of `n` independent
    /// per-contact trials at probability `alpha` succeeds.
    ///
    /// With no exposure, or `alpha` at zero, the trial never succeeds; with
    /// `alpha` at one and at least one exposure it always does.  In between
    /// the outcome is random: each contact succeeds when a fresh uniform
    /// draw falls below the scaled threshold.
    pub fn infected(n: u32, alpha: Alpha, rng: &mut SimRng) -> (r: bool)
        ensures
            n == 0 ==> r == false,
            alpha == Alpha::Zero ==> r == false,
            alpha == Alpha::Scaled(0u64) ==> r == false,
            alpha == Alpha::One && n >= 1 ==> r == true,
    {
        match alpha {
            Alpha::Zero => false,
            Alpha::One => n >= 1,
            Alpha::Scaled(t) => {
                let mut i: u32 = 0;
                let mut hit = false;
                while i < n
                    invariant
                        i <= n,
                        t == 0 ==> hit == false,
                        i == 0 ==> hit == false,
                    decreases n - i,
                {
                    let x = rng.next_u64();
                    if x < t {
                        hit = true;
                    }
                    i += 1;
                }
                hit
            },
        }
    }

    /// Run one SIR epidemic over this graph, starting from the single
    /// infected vertex `p0`, with per-contact transmission probability
    /// `alpha`, drawing randomness from `rng`.
    ///
    /// A seed outside the vertex index space is rejected with the all-zero
    /// result, without touching the generator.  Otherwise the run takes at
    /// least one step; the peak is at least one and no statistic exceeds the
    /// vertex count.  With `alpha` at zero the seed infects nobody and the
    /// result is exactly one peak, one step, one infection.  With `alpha` at
    /// one the run is a breadth-first layering of the graph from the seed:
    /// the total equals the number of vertices the seed reaches along
    /// directed edges, and the duration exceeds the seed's eccentricity
    /// within that reachable set by exactly one, the final step being the one
    /// in which the outermost layer recovers.
    #[allow(non_snake_case)]
    #[verifier::loop_isolation(false)]
    pub fn SIR(&self, p0: usize, alpha: Alpha, rng: &mut SimRng) -> (r: SimulationResult)
        requires
            self.wf(),
            self.adj().len() <= u32::MAX,
            flat_len(self.adj()) <= u32::MAX,
        ensures
            p0 >= self.adj().len() ==> r == (SimulationResult {
                peak_concurrent_infected: 0,
                duration_steps: 0,
                total_ever_infected: 0,
            }) && *final(rng) == *old(rng),
            p0 < self.adj().len() ==> {
                &&& 1 <= r.peak_concurrent_infected
                &&& r.peak_concurrent_infected <= r.total_ever_infected
                &&& 1 <= r.duration_steps
                &&& r.duration_steps <= r.total_ever_infected
                &&& r.total_ever_infected <= self.adj().len()
            },
            p0 < self.adj().len() && alpha == Alpha::Zero ==> r == (SimulationResult {
                peak_concurrent_infected: 1,
                duration_steps: 1,
                total_ever_infected: 1,
            }),
            p0 < self.adj().len() && alpha == Alpha::One ==> {
                &&& (forall|t: int|
                    t >= r.duration_steps - 1 ==> count_reached(
                        self.adj(),
                        p0 as int,
                        t,
                        self.adj().len() as int,
                    ) == r.total_ever_infected)
                &&& (r.duration_steps >= 2 ==> count_reached(
                    self.adj(),
                    p0 as int,
                    r.duration_steps - 2,
                    self.adj().len() as int,
                ) < r.total_ever_infected)
            },
    {
        let n = self.vertex_count();
        if p0 >= n {
            return SimulationResult {
                peak_concurrent_infected: 0,
                duration_steps: 0,
                total_ever_infected: 0,
            };
        }
        let ghost adjs = self.adj();
        proof {
            assert(in_range(adjs));
        }
        let mut clr = Self::set_colour(0, n);
        proof {
            lemma_count_none(clr@, 1);
            lemma_count_none(clr@, 2);
            lemma_count_update(clr@, 1, p0 as int, 1);
            lemma_count_update(clr@, 2, p0 as int, 1);
        }
        clr.set(p0, 1);
        proof {
            assert forall|v: int| 0 <= v < n implies (((#[trigger] clr@[v]) == 1 <==> reached(
                adjs,
                p0 as int,
                0,
                v,
            ) && !reached(adjs, p0 as int, -1, v)) && (clr@[v] == 2 <==> reached(
                adjs,
                p0 as int,
                -1,
                v,
            ))) by {
                assert(reached(adjs, p0 as int, 0, v) <==> v == p0 as int);
            }
            assert(layers_ok(adjs, p0 as int, clr@, 0));
        }
        let mut nin = Self::set_colour(0, n);
        let mut max: u32 = 0;
        let mut len: u32 = 0;
        let mut ttl: u32 = 0;
        let mut numb_inf: u32 = 1;
        proof {
            lemma_count_two(clr@, 1, 2);
        }
        while numb_inf > 0
            invariant
                clr@.len() == n,
                nin@.len() == n,
                forall|q: int| 0 <= q < n ==> (#[trigger] clr@[q]) == 0 || clr@[q] == 1 || clr@[q]
                    == 2,
                numb_inf == count_val(clr@, 1),
                ttl == count_val(clr@, 2),
                max <= ttl,
                len <= ttl,
                numb_inf + ttl <= n,
                numb_inf > 0 || (max >= 1 && len >= 1),
                alpha == Alpha::Zero ==> numb_inf + ttl == 1 && max == ttl && len == ttl,
                alpha == Alpha::One ==> layers_ok(adjs, p0 as int, clr@, len as int),
                alpha == Alpha::One && len >= 1 ==> exists|w: int|
                    0 <= w < n && #[trigger] reached(adjs, p0 as int, len - 1, w) && !reached(
                        adjs,
                        p0 as int,
                        len - 2,
                        w,
                    ),
            decreases count_val(clr@, 0) + count_val(clr@, 1),
        {
            let ghost entry = clr@;
            let ghost len0 = len as int;
            // a. zero the exposure buffer
            let mut i: usize = 0;
            while i < n
                invariant
                    i <= n,
                    nin@.len() == n,
                    forall|v: int| 0 <= v < i ==> (#[trigger] nin@[v]) == 0,
                decreases n - i,
            {
                nin.set(i, 0);
                i += 1;
            }
            // b. every infected vertex exposes each of its contacts once
            proof {
                assert(adjs.take(0) =~= Seq::<Seq<usize>>::empty());
            }
            let mut i: usize = 0;
            while i < n
                invariant
                    i <= n,
                    nin@.len() == n,
                    forall|v: int|
                        0 <= v < n ==> (#[trigger] nin@[v]) as int <= flat_len(adjs.take(i as int)),
                    forall|v: int|
                        0 <= v < n ==> ((#[trigger] nin@[v]) > 0 <==> exposed_by(
                            adjs,
                            clr@,
                            v,
                            i as int,
                        )),
                decreases n - i,
            {
                proof {
                    lemma_flat_take_succ(adjs, i as int);
                }
                if clr[i] == 1 {
                    let deg = self.degree(i);
                    let mut j: usize = 0;
                    while j < deg
                        invariant
                            j <= deg,
                            nin@.len() == n,
                            forall|v: int|
                                0 <= v < n ==> (#[trigger] nin@[v]) as int <= flat_len(
                                    adjs.take(i as int),
                                ) + j,
                            forall|v: int|
                                0 <= v < n ==> ((#[trigger] nin@[v]) > 0 <==> exposed_by(
                                    adjs,
                                    clr@,
                                    v,
                                    i as int,
                                ) || row_hits(adjs[i as int], v, j as int)),
                        decreases deg - j,
                    {
                        let t = self.neighbor(i, j);
                        let cur = nin[t];
                        proof {
                            lemma_flat_take_le(adjs, i as int + 1);
                        }
                        let ghost nin0 = nin@;
                        nin.set(t, cur + 1);
                        proof {
                            assert forall|v: int| 0 <= v < n implies ((#[trigger] nin@[v]) > 0
                                <==> exposed_by(adjs, clr@, v, i as int) || row_hits(
                                adjs[i as int],
                                v,
                                j + 1,
                            )) by {
                                if v == t as int {
                                    assert((adjs[i as int][j as int]) as int == v);
                                    assert(row_hits(adjs[i as int], v, j + 1));
                                    assert(nin@[v] > 0);
                                } else {
                                    assert(nin@[v] == nin0[v]);
                                    if nin0[v] > 0 {
                                        if row_hits(adjs[i as int], v, j as int) {
                                            let jj = choose|jj: int|
                                                0 <= jj < j && (#[trigger] adjs[i as int][jj]) as int
                                                    == v;
                                            assert((adjs[i as int][jj]) as int == v);
                                            assert(row_hits(adjs[i as int], v, j + 1));
                                        }
                                    }
                                    if row_hits(adjs[i as int], v, j + 1) {
                                        let jj = choose|jj: int|
                                            0 <= jj < j + 1 && (#[trigger] adjs[i as int][jj]) as int
                                                == v;
                                        if jj == j as int {
                                            assert(false);
                                        } else {
                                            assert(row_hits(adjs[i as int], v, j as int));
                                        }
                                    }
                                }
                            }
                        }
                        j += 1;
                    }
                    proof {
                        assert forall|v: int| 0 <= v < n implies ((#[trigger] nin@[v]) > 0
                            <==> exposed_by(adjs, clr@, v, i + 1)) by {
                            if nin@[v] > 0 {
                                if exposed_by(adjs, clr@, v, i as int) {
                                    lemma_exposed_widen(adjs, clr@, v, i as int, i + 1);
                                } else {
                                    assert(row_hits(adjs[i as int], v, deg as int));
                                    let jj = choose|jj: int|
                                        0 <= jj < deg && (#[trigger] adjs[i as int][jj]) as int
                                            == v;
                                    assert((adjs[i as int][jj]) as int == v);
                                    assert(exposed_by(adjs, clr@, v, i + 1));
                                }
                            }
                            if exposed_by(adjs, clr@, v, i + 1) {
                                let (u, jj) = choose|u: int, jj: int|
                                    0 <= u < i + 1 && 0 <= jj < adjs[u].len() && clr@[u] == 1 && (
                                    #[trigger] adjs[u][jj]) as int == v;
                                if u == i as int {
                                    assert((adjs[i as int][jj]) as int == v);
                                    assert(row_hits(adjs[i as int], v, deg as int));
                                } else {
                                    assert((adjs[u][jj]) as int == v);
                                    assert(exposed_by(adjs, clr@, v, i as int));
                                }
                            }
                        }
                    }
                } else {
                    proof {
                        assert forall|v: int| 0 <= v < n implies ((#[trigger] nin@[v]) > 0
                            <==> exposed_by(adjs, clr@, v, i + 1)) by {
                            if nin@[v] > 0 {
                                lemma_exposed_widen(adjs, clr@, v, i as int, i + 1);
                            }
                            if exposed_by(adjs, clr@, v, i + 1) {
                                let (u, jj) = choose|u: int, jj: int|
                                    0 <= u < i + 1 && 0 <= jj < adjs[u].len() && clr@[u] == 1 && (
                                    #[trigger] adjs[u][jj]) as int == v;
                                if u == i as int {
                                    assert(false);
                                } else {
                                    assert((adjs[u][jj]) as int == v);
                                    assert(exposed_by(adjs, clr@, v, i as int));
                                }
                            }
                        }
                    }
                }
                i += 1;
            }
            // c. transmission trials for the exposed susceptible vertices
            let ghost pre_t = clr@;
            let ghost c03 = count_val(clr@, 0) + count_val(clr@, 3);
            let mut i: usize = 0;
            while i < n
                invariant
                    i <= n,
                    clr@.len() == n,
                    count_val(clr@, 1) == count_val(pre_t, 1),
                    count_val(clr@, 2) == count_val(pre_t, 2),
                    count_val(clr@, 0) + count_val(clr@, 3) == c03,
                    forall|q: int|
                        0 <= q < n ==> clr@[q] == pre_t[q] || (pre_t[q] == 0 && (#[trigger] clr@[q])
                            == 3),
                    forall|q: int| i <= q < n ==> (#[trigger] clr@[q]) == pre_t[q],
                    alpha == Alpha::One ==> forall|q: int|
                        0 <= q < i ==> (#[trigger] clr@[q]) == (if pre_t[q] == 0 && nin@[q] > 0 {
                            3u32
                        } else {
                            pre_t[q]
                        }),
                    alpha == Alpha::Zero ==> clr@ == pre_t,
                decreases n - i,
            {
                if clr[i] == 0 && nin[i] > 0 {
                    let b = Self::infected(nin[i], alpha, rng);
                    if b {
                        proof {
                            lemma_count_update(clr@, 0, i as int, 3);
                            lemma_count_update(clr@, 1, i as int, 3);
                            lemma_count_update(clr@, 2, i as int, 3);
                            lemma_count_update(clr@, 3, i as int, 3);
                        }
                        clr.set(i, 3);
                    }
                }
                i += 1;
            }
            // d. record the step's statistics
            if numb_inf > max {
                max = numb_inf;
            }
            ttl = ttl + numb_inf;
            // e. advance every vertex synchronously
            let ghost pre = clr@;
            proof {
                lemma_count_none(entry, 3);
                assert(pre.take(0) =~= Seq::<u32>::empty());
                assert(clr@.take(0) =~= Seq::<u32>::empty());
            }
            numb_inf = 0;
            let mut i: usize = 0;
            while i < n
                invariant
                    i <= n,
                    clr@.len() == n,
                    forall|q: int| i <= q < n ==> (#[trigger] clr@[q]) == pre[q],
                    forall|q: int| 0 <= q < i ==> (#[trigger] clr@[q]) == advance_val(pre[q]),
                    numb_inf == count_val(clr@.take(i as int), 1),
                    count_val(clr@.take(i as int), 2) == count_val(pre.take(i as int), 1)
                        + count_val(pre.take(i as int), 2),
                    count_val(clr@.take(i as int), 0) == count_val(pre.take(i as int), 0),
                    count_val(clr@.take(i as int), 1) == count_val(pre.take(i as int), 3),
                decreases n - i,
            {
                let ghost cur = clr@;
                let c = clr[i];
                if c == 1 {
                    clr.set(i, 2);
                } else if c == 3 {
                    proof {
                        lemma_count_bound(cur.take(i as int), 1);
                    }
                    clr.set(i, 1);
                    numb_inf += 1;
                }
                proof {
                    assert(clr@.take(i as int) =~= cur.take(i as int));
                    lemma_count_take_succ(clr@, 0, i as int);
                    lemma_count_take_succ(clr@, 1, i as int);
                    lemma_count_take_succ(clr@, 2, i as int);
                    lemma_count_take_succ(pre, 0, i as int);
                    lemma_count_take_succ(pre, 1, i as int);
                    lemma_count_take_succ(pre, 2, i as int);
                    lemma_count_take_succ(pre, 3, i as int);
                }
                i += 1;
            }
            len = len + 1;
            proof {
                assert(clr@.take(n as int) =~= clr@);
                assert(pre.take(n as int) =~= pre);
                lemma_count_two(clr@, 1, 2);
                assert(count_val(entry, 0) + count_val(entry, 3) == c03);
                if alpha == Alpha::Zero {
                    assert(pre == entry);
                }
                if alpha == Alpha::One {
                    assert(pre_t == entry);
                    lemma_one_step(adjs, p0 as int, entry, nin@, pre, clr@, len0);
                    lemma_count_pos(entry, 1);
                    let k = choose|k: int| 0 <= k < entry.len() && entry[k] == 1;
                    assert(reached(adjs, p0 as int, len0, k) && !reached(
                        adjs,
                        p0 as int,
                        len0 - 1,
                        k,
                    ));
                    assert(reached(adjs, p0 as int, len - 1, k) && !reached(
                        adjs,
                        p0 as int,
                        len - 2,
                        k,
                    ));
                }
            }
        }
        proof {
            if alpha == Alpha::One {
                let cap = len as int;
                let p0i = p0 as int;
                assert forall|v: int| 0 <= v < n implies (#[trigger] clr@[v]) != 1 by {
                    if clr@[v] == 1 {
                        lemma_count_elem(clr@, 1, v);
                    }
                }
                assert forall|v: int| 0 <= v < n implies ((#[trigger] reached(adjs, p0i, cap, v))
                    <==> reached(adjs, p0i, cap - 1, v)) by {
                    lemma_reached_mono(adjs, p0i, cap - 1);
                    if reached(adjs, p0i, cap - 1, v) {
                        assert(reached(adjs, p0i, (cap - 1) + 1, v));
                    }
                    if reached(adjs, p0i, cap, v) && !reached(adjs, p0i, cap - 1, v) {
                        assert(clr@[v] == 1);
                    }
                }
                lemma_count_matches(clr@, 2, adjs, p0i, cap - 1);
                assert forall|t: int| t >= cap - 1 implies count_reached(adjs, p0i, t, n as int)
                    == ttl by {
                    lemma_reached_fixpoint(adjs, p0i, cap, t);
                    lemma_count_reached_eq(adjs, p0i, t, cap - 1, n as int);
                }
                if len >= 2 {
                    let w = choose|w: int|
                        0 <= w < n && #[trigger] reached(adjs, p0i, len - 1, w) && !reached(
                            adjs,
                            p0i,
                            len - 2,
                            w,
                        );
                    lemma_count_reached_strict(adjs, p0i, cap - 2, cap - 1, n as int, w);
                }
            }
        }
        SimulationResult {
            peak_concurrent_infected: max,
            duration_steps: len,
            total_ever_infected: ttl,
        }
    }

    /// Run one SIR epidemic exactly as [`Self::SIR`] does.  The `nodes`
    /// population figure and the lockdown and reopen prevalence thresholds
    /// are accepted for the alternate run mode but are never applied: the
    /// contact-policy hook is scaffolding, and no run ever alters the
    /// contact graph.
    #[allow(unused_variables)]
    pub fn reopen_fitness(
        &self,
        p0: usize,
        nodes: u32,
        alpha: Alpha,
        shut_scaled: u64,
        reopen_scaled: u64,
        rng: &mut SimRng,
    ) -> (r: SimulationResult)
        requires
            self.wf(),
            self.adj().len() <= u32::MAX,
            flat_len(self.adj()) <= u32::MAX,
        ensures
            p0 >= self.adj().len() ==> r == (SimulationResult {
                peak_concurrent_infected: 0,
                duration_steps: 0,
                total_ever_infected: 0,
            }) && *final(rng) == *old(rng),
            p0 < self.adj().len() ==> {
                &&& 1 <= r.peak_concurrent_infected
                &&& r.peak_concurrent_infected <= r.total_ever_infected
                &&& 1 <= r.duration_steps
                &&& r.duration_steps <= r.total_ever_infected
                &&& r.total_ever_infected <= self.adj().len()
            },
            p0 < self.adj().len() && alpha == Alpha::Zero ==> r == (SimulationResult {
                peak_concurrent_infected: 1,
                duration_steps: 1,
                total_ever_infected: 1,
            }),
            p0 < self.adj().len() && alpha == Alpha::One ==> {
                &&& (forall|t: int|
                    t >= r.duration_steps - 1 ==> count_reached(
                        self.adj(),
                        p0 as int,
                        t,
                        self.adj().len() as int,
                    ) == r.total_ever_infected)
                &&& (r.duration_steps >= 2 ==> count_reached(
                    self.adj(),
                    p0 as int,
                    r.duration_steps - 2,
                    self.adj().len() as int,
                ) < r.total_ever_infected)
            },
    {
        self.SIR(p0, alpha, rng)
    }
}

} // verus!
