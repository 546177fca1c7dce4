//! Shortest corridors: A* search over the adjacency graph of a mesh.

use crate::geometry::{
    ceil_sqrt, dist_sq, distance_squared, floor_sqrt, isqrt, isqrt_ceil, lemma_ceil_sqrt_bounds,
    lemma_dist_sq_nonnegative, lemma_floor_sqrt_bounds, lemma_rounded_triangle_inequality,
    lemma_square_bounded, lemma_square_monotone, Point3,
};
use crate::mesh::{
    lemma_neighbor_characterised, MeshModel, Navmesh,
    PathError,
};
use vstd::prelude::*;
use vstd::set_lib::{lemma_int_range, set_int_range};

verus! {

/// No step between two centroids of a mesh costs more than this (2^33).
pub const STEP_LIMIT: u64 = 0x2_0000_0000;

impl MeshModel {
    /// The cost of stepping from triangle `t` to triangle `u`: the distance
    /// between their centroids, rounded up.
    pub open spec fn step_cost(self, t: int, u: int) -> nat {
        ceil_sqrt(dist_sq(self.centroid(t), self.centroid(u)) as nat)
    }

    /// The estimate of what remains from triangle `t` to `goal`: the distance
    /// between their centroids, rounded down.
    pub open spec fn estimate(self, t: int, goal: int) -> nat {
        floor_sqrt(dist_sq(self.centroid(t), self.centroid(goal)) as nat)
    }

    /// Entries `i` and `i + 1` of `path` are triangles that share an edge.
    pub open spec fn linked(self, path: Seq<usize>, i: int) -> bool {
        self.adjacent(path[i] as int, path[i + 1] as int)
    }

    /// `path` starts at `start` and moves from triangle to adjacent triangle.
    pub open spec fn is_walk(self, path: Seq<usize>, start: int) -> bool {
        &&& path.len() > 0
        &&& path[0] == start
        &&& forall|i: int| 0 <= i < path.len() ==> (#[trigger] path[i]) < self.triangles.len()
        &&& forall|i: int| 0 <= i < path.len() - 1 ==> #[trigger] self.linked(path, i)
    }

    /// `path` is a walk from `start` that ends at `goal`.
    pub open spec fn is_corridor(self, path: Seq<usize>, start: int, goal: int) -> bool {
        self.is_walk(path, start) && path.last() == goal
    }

    /// The summed step costs of `path` up to its entry `i`.
    pub open spec fn prefix_cost(self, path: Seq<usize>, i: int) -> nat
        decreases i,
    {
        if i <= 0 {
            0
        } else {
            self.prefix_cost(path, i - 1) + self.step_cost(path[i - 1] as int, path[i] as int)
        }
    }

    /// The summed step costs of the whole of `path`.
    pub open spec fn corridor_cost(self, path: Seq<usize>) -> nat {
        self.prefix_cost(path, path.len() - 1)
    }

    /// Some corridor leads from `start` to `goal`.
    pub open spec fn reachable(self, start: int, goal: int) -> bool {
        exists|path: Seq<usize>| self.is_corridor(path, start, goal)
    }

    /// `path` is a corridor from `start` to `goal` that no other corridor
    /// between the two undercuts.
    pub open spec fn is_shortest_corridor(self, path: Seq<usize>, start: int, goal: int) -> bool {
        &&& self.is_corridor(path, start, goal)
        &&& forall|other: Seq<usize>| #[trigger]
            self.is_corridor(other, start, goal) ==> self.corridor_cost(path)
                <= self.corridor_cost(other)
    }
}

/// Steps and estimates between triangles stay within `STEP_LIMIT`.
pub proof fn lemma_step_bounded(m: MeshModel, t: int, u: int)
    ensures
        0 <= dist_sq(m.centroid(t), m.centroid(u)) <= 3 * 0xffff_ffff * 0xffff_ffff,
        m.step_cost(t, u) <= STEP_LIMIT,
        m.estimate(t, u) <= STEP_LIMIT,
{
    let a = m.centroid(t);
    let b = m.centroid(u);
    lemma_square_bounded(a.x - b.x, 0xffff_ffff);
    lemma_square_bounded(a.y - b.y, 0xffff_ffff);
    lemma_square_bounded(a.z - b.z, 0xffff_ffff);
    let d = dist_sq(a, b) as nat;
    lemma_ceil_sqrt_bounds(d);
    lemma_floor_sqrt_bounds(d);
    let c = ceil_sqrt(d) as int;
    let f = floor_sqrt(d) as int;
    assert(0x2_0000_0000int * 0x2_0000_0000int == 0x4_0000_0000_0000_0000int) by (nonlinear_arith);
    assert(0xffff_ffffint * 0xffff_ffffint == 0xffff_fffe_0000_0001int) by (nonlinear_arith);
    if c > 0x2_0000_0000 {
        lemma_square_monotone(0x2_0000_0000, c - 1);
    }
    if f > 0x2_0000_0000 {
        lemma_square_monotone(0x2_0000_0001, f);
        assert(0x2_0000_0001int * 0x2_0000_0001int > 0x4_0000_0000_0000_0000int) by (nonlinear_arith);
    }
}

/// Appending a triangle to a path leaves the costs of its prefixes alone and
/// adds one step to the total.
pub proof fn lemma_prefix_cost_push(m: MeshModel, path: Seq<usize>, w: usize, i: int)
    requires
        0 <= i < path.len(),
    ensures
        m.prefix_cost(path.push(w), i) == m.prefix_cost(path, i),
        m.prefix_cost(path.push(w), path.len() as int) == m.prefix_cost(path, path.len() - 1)
            + m.step_cost(path.last() as int, w as int),
    decreases path.len() - 1 - i,
{
    lemma_prefix_cost_same(m, path.push(w), path, i);
    let last = path.len() - 1;
    lemma_prefix_cost_same(m, path.push(w), path, last);
    assert(path.push(w)[last] == path.last());
    assert(path.push(w)[last + 1] == w);
}

/// The prefix cost depends only on the entries up to the prefix's end.
pub proof fn lemma_prefix_cost_same(m: MeshModel, p: Seq<usize>, q: Seq<usize>, i: int)
    requires
        0 <= i < p.len(),
        i < q.len(),
        forall|j: int| 0 <= j <= i ==> p[j] == q[j],
    ensures
        m.prefix_cost(p, i) == m.prefix_cost(q, i),
    decreases i,
{
    if i > 0 {
        lemma_prefix_cost_same(m, p, q, i - 1);
    }
}

/// A walk of `i` steps costs at most `i` times the largest step.
pub proof fn lemma_prefix_cost_bounded(m: MeshModel, path: Seq<usize>, start: int, i: int)
    requires
        m.is_walk(path, start),
        0 <= i < path.len(),
    ensures
        m.prefix_cost(path, i) <= i * STEP_LIMIT,
    decreases i,
{
    if i > 0 {
        lemma_prefix_cost_bounded(m, path, start, i - 1);
        assert(path[i - 1] < m.triangles.len());
        assert(path[i] < m.triangles.len());
        lemma_step_bounded(m, path[i - 1] as int, path[i] as int);
        assert((i - 1) * STEP_LIMIT + STEP_LIMIT == i * STEP_LIMIT) by (nonlinear_arith);
    }
}

/// Along a walk the estimate never drops faster than the cost grows: the
/// estimate at an earlier entry is at most the cost between the two entries
/// plus the estimate at the later one.
pub proof fn lemma_estimate_consistent(
    m: MeshModel,
    path: Seq<usize>,
    start: int,
    goal: int,
    i0: int,
    i: int,
)
    requires
        m.is_walk(path, start),
        0 <= i0 <= i < path.len(),
        0 <= goal < m.triangles.len(),
    ensures
        m.estimate(path[i0] as int, goal) + m.prefix_cost(path, i0) <= m.prefix_cost(path, i)
            + m.estimate(path[i] as int, goal),
    decreases i - i0,
{
    if i0 < i {
        lemma_estimate_consistent(m, path, start, goal, i0, i - 1);
        let a = m.centroid(path[i - 1] as int);
        let b = m.centroid(path[i] as int);
        let c = m.centroid(goal);
        lemma_rounded_triangle_inequality(a, b, c);
    }
}

/// A walk that ends where an edge leads on can follow that edge: the result
/// is again a walk, and it costs one step more.
pub proof fn lemma_extend_walk(m: MeshModel, path: Seq<usize>, start: int, k: int, w: usize)
    requires
        m.valid(),
        m.is_walk(path, start),
        0 <= k < 3,
        m.neighbor(path.last() as int, k) == Some(w),
    ensures
        w < m.triangles.len(),
        m.is_walk(path.push(w), start),
        m.prefix_cost(path.push(w), path.len() as int) == m.prefix_cost(path, path.len() - 1)
            + m.step_cost(path.last() as int, w as int),
{
    let last = path.len() - 1;
    let longer = path.push(w);
    assert(path[last] < m.triangles.len());
    lemma_neighbor_characterised(m.triangles, path[last] as int, k);
    lemma_prefix_cost_push(m, path, w, last);
    assert forall|i: int| 0 <= i < longer.len() implies (#[trigger] longer[i]) < m.triangles.len() by {
        if i < path.len() {
            assert(path[i] < m.triangles.len());
        }
    }
    assert forall|i: int| 0 <= i < longer.len() - 1 implies #[trigger] m.linked(longer, i) by {
        if i < last {
            assert(m.linked(path, i));
        }
    }
}

/// The bookkeeping of a search in progress. A triangle is unseen (status 0),
/// open (1) or settled (2); every seen triangle has a route from the start.
struct Frontier {
    status: Seq<u8>,
    cost: Seq<u128>,
    rank: Seq<u128>,
    parent: Seq<usize>,
    open: Seq<usize>,
    routes: Seq<Seq<usize>>,
    rounds: int,
}

spec fn frontier(
    status: Seq<u8>,
    cost: Seq<u128>,
    rank: Seq<u128>,
    parent: Seq<usize>,
    open: Seq<usize>,
    routes: Seq<Seq<usize>>,
    rounds: int,
) -> Frontier {
    Frontier { status, cost, rank, parent, open, routes, rounds }
}

/// What is recorded for a seen triangle `v` fits its route.
spec fn node_ok(m: MeshModel, start: int, goal: int, f: Frontier, v: int) -> bool {
    let r = f.routes[v];
    &&& m.is_walk(r, start)
    &&& r.last() == v
    &&& r.no_duplicates()
    &&& r.len() <= f.rounds + 1
    &&& f.cost[v] == m.prefix_cost(r, r.len() - 1)
    &&& f.rank[v] == f.cost[v] + m.estimate(v, goal)
    &&& forall|i: int| 0 <= i < r.len() - 1 ==> f.status[(#[trigger] r[i]) as int] == 2
    &&& if v == start {
        r.len() == 1
    } else {
        let p = f.parent[v] as int;
        &&& 0 <= p < m.triangles.len()
        &&& f.status[p] == 2
        &&& r == f.routes[p].push(v as usize)
    }
}

/// The triangle across edge `k` of the settled triangle `u` has been seen, at
/// a cost no higher than the way through `u`.
spec fn edge_ok(m: MeshModel, f: Frontier, u: int, k: int) -> bool {
    match m.neighbor(u, k) {
        Some(w) => f.status[w as int] != 0 && f.cost[w as int] <= f.cost[u] + m.step_cost(
            u,
            w as int,
        ),
        None => true,
    }
}

/// No walk from the start reaches `u` more cheaply than recorded.
spec fn settled(m: MeshModel, start: int, f: Frontier, u: int) -> bool {
    forall|p: Seq<usize>, i: int|
        m.is_walk(p, start) && 0 <= i < p.len() && p[i] == u ==> f.cost[u] <= #[trigger] m.prefix_cost(
            p,
            i,
        )
}

/// The invariant of the search. While triangle `expanding` is being
/// expanded, only its first `done` edges are required to be relaxed.
spec fn frontier_inv(m: MeshModel, start: int, goal: int, f: Frontier, expanding: int, done: int) -> bool {
    let n = m.triangles.len() as int;
    &&& f.status.len() == n
    &&& f.cost.len() == n
    &&& f.rank.len() == n
    &&& f.parent.len() == n
    &&& f.routes.len() == n
    &&& 0 <= f.rounds
    &&& forall|v: int| 0 <= v < n ==> (#[trigger] f.status[v]) <= 2
    &&& forall|v: int| 0 <= v < n && f.status[v] != 0 ==> #[trigger] node_ok(m, start, goal, f, v)
    &&& forall|u: int, k: int|
        0 <= u < n && 0 <= k < 3 && f.status[u] == 2 && (u != expanding || k < done)
            ==> #[trigger] edge_ok(m, f, u, k)
    &&& forall|u: int| 0 <= u < n && f.status[u] == 2 ==> #[trigger] settled(m, start, f, u)
    &&& forall|i: int|
        0 <= i < f.open.len() ==> (#[trigger] f.open[i]) < n && f.status[f.open[i] as int] == 1
    &&& f.open.no_duplicates()
    &&& forall|v: int| 0 <= v < n && #[trigger] f.status[v] == 1 ==> f.open.contains(v as usize)
    &&& (f.status[start] == 2 || (f.status[start] == 1 && forall|v: int|
        0 <= v < n && v != start ==> #[trigger] f.status[v] == 0))
    &&& (0 <= expanding ==> expanding < n && f.status[expanding] == 2
        && f.routes[expanding].len() <= f.rounds)
}

/// The first entry of `p`, from `j` on, that is not settled.
proof fn lemma_first_unsettled(f: Frontier, p: Seq<usize>, j: int, i: int) -> (i0: int)
    requires
        0 <= j <= i < p.len(),
        f.status[p[i] as int] != 2,
        forall|k: int| 0 <= k < j ==> f.status[(#[trigger] p[k]) as int] == 2,
    ensures
        j <= i0 <= i,
        f.status[p[i0] as int] != 2,
        forall|k: int| 0 <= k < i0 ==> f.status[(#[trigger] p[k]) as int] == 2,
    decreases i - j,
{
    if f.status[p[j] as int] != 2 {
        j
    } else {
        lemma_first_unsettled(f, p, j + 1, i)
    }
}

/// The edge of `q` that leads to an adjacent triangle `w`.
proof fn lemma_edge_towards(m: MeshModel, q: int, w: usize) -> (k: int)
    requires
        m.adjacent(q, w as int),
    ensures
        0 <= k < 3,
        m.neighbor(q, k) == Some(w),
{
    if m.neighbor(q, 0) == Some(w) {
        0
    } else if m.neighbor(q, 1) == Some(w) {
        1
    } else {
        2
    }
}

/// The open triangle of lowest rank is reached at its lowest cost.
proof fn lemma_lowest_is_settled(m: MeshModel, start: int, goal: int, f: Frontier, idx: int)
    requires
        m.valid(),
        0 <= start < m.triangles.len(),
        0 <= goal < m.triangles.len(),
        frontier_inv(m, start, goal, f, -1, 3),
        0 <= idx < f.open.len(),
        forall|i: int|
            0 <= i < f.open.len() ==> f.rank[f.open[idx] as int] <= f.rank[(#[trigger] f.open[i]) as int],
    ensures
        settled(m, start, f, f.open[idx] as int),
{
    let u = f.open[idx] as int;
    assert(f.open[idx] < m.triangles.len() && f.status[u] == 1);
    assert(node_ok(m, start, goal, f, u));
    assert forall|p: Seq<usize>, i: int|
        m.is_walk(p, start) && 0 <= i < p.len() && p[i] == u implies f.cost[u] <= #[trigger] m.prefix_cost(
        p,
        i,
    ) by {
        if f.status[start] != 2 {
            if u != start {
                assert(f.status[u] == 0);
            }
            assert(f.cost[u] == 0);
        } else {
            let i0 = lemma_first_unsettled(f, p, 0, i);
            assert(i0 >= 1);
            let q = p[i0 - 1] as int;
            let w = p[i0];
            assert(p[i0 - 1] < m.triangles.len());
            assert(p[i0] < m.triangles.len());
            assert(f.status[q] == 2);
            assert(m.linked(p, i0 - 1));
            assert(settled(m, start, f, q));
            assert(f.cost[q] <= m.prefix_cost(p, i0 - 1));
            let k = lemma_edge_towards(m, q, w);
            assert(edge_ok(m, f, q, k));
            assert(f.status[w as int] <= 2);
            assert(f.status[w as int] == 1);
            assert(f.open.contains(w));
            let iw = choose|iw: int| 0 <= iw < f.open.len() && f.open[iw] == w;
            assert(f.rank[u] <= f.rank[f.open[iw] as int]);
            assert(node_ok(m, start, goal, f, w as int));
            lemma_estimate_consistent(m, p, start, goal, i0, i);
        }
    }
}

/// The frontier after the open triangle at position `idx` has been settled.
spec fn settle(f: Frontier, idx: int) -> Frontier {
    Frontier {
        status: f.status.update(f.open[idx] as int, 2u8),
        open: f.open.remove(idx),
        rounds: f.rounds + 1,
        ..f
    }
}

proof fn lemma_settle(m: MeshModel, start: int, goal: int, f: Frontier, idx: int)
    requires
        m.valid(),
        0 <= start < m.triangles.len(),
        0 <= goal < m.triangles.len(),
        frontier_inv(m, start, goal, f, -1, 3),
        0 <= idx < f.open.len(),
        settled(m, start, f, f.open[idx] as int),
    ensures
        frontier_inv(m, start, goal, settle(f, idx), f.open[idx] as int, 0),
{
    let n = m.triangles.len() as int;
    let f2 = settle(f, idx);
    let u = f.open[idx] as int;
    assert(f.open[idx] < n && f.status[u] == 1);
    assert forall|v: int| 0 <= v < n implies (#[trigger] f2.status[v]) <= 2 by {
        assert(f.status[v] <= 2);
    }
    assert forall|v: int| 0 <= v < n && f2.status[v] != 0 implies #[trigger] node_ok(
        m,
        start,
        goal,
        f2,
        v,
    ) by {
        assert(f.status[v] != 0);
        assert(node_ok(m, start, goal, f, v));
        let r = f.routes[v];
        assert forall|i: int| 0 <= i < r.len() - 1 implies f2.status[(#[trigger] r[i]) as int] == 2 by {
            assert(f.status[r[i] as int] == 2);
        }
    }
    assert forall|w: int, k: int|
        0 <= w < n && 0 <= k < 3 && f2.status[w] == 2 && (w != u || k < 0) implies #[trigger] edge_ok(
        m,
        f2,
        w,
        k,
    ) by {
        assert(f.status[w] == 2);
        assert(edge_ok(m, f, w, k));
    }
    assert forall|w: int| 0 <= w < n && f2.status[w] == 2 implies #[trigger] settled(m, start, f2, w) by {
        if w != u {
            assert(settled(m, start, f, w));
        }
    }
    assert forall|i: int| 0 <= i < f2.open.len() implies (#[trigger] f2.open[i]) < n && f2.status[f2.open[i] as int]
        == 1 by {
        if i < idx {
            assert(f2.open[i] == f.open[i]);
        } else {
            assert(f2.open[i] == f.open[i + 1]);
        }
    }
    assert forall|i: int, j: int| 0 <= i < f2.open.len() && 0 <= j < f2.open.len() && i != j implies f2.open[i]
        != f2.open[j] by {
        let a = if i < idx { i } else { i + 1 };
        let b = if j < idx { j } else { j + 1 };
        assert(f2.open[i] == f.open[a]);
        assert(f2.open[j] == f.open[b]);
    }
    assert forall|v: int| 0 <= v < n && #[trigger] f2.status[v] == 1 implies f2.open.contains(v as usize) by {
        assert(f.status[v] == 1);
        assert(f.open.contains(v as usize));
        let j = choose|j: int| 0 <= j < f.open.len() && f.open[j] == v as usize;
        if j < idx {
            assert(f2.open[j] == v as usize);
        } else {
            assert(f2.open[j - 1] == v as usize);
        }
    }
    assert(node_ok(m, start, goal, f, u));
    if f.status[start] != 2 {
        if u != start {
            assert(f.status[u] == 0);
        }
    }
}

/// An edge of the triangle under expansion that needs no update counts as relaxed.
proof fn lemma_edge_done(m: MeshModel, start: int, goal: int, f: Frontier, u: int, k: int)
    requires
        frontier_inv(m, start, goal, f, u, k),
        0 <= u,
        0 <= k < 3,
        edge_ok(m, f, u, k),
    ensures
        frontier_inv(m, start, goal, f, u, k + 1),
{
    let n = m.triangles.len() as int;
    assert forall|w: int, j: int|
        0 <= w < n && 0 <= j < 3 && f.status[w] == 2 && (w != u || j < k + 1) implies #[trigger] edge_ok(
        m,
        f,
        w,
        j,
    ) by {
        if w != u || j < k {
            assert(edge_ok(m, f, w, j));
        }
    }
}

/// An edge from the triangle under expansion to a settled triangle is relaxed.
proof fn lemma_settled_edge(m: MeshModel, start: int, goal: int, f: Frontier, u: int, k: int, w: usize)
    requires
        m.valid(),
        frontier_inv(m, start, goal, f, u, k),
        0 <= u,
        0 <= k < 3,
        m.neighbor(u, k) == Some(w),
        w < m.triangles.len(),
        f.status[w as int] == 2,
    ensures
        edge_ok(m, f, u, k),
{
    assert(node_ok(m, start, goal, f, u));
    let r = f.routes[u];
    lemma_extend_walk(m, r, start, k, w);
    assert(settled(m, start, f, w as int));
    let longer = r.push(w);
    assert(longer[r.len() as int] == w);
    assert(f.cost[w as int] <= m.prefix_cost(longer, r.len() as int));
}

/// The frontier after the route to `w` has been replaced by the route
/// through `u`.
spec fn relax(f: Frontier, u: int, w: int, cost: u128, rank: u128) -> Frontier {
    Frontier {
        status: f.status.update(w, 1u8),
        cost: f.cost.update(w, cost),
        rank: f.rank.update(w, rank),
        parent: f.parent.update(w, u as usize),
        open: if f.status[w] == 0 {
            f.open.push(w as usize)
        } else {
            f.open
        },
        routes: f.routes.update(w, f.routes[u].push(w as usize)),
        rounds: f.rounds,
    }
}

proof fn lemma_relax(
    m: MeshModel,
    start: int,
    goal: int,
    f: Frontier,
    u: int,
    k: int,
    w: int,
    cost: u128,
    rank: u128,
)
    requires
        m.valid(),
        0 <= start < m.triangles.len(),
        0 <= goal < m.triangles.len(),
        frontier_inv(m, start, goal, f, u, k),
        0 <= u,
        0 <= k < 3,
        0 <= w < m.triangles.len(),
        m.neighbor(u, k) == Some(w as usize),
        f.status[w] != 2,
        cost == f.cost[u] + m.step_cost(u, w),
        rank == cost + m.estimate(w, goal),
        f.status[w] == 0 || cost < f.cost[w],
    ensures
        frontier_inv(m, start, goal, relax(f, u, w, cost, rank), u, k + 1),
{
    let n = m.triangles.len() as int;
    let f2 = relax(f, u, w, cost, rank);
    let r = f.routes[u];
    let r2 = r.push(w as usize);
    assert(node_ok(m, start, goal, f, u));
    assert(u != w);
    assert(f.status[w] <= 2);
    assert(w != start) by {
        if w == start {
            assert(f.status[u] == 0);
        }
    }
    lemma_extend_walk(m, r, start, k, w as usize);
    assert forall|i: int| 0 <= i < r.len() implies f.status[(#[trigger] r[i]) as int] == 2 by {
        if i == r.len() - 1 {
            assert(r[i] == u);
        }
    }
    assert forall|v: int| 0 <= v < n implies (#[trigger] f2.status[v]) <= 2 by {
        assert(f.status[v] <= 2);
    }
    assert(node_ok(m, start, goal, f2, w)) by {
        assert(f2.routes[w] == r2);
        assert forall|i: int, j: int| 0 <= i < r2.len() && 0 <= j < r2.len() && i != j implies r2[i]
            != r2[j] by {
            if i < r.len() && j < r.len() {
                assert(r[i] != r[j]);
            } else if i < r.len() {
                assert(f.status[r[i] as int] == 2);
            } else {
                assert(f.status[r[j] as int] == 2);
            }
        }
        assert forall|i: int| 0 <= i < r2.len() - 1 implies f2.status[(#[trigger] r2[i]) as int] == 2 by {
            assert(r2[i] == r[i]);
            assert(f.status[r[i] as int] == 2);
        }
        assert(f2.routes[u] == r);
    }
    assert forall|v: int| 0 <= v < n && f2.status[v] != 0 implies #[trigger] node_ok(
        m,
        start,
        goal,
        f2,
        v,
    ) by {
        if v != w {
            assert(f.status[v] != 0);
            assert(node_ok(m, start, goal, f, v));
            let rv = f.routes[v];
            assert forall|i: int| 0 <= i < rv.len() - 1 implies f2.status[(#[trigger] rv[i]) as int] == 2 by {
                assert(f.status[rv[i] as int] == 2);
            }
        }
    }
    assert forall|x: int, j: int|
        0 <= x < n && 0 <= j < 3 && f2.status[x] == 2 && (x != u || j < k + 1) implies #[trigger] edge_ok(
        m,
        f2,
        x,
        j,
    ) by {
        assert(f.status[x] == 2);
        if x == u && j == k {
        } else {
            assert(edge_ok(m, f, x, j));
        }
    }
    assert forall|x: int| 0 <= x < n && f2.status[x] == 2 implies #[trigger] settled(m, start, f2, x) by {
        assert(settled(m, start, f, x));
    }
    assert forall|i: int| 0 <= i < f2.open.len() implies (#[trigger] f2.open[i]) < n && f2.status[f2.open[i] as int]
        == 1 by {
        if i < f.open.len() {
            assert(f2.open[i] == f.open[i]);
        }
    }
    assert forall|i: int, j: int| 0 <= i < f2.open.len() && 0 <= j < f2.open.len() && i != j implies f2.open[i]
        != f2.open[j] by {
        if i < f.open.len() && j < f.open.len() {
            assert(f.open[i] != f.open[j]);
        } else if i < f.open.len() {
            assert(f.status[f.open[i] as int] == 1);
        } else if j < f.open.len() {
            assert(f.status[f.open[j] as int] == 1);
        }
    }
    assert forall|v: int| 0 <= v < n && #[trigger] f2.status[v] == 1 implies f2.open.contains(v as usize) by {
        if v == w && f.status[w] == 0 {
            assert(f2.open[f.open.len() as int] == w as usize);
        } else {
            assert(f.status[v] == 1);
            assert(f.open.contains(v as usize));
            let j = choose|j: int| 0 <= j < f.open.len() && f.open[j] == v as usize;
            assert(f2.open[j] == v as usize);
        }
    }
}

/// Once no triangle is open, every triangle that can be reached is settled.
proof fn lemma_exhausted(m: MeshModel, start: int, goal: int, f: Frontier)
    requires
        m.valid(),
        0 <= start < m.triangles.len(),
        0 <= goal < m.triangles.len(),
        frontier_inv(m, start, goal, f, -1, 3),
        f.open.len() == 0,
        f.status[goal] != 2,
    ensures
        !m.reachable(start, goal),
{
    if m.reachable(start, goal) {
        let p = choose|p: Seq<usize>| m.is_corridor(p, start, goal);
        if f.status[start] == 1 {
            assert(f.open.contains(start as usize));
        }
        let i0 = lemma_first_unsettled(f, p, 0, p.len() - 1);
        let q = p[i0 - 1] as int;
        let w = p[i0];
        assert(p[i0 - 1] < m.triangles.len());
        assert(p[i0] < m.triangles.len());
        assert(m.linked(p, i0 - 1));
        let k = lemma_edge_towards(m, q, w);
        assert(edge_ok(m, f, q, k));
        assert(f.status[w as int] <= 2);
        assert(f.open.contains(w));
    }
}

/// The estimate is admissible: no corridor to the goal costs less than the
/// estimate at its start.
pub proof fn lemma_estimate_admissible(m: MeshModel, path: Seq<usize>, start: int, goal: int)
    requires
        m.is_corridor(path, start, goal),
    ensures
        m.estimate(start, goal) <= m.corridor_cost(path),
{
    let last = path.len() - 1;
    assert(path[last] < m.triangles.len());
    lemma_estimate_consistent(m, path, start, goal, 0, last);
    lemma_dist_sq_nonnegative(m.centroid(goal), m.centroid(goal));
    lemma_floor_sqrt_bounds(0);
    lemma_square_monotone(floor_sqrt(0) as int, 0);
}

impl Navmesh {
    /// The cost of stepping between two triangles.
    pub fn step_cost(&self, t: usize, u: usize) -> (c: u64)
        requires
            t < self@.triangles.len(),
            u < self@.triangles.len(),
        ensures
            c == self@.step_cost(t as int, u as int),
            c <= STEP_LIMIT,
    {
        let from: Point3 = self.centroid(t);
        let to: Point3 = self.centroid(u);
        proof {
            lemma_step_bounded(self@, t as int, u as int);
        }
        isqrt_ceil(distance_squared(from, to))
    }

    /// The estimated cost that remains between a triangle and the goal triangle.
    pub fn estimate(&self, t: usize, goal: usize) -> (c: u64)
        requires
            t < self@.triangles.len(),
            goal < self@.triangles.len(),
        ensures
            c == self@.estimate(t as int, goal as int),
            c <= STEP_LIMIT,
    {
        let from: Point3 = self.centroid(t);
        let to: Point3 = self.centroid(goal);
        proof {
            lemma_step_bounded(self@, t as int, goal as int);
        }
        isqrt(distance_squared(from, to))
    }
}

/// `idx` is the position in the open list of the entry of lowest rank; among
/// equals, of the one that entered first.
spec fn is_lowest(f: Frontier, idx: int) -> bool {
    &&& 0 <= idx < f.open.len()
    &&& forall|i: int|
        0 <= i < f.open.len() ==> f.rank[f.open[idx] as int] <= f.rank[(#[trigger] f.open[i]) as int]
    &&& forall|i: int|
        0 <= i < idx ==> f.rank[f.open[idx] as int] < f.rank[(#[trigger] f.open[i]) as int]
}

/// The position in the open list of the entry to expand next.
spec fn lowest(f: Frontier) -> int {
    choose|idx: int| is_lowest(f, idx)
}

/// Among the first `upto` open entries one is of lowest rank and entered first.
proof fn lemma_lowest_upto(f: Frontier, upto: int) -> (idx: int)
    requires
        1 <= upto <= f.open.len(),
    ensures
        0 <= idx < upto,
        forall|i: int|
            0 <= i < upto ==> f.rank[f.open[idx] as int] <= f.rank[(#[trigger] f.open[i]) as int],
        forall|i: int|
            0 <= i < idx ==> f.rank[f.open[idx] as int] < f.rank[(#[trigger] f.open[i]) as int],
    decreases upto,
{
    if upto == 1 {
        0
    } else {
        let best = lemma_lowest_upto(f, upto - 1);
        if f.rank[f.open[upto - 1] as int] < f.rank[f.open[best] as int] {
            upto - 1
        } else {
            best
        }
    }
}

/// The entry to expand next is determined.
proof fn lemma_lowest(f: Frontier)
    requires
        f.open.len() > 0,
    ensures
        is_lowest(f, lowest(f)),
        forall|idx: int| is_lowest(f, idx) ==> idx == lowest(f),
{
    let found = lemma_lowest_upto(f, f.open.len() as int);
    assert(is_lowest(f, found));
    let chosen = lowest(f);
    assert forall|idx: int| is_lowest(f, idx) implies idx == chosen by {
        let a = f.open[idx];
        let b = f.open[chosen];
        if idx < chosen {
            assert(f.rank[b as int] < f.rank[a as int]);
            assert(f.rank[a as int] <= f.rank[b as int]);
        } else if chosen < idx {
            assert(f.rank[a as int] < f.rank[b as int]);
            assert(f.rank[b as int] <= f.rank[a as int]);
        }
    }
}

/// The frontier after edge `k` of the settled triangle `u` has been relaxed:
/// the triangle across it is given the route through `u` where it has none
/// yet, or only a costlier one.
spec fn expand_edge(m: MeshModel, goal: int, f: Frontier, u: int, k: int) -> Frontier {
    match m.neighbor(u, k) {
        None => f,
        Some(w) => {
            let through = f.cost[u] + m.step_cost(u, w as int);
            if f.status[w as int] != 2 && (f.status[w as int] == 0 || through < f.cost[w as int]) {
                relax(
                    f,
                    u,
                    w as int,
                    through as u128,
                    (through + m.estimate(w as int, goal)) as u128,
                )
            } else {
                f
            }
        },
    }
}

/// The frontier after the edges of `u` from edge `k` on have been relaxed in turn.
spec fn expand(m: MeshModel, goal: int, f: Frontier, u: int, k: int) -> Frontier
    decreases 3 - k,
{
    if k >= 3 {
        f
    } else {
        expand(m, goal, expand_edge(m, goal, f, u, k), u, k + 1)
    }
}

/// The corridor that the search finds from the frontier `f` within `fuel`
/// rounds: each round settles the open triangle of lowest rank, stops when
/// that is the goal, and relaxes its edges otherwise.
spec fn search(m: MeshModel, goal: int, f: Frontier, fuel: nat) -> Option<Seq<usize>>
    decreases fuel,
{
    if fuel == 0 || f.open.len() == 0 {
        None
    } else {
        let idx = lowest(f);
        let u = f.open[idx] as int;
        let settled = settle(f, idx);
        if u == goal {
            Some(settled.routes[goal])
        } else {
            search(m, goal, expand(m, goal, settled, u, 0), (fuel - 1) as nat)
        }
    }
}

/// The frontier at the start of a search: only the start triangle is seen.
spec fn initial(m: MeshModel, start: int, goal: int) -> Frontier {
    let n = m.triangles.len();
    Frontier {
        status: Seq::new(
            n,
            |v: int|
                if v == start {
                    1u8
                } else {
                    0u8
                },
        ),
        cost: Seq::new(n, |v: int| 0u128),
        rank: Seq::new(
            n,
            |v: int|
                if v == start {
                    m.estimate(start, goal) as u128
                } else {
                    0u128
                },
        ),
        parent: Seq::new(n, |v: int| 0usize),
        open: seq![start as usize],
        routes: Seq::new(
            n,
            |v: int|
                if v == start {
                    seq![start as usize]
                } else {
                    Seq::empty()
                },
        ),
        rounds: 0,
    }
}

impl MeshModel {
    /// The corridor that A* finds from `start` to `goal`, if there is one.
    /// Triangles are ranked by the cost of the cheapest route seen so far
    /// plus the estimate of what remains; among open triangles of equal rank
    /// the one seen first is expanded first, and the edges of an expanded
    /// triangle are relaxed in their order.
    pub closed spec fn corridor(self, start: int, goal: int) -> Option<Seq<usize>> {
        search(self, goal, initial(self, start, goal), self.triangles.len())
    }
}

/// The start of a search meets the invariant of the search.
proof fn lemma_initial(m: MeshModel, start: int, goal: int)
    requires
        m.valid(),
        0 <= start < m.triangles.len(),
        0 <= goal < m.triangles.len(),
    ensures
        frontier_inv(m, start, goal, initial(m, start, goal), -1, 3),
{
    let f = initial(m, start, goal);
    lemma_step_bounded(m, start, goal);
    assert(node_ok(m, start, goal, f, start));
    assert(f.open[0] == start as usize);
    assert(f.open.contains(start as usize));
}

/// Relaxing one edge of the triangle under expansion keeps the invariant
/// of the search, settles nothing, and overflows no cost.
proof fn lemma_expand_edge(m: MeshModel, start: int, goal: int, f: Frontier, u: int, k: int)
    requires
        m.valid(),
        0 <= start < m.triangles.len(),
        0 <= goal < m.triangles.len(),
        frontier_inv(m, start, goal, f, u, k),
        0 <= u,
        0 <= k < 3,
        f.rounds <= m.triangles.len(),
    ensures
        frontier_inv(m, start, goal, expand_edge(m, goal, f, u, k), u, k + 1),
        expand_edge(m, goal, f, u, k).rounds == f.rounds,
        forall|v: int|
            0 <= v < m.triangles.len() ==> ((#[trigger] expand_edge(m, goal, f, u, k).status[v]) == 2
                <==> f.status[v] == 2),
        match m.neighbor(u, k) {
            Some(w) => w < m.triangles.len() && f.cost[u] + m.step_cost(u, w as int) + m.estimate(
                w as int,
                goal,
            ) <= u128::MAX,
            None => true,
        },
{
    let n = m.triangles.len() as int;
    lemma_neighbor_characterised(m.triangles, u, k);
    match m.neighbor(u, k) {
        None => {
            lemma_edge_done(m, start, goal, f, u, k);
        },
        Some(w) => {
            assert(node_ok(m, start, goal, f, u));
            let r = f.routes[u];
            lemma_prefix_cost_bounded(m, r, start, r.len() - 1);
            lemma_step_bounded(m, u, w as int);
            lemma_step_bounded(m, w as int, goal);
            assert((r.len() - 1) * STEP_LIMIT <= n * STEP_LIMIT) by (nonlinear_arith)
                requires
                    r.len() - 1 <= n,
            ;
            assert(n * STEP_LIMIT <= 0xffff_ffff_ffff_ffff * 0x2_0000_0000) by (nonlinear_arith)
                requires
                    n <= 0xffff_ffff_ffff_ffff,
                    STEP_LIMIT == 0x2_0000_0000,
            ;
            let through = f.cost[u] + m.step_cost(u, w as int);
            if f.status[w as int] == 2 {
                lemma_settled_edge(m, start, goal, f, u, k, w);
                lemma_edge_done(m, start, goal, f, u, k);
            } else if f.status[w as int] == 0 || through < f.cost[w as int] {
                lemma_relax(
                    m,
                    start,
                    goal,
                    f,
                    u,
                    k,
                    w as int,
                    through as u128,
                    (through + m.estimate(w as int, goal)) as u128,
                );
            } else {
                assert(f.status[w as int] <= 2);
                lemma_edge_done(m, start, goal, f, u, k);
            }
        },
    }
}

/// Relaxing the remaining edges of the triangle under expansion keeps the
/// invariant of the search and settles nothing.
proof fn lemma_expand(m: MeshModel, start: int, goal: int, f: Frontier, u: int, k: int)
    requires
        m.valid(),
        0 <= start < m.triangles.len(),
        0 <= goal < m.triangles.len(),
        frontier_inv(m, start, goal, f, u, k),
        0 <= u,
        0 <= k <= 3,
        f.rounds <= m.triangles.len(),
    ensures
        frontier_inv(m, start, goal, expand(m, goal, f, u, k), -1, 3),
        expand(m, goal, f, u, k).rounds == f.rounds,
        forall|v: int|
            0 <= v < m.triangles.len() ==> ((#[trigger] expand(m, goal, f, u, k).status[v]) == 2
                <==> f.status[v] == 2),
    decreases 3 - k,
{
    let n = m.triangles.len() as int;
    if k >= 3 {
        assert forall|x: int, j: int|
            0 <= x < n && 0 <= j < 3 && f.status[x] == 2 && (x != -1 || j < 3) implies #[trigger] edge_ok(
            m,
            f,
            x,
            j,
        ) by {
            assert(x != u || j < 3);
        }
    } else {
        let next = expand_edge(m, goal, f, u, k);
        lemma_expand_edge(m, start, goal, f, u, k);
        lemma_expand(m, start, goal, next, u, k + 1);
        let last = expand(m, goal, f, u, k);
        assert forall|v: int| 0 <= v < n implies ((#[trigger] last.status[v]) == 2 <==> f.status[v]
            == 2) by {
            assert(next.status[v] == 2 <==> f.status[v] == 2);
        }
    }
}

/// The search finds a cheapest corridor without repeated triangles when the
/// goal can be reached, and none otherwise.
proof fn lemma_search(
    m: MeshModel,
    start: int,
    goal: int,
    f: Frontier,
    fuel: nat,
    unsettled: Set<int>,
)
    requires
        m.valid(),
        0 <= start < m.triangles.len(),
        0 <= goal < m.triangles.len(),
        frontier_inv(m, start, goal, f, -1, 3),
        f.status[goal] != 2,
        unsettled.finite(),
        f.rounds + unsettled.len() == m.triangles.len(),
        fuel == m.triangles.len() - f.rounds,
        forall|v: int| 0 <= v < m.triangles.len() && f.status[v] != 2 ==> #[trigger] unsettled.contains(v),
    ensures
        match search(m, goal, f, fuel) {
            Some(path) => m.is_shortest_corridor(path, start, goal) && path.no_duplicates(),
            None => !m.reachable(start, goal),
        },
    decreases fuel,
{
    if f.open.len() == 0 {
        lemma_exhausted(m, start, goal, f);
    } else {
        lemma_lowest(f);
        let idx = lowest(f);
        let u = f.open[idx] as int;
        assert(f.open[idx] < m.triangles.len());
        assert(unsettled.contains(u));
        lemma_lowest_is_settled(m, start, goal, f, idx);
        lemma_settle(m, start, goal, f, idx);
        let f1 = settle(f, idx);
        if u == goal {
            assert(node_ok(m, start, goal, f1, goal));
            assert(settled(m, start, f1, goal));
            let found = f1.routes[goal];
            assert forall|other: Seq<usize>| #[trigger] m.is_corridor(other, start, goal) implies m.corridor_cost(
                found,
            ) <= m.corridor_cost(other) by {
                assert(f1.cost[goal] <= m.prefix_cost(other, other.len() - 1));
            }
        } else {
            lemma_expand(m, start, goal, f1, u, 0);
            let f2 = expand(m, goal, f1, u, 0);
            let rest = unsettled.remove(u);
            assert forall|v: int| 0 <= v < m.triangles.len() && f2.status[v] != 2 implies #[trigger] rest.contains(
                v,
            ) by {
                assert(f1.status[v] != 2);
                assert(f.status[v] != 2);
            }
            lemma_search(m, start, goal, f2, (fuel - 1) as nat, rest);
        }
    }
}

/// The corridor that A* finds is a cheapest corridor, and visits no triangle
/// twice; A* finds none exactly when the goal cannot be reached.
pub proof fn lemma_corridor(m: MeshModel, start: int, goal: int)
    requires
        m.valid(),
        0 <= start < m.triangles.len(),
        0 <= goal < m.triangles.len(),
    ensures
        match m.corridor(start, goal) {
            Some(path) => m.is_shortest_corridor(path, start, goal) && path.no_duplicates(),
            None => !m.reachable(start, goal),
        },
{
    let n = m.triangles.len() as int;
    lemma_initial(m, start, goal);
    lemma_int_range(0, n);
    lemma_search(m, start, goal, initial(m, start, goal), m.triangles.len(), set_int_range(0, n));
}

/// The position in `open` of the entry of lowest rank; among equals, the
/// one that entered first.
fn pick_lowest(open: &Vec<usize>, rank: &Vec<u128>) -> (idx: usize)
    requires
        open.len() > 0,
        forall|i: int| 0 <= i < open.len() ==> (#[trigger] open@[i]) < rank.len(),
    ensures
        idx < open.len(),
        forall|i: int|
            0 <= i < open.len() ==> rank@[open@[idx as int] as int] <= rank@[(#[trigger] open@[i]) as int],
        forall|i: int|
            0 <= i < idx ==> rank@[open@[idx as int] as int] < rank@[(#[trigger] open@[i]) as int],
{
    let mut best: usize = 0;
    let mut i: usize = 1;
    while i < open.len()
        invariant
            1 <= i <= open.len(),
            best < i,
            forall|j: int| 0 <= j < open.len() ==> (#[trigger] open@[j]) < rank.len(),
            forall|j: int|
                0 <= j < i ==> rank@[open@[best as int] as int] <= rank@[(#[trigger] open@[j]) as int],
            forall|j: int|
                0 <= j < best ==> rank@[open@[best as int] as int] < rank@[(#[trigger] open@[j]) as int],
        decreases open.len() - i,
    {
        assert(open@[i as int] < rank.len());
        assert(open@[best as int] < rank.len());
        if rank[open[i]] < rank[open[best]] {
            best = i;
        }
        i += 1;
    }
    best
}

/// Reads the route to `goal` off the parent links.
fn trace_route(
    parent: &Vec<usize>,
    start: usize,
    goal: usize,
    Ghost(m): Ghost<MeshModel>,
    Ghost(f): Ghost<Frontier>,
    Ghost(expanding): Ghost<int>,
    Ghost(done): Ghost<int>,
) -> (path: Vec<usize>)
    requires
        frontier_inv(m, start as int, goal as int, f, expanding, done),
        parent@ == f.parent,
        start < m.triangles.len(),
        goal < m.triangles.len(),
        f.status[goal as int] != 0,
    ensures
        path@ == f.routes[goal as int],
{
    let ghost whole = f.routes[goal as int];
    let mut reversed: Vec<usize> = Vec::new();
    reversed.push(goal);
    let mut current: usize = goal;
    proof {
        assert(node_ok(m, start as int, goal as int, f, goal as int));
    }
    while current != start
        invariant
            frontier_inv(m, start as int, goal as int, f, expanding, done),
            parent@ == f.parent,
            whole == f.routes[goal as int],
            current < m.triangles.len(),
            f.status[current as int] != 0,
            node_ok(m, start as int, goal as int, f, current as int),
            reversed.len() >= 1,
            reversed.len() + f.routes[current as int].len() == whole.len() + 1,
            f.routes[current as int] =~= whole.subrange(0, f.routes[current as int].len() as int),
            forall|j: int|
                0 <= j < reversed.len() ==> #[trigger] reversed@[j] == whole[whole.len() - 1 - j],
        decreases f.routes[current as int].len(),
    {
        let before: usize = parent[current];
        proof {
            assert(node_ok(m, start as int, goal as int, f, before as int));
            let here = f.routes[current as int];
            let there = f.routes[before as int];
            assert(here == there.push(current));
            assert(there =~= here.subrange(0, there.len() as int));
            assert(there =~= whole.subrange(0, there.len() as int));
            assert(there.last() == before);
        }
        reversed.push(before);
        current = before;
    }
    let mut path: Vec<usize> = Vec::new();
    let mut i: usize = reversed.len();
    while i > 0
        invariant
            i <= reversed.len(),
            reversed.len() == whole.len(),
            path.len() == reversed.len() - i,
            forall|j: int|
                0 <= j < reversed.len() ==> #[trigger] reversed@[j] == whole[whole.len() - 1 - j],
            forall|j: int| 0 <= j < path.len() ==> #[trigger] path@[j] == whole[j],
        decreases i,
    {
        i -= 1;
        path.push(reversed[i]);
    }
    assert(path@ =~= whole);
    path
}

impl Navmesh {
    /// Finds a cheapest corridor of triangles from `start` to `goal`, by A*
    /// with the centroid distance as step cost and as estimate. Among open
    /// triangles of equal rank the one seen first is expanded first.
    pub fn find_corridor(&self, start: usize, goal: usize) -> (r: Result<Vec<usize>, PathError>)
        requires
            start < self@.triangles.len(),
            goal < self@.triangles.len(),
        ensures
            match r {
                Ok(path) => self@.corridor(start as int, goal as int) == Some(path@)
                    && self@.is_shortest_corridor(path@, start as int, goal as int)
                    && path@.no_duplicates(),
                Err(e) => e == PathError::NoPath && self@.corridor(start as int, goal as int)
                    == None::<Seq<usize>> && !self@.reachable(start as int, goal as int),
            },
    {
        let n: usize = self.triangle_count();
        let ghost m = self@;
        let mut status: Vec<u8> = vec![0u8; n];
        let mut cost: Vec<u128> = vec![0u128; n];
        let mut rank: Vec<u128> = vec![0u128; n];
        let mut parent: Vec<usize> = vec![0usize; n];
        let mut open: Vec<usize> = Vec::new();
        let mut rounds: usize = 0;
        let ghost mut routes: Seq<Seq<usize>> = Seq::new(n as nat, |i: int| Seq::<usize>::empty());
        let ghost mut unsettled: Set<int> = set_int_range(0, n as int);
        let first_rank: u64 = self.estimate(start, goal);
        status.set(start, 1u8);
        rank.set(start, first_rank as u128);
        open.push(start);
        proof {
            lemma_int_range(0, n as int);
            routes = routes.update(start as int, seq![start]);
            let f = frontier(status@, cost@, rank@, parent@, open@, routes, 0);
            let first = initial(m, start as int, goal as int);
            assert(f.status =~= first.status);
            assert(f.cost =~= first.cost);
            assert(f.rank =~= first.rank);
            assert(f.parent =~= first.parent);
            assert(f.open =~= first.open);
            assert(f.routes =~= first.routes);
            assert(f == first);
            lemma_initial(m, start as int, goal as int);
        }
        while open.len() > 0
            invariant
                m == self@,
                m.valid(),
                n == m.triangles.len(),
                start < n,
                goal < n,
                frontier_inv(
                    m,
                    start as int,
                    goal as int,
                    frontier(status@, cost@, rank@, parent@, open@, routes, rounds as int),
                    -1,
                    3,
                ),
                status@[goal as int] != 2,
                unsettled.finite(),
                rounds + unsettled.len() == n,
                forall|v: int| 0 <= v < n && status@[v] != 2 ==> #[trigger] unsettled.contains(v),
                search(
                    m,
                    goal as int,
                    frontier(status@, cost@, rank@, parent@, open@, routes, rounds as int),
                    (n - rounds) as nat,
                ) == m.corridor(start as int, goal as int),
            decreases unsettled.len(),
        {
            let ghost f = frontier(status@, cost@, rank@, parent@, open@, routes, rounds as int);
            let idx: usize = pick_lowest(&open, &rank);
            let u: usize = open[idx];
            proof {
                assert(f.open[idx as int] < n);
                lemma_lowest(f);
                assert(is_lowest(f, idx as int));
                lemma_lowest_is_settled(m, start as int, goal as int, f, idx as int);
                lemma_settle(m, start as int, goal as int, f, idx as int);
                assert(unsettled.contains(u as int));
                unsettled = unsettled.remove(u as int);
                assert(lowest(f) == idx);
                assert(search(m, goal as int, f, (n - rounds) as nat) == if u == goal {
                    Some(settle(f, idx as int).routes[goal as int])
                } else {
                    search(
                        m,
                        goal as int,
                        expand(m, goal as int, settle(f, idx as int), u as int, 0),
                        (n - rounds - 1) as nat,
                    )
                });
            }
            let _ = open.remove(idx);
            status.set(u, 2u8);
            rounds = rounds + 1;
            let ghost f1 = frontier(status@, cost@, rank@, parent@, open@, routes, rounds as int);
            assert(f1 == settle(f, idx as int));
            if u == goal {
                let path: Vec<usize> = trace_route(
                    &parent,
                    start,
                    goal,
                    Ghost(m),
                    Ghost(f1),
                    Ghost(u as int),
                    Ghost(0),
                );
                proof {
                    lemma_corridor(m, start as int, goal as int);
                }
                return Ok(path);
            }
            let mut k: usize = 0;
            while k < 3
                invariant
                    k <= 3,
                    m == self@,
                    m.valid(),
                    n == m.triangles.len(),
                    start < n,
                    goal < n,
                    u < n,
                    u != goal,
                    status@[goal as int] != 2,
                    rounds <= n,
                    frontier_inv(
                        m,
                        start as int,
                        goal as int,
                        frontier(status@, cost@, rank@, parent@, open@, routes, rounds as int),
                        u as int,
                        k as int,
                    ),
                    expand(
                        m,
                        goal as int,
                        frontier(status@, cost@, rank@, parent@, open@, routes, rounds as int),
                        u as int,
                        k as int,
                    ) == expand(m, goal as int, f1, u as int, 0),
                    forall|v: int| 0 <= v < n && status@[v] != 2 ==> #[trigger] unsettled.contains(v),
                decreases 3 - k,
            {
                let ghost g = frontier(status@, cost@, rank@, parent@, open@, routes, rounds as int);
                proof {
                    lemma_expand_edge(m, start as int, goal as int, g, u as int, k as int);
                }
                match self.neighbor(u, k) {
                    None => {},
                    Some(w) => {
                        if status[w] != 2 {
                            let through: u128 = cost[u] + self.step_cost(u, w) as u128;
                            if status[w] == 0 || through < cost[w] {
                                let total: u128 = through + self.estimate(w, goal) as u128;
                                if status[w] == 0 {
                                    open.push(w);
                                }
                                status.set(w, 1u8);
                                cost.set(w, through);
                                rank.set(w, total);
                                parent.set(w, u);
                                proof {
                                    routes = routes.update(w as int, routes[u as int].push(w));
                                }
                            }
                        }
                    },
                }
                assert(frontier(status@, cost@, rank@, parent@, open@, routes, rounds as int)
                    == expand_edge(m, goal as int, g, u as int, k as int));
                k += 1;
            }
            proof {
                let h = frontier(status@, cost@, rank@, parent@, open@, routes, rounds as int);
                lemma_expand(m, start as int, goal as int, h, u as int, 3);
            }
        }
        proof {
            lemma_corridor(m, start as int, goal as int);
        }
        Err(PathError::NoPath)
    }
}

} // verus!
