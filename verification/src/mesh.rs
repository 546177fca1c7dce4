//! The triangle mesh store and its edge-adjacency graph.

use crate::geometry::{
    area_exceeds, collinear, cross, cross3_x, cross3_y, cross3_z, double_area_sq,
    lemma_double_area_sq, Normal, Point3,
};
use std::collections::HashMap;
use vstd::prelude::*;
use vstd::std_specs::hash::group_hash_axioms;

verus! {

/// Three vertex indices; their order fixes the facing of the triangle.
#[derive(Clone, Copy, Debug, PartialEq, Eq, Structural)]
pub struct IndexTriple {
    pub a: u32,
    pub b: u32,
    pub c: u32,
}

/// Why a mesh could not be constructed.
#[derive(Clone, Copy, Debug, PartialEq, Eq, Structural)]
pub enum MeshError {
    /// A vertex lies outside the coordinate range, a triangle names a vertex
    /// that does not exist, or a triangle has no area.
    InvalidMesh,
    /// Some edge is shared by more than two triangles.
    NonManifoldEdge,
}

/// Why a path query failed.
#[derive(Clone, Copy, Debug, PartialEq, Eq, Structural)]
pub enum PathError {
    /// The mesh has no triangles.
    EmptyMesh,
    /// The goal triangle cannot be reached from the start triangle.
    NoPath,
}

/// The triangles across the three edges of one triangle; `None` marks a
/// boundary edge. Edge `k` runs from corner `k` to corner `k + 1` (cyclically).
#[derive(Clone, Copy, Debug)]
pub struct Neighbors {
    pub first: Option<usize>,
    pub second: Option<usize>,
    pub third: Option<usize>,
}

/// The corner that follows corner `k` around a triangle.
pub open spec fn next_corner(k: int) -> int {
    if k == 2 {
        0
    } else {
        k + 1
    }
}

impl IndexTriple {
    pub fn new(a: u32, b: u32, c: u32) -> (t: IndexTriple)
        ensures
            t == (IndexTriple { a, b, c }),
    {
        IndexTriple { a, b, c }
    }

    /// The vertex index at corner `k` (0, 1 or 2).
    pub open spec fn corner(self, k: int) -> u32 {
        if k == 0 {
            self.a
        } else if k == 1 {
            self.b
        } else {
            self.c
        }
    }

    pub fn corner_at(&self, k: usize) -> (v: u32)
        requires
            k < 3,
        ensures
            v == self.corner(k as int),
    {
        if k == 0 {
            self.a
        } else if k == 1 {
            self.b
        } else {
            self.c
        }
    }
}

impl Neighbors {
    /// The neighbour across edge `k` (0, 1 or 2).
    pub open spec fn get(self, k: int) -> Option<usize> {
        if k == 0 {
            self.first
        } else if k == 1 {
            self.second
        } else {
            self.third
        }
    }

    pub fn across(&self, k: usize) -> (n: Option<usize>)
        requires
            k < 3,
        ensures
            n == self.get(k as int),
    {
        if k == 0 {
            self.first
        } else if k == 1 {
            self.second
        } else {
            self.third
        }
    }
}

/// Edge `k` of `x` and edge `j` of `y` join the same two vertices.
pub open spec fn edge_matches(x: IndexTriple, k: int, y: IndexTriple, j: int) -> bool {
    let p = x.corner(k);
    let q = x.corner(next_corner(k));
    let r = y.corner(j);
    let s = y.corner(next_corner(j));
    (p == r && q == s) || (p == s && q == r)
}

/// Some edge of `y` joins the same two vertices as edge `k` of `x`.
pub open spec fn touches(x: IndexTriple, k: int, y: IndexTriple) -> bool {
    edge_matches(x, k, y, 0) || edge_matches(x, k, y, 1) || edge_matches(x, k, y, 2)
}

/// Triangle `u` is another triangle of the list that has edge `k` of triangle `t`.
pub open spec fn shares_edge(tris: Seq<IndexTriple>, t: int, k: int, u: int) -> bool {
    0 <= u < tris.len() && u != t && touches(tris[t], k, tris[u])
}

/// No edge belongs to more than two triangles.
pub open spec fn manifold(tris: Seq<IndexTriple>) -> bool {
    forall|t: int, k: int, u: int, w: int|
        0 <= t < tris.len() && 0 <= k < 3 && #[trigger] shares_edge(tris, t, k, u)
            && #[trigger] shares_edge(tris, t, k, w) ==> u == w
}

/// The triangle on the other side of edge `k` of triangle `t`, if any.
pub open spec fn neighbor_of(tris: Seq<IndexTriple>, t: int, k: int) -> Option<usize> {
    if exists|u: int| shares_edge(tris, t, k, u) {
        Some((choose|u: int| shares_edge(tris, t, k, u)) as usize)
    } else {
        None
    }
}

/// The triangle names three existing vertices that span a positive area.
pub open spec fn triangle_valid(vertices: Seq<Point3>, tri: IndexTriple) -> bool {
    &&& tri.a < vertices.len()
    &&& tri.b < vertices.len()
    &&& tri.c < vertices.len()
    &&& !collinear(vertices[tri.a as int], vertices[tri.b as int], vertices[tri.c as int])
}

/// Every triangle names existing vertices and spans a positive area.
pub open spec fn geometry_valid(vertices: Seq<Point3>, tris: Seq<IndexTriple>) -> bool {
    forall|t: int| 0 <= t < tris.len() ==> triangle_valid(vertices, #[trigger] tris[t])
}

/// The triangle names three existing vertices, and twice its area exceeds
/// `tolerance`.
pub open spec fn triangle_sound(vertices: Seq<Point3>, tri: IndexTriple, tolerance: u64) -> bool {
    &&& tri.a < vertices.len()
    &&& tri.b < vertices.len()
    &&& tri.c < vertices.len()
    &&& double_area_sq(vertices[tri.a as int], vertices[tri.b as int], vertices[tri.c as int])
        > tolerance * tolerance
}

/// The geometry a mesh accepts under an area tolerance: triangles of
/// existing vertices, none of them nearly without area.
pub open spec fn geometry_sound(vertices: Seq<Point3>, tris: Seq<IndexTriple>, tolerance: u64) -> bool {
    forall|t: int| 0 <= t < tris.len() ==> triangle_sound(vertices, #[trigger] tris[t], tolerance)
}

/// Geometry that is sound under any tolerance is valid.
pub proof fn lemma_sound_is_valid(vertices: Seq<Point3>, tris: Seq<IndexTriple>, tolerance: u64)
    requires
        geometry_sound(vertices, tris, tolerance),
    ensures
        geometry_valid(vertices, tris),
{
    assert forall|t: int| 0 <= t < tris.len() implies triangle_valid(vertices, #[trigger] tris[t]) by {
        let tri = tris[t];
        assert(triangle_sound(vertices, tri, tolerance));
        lemma_double_area_sq(vertices[tri.a as int], vertices[tri.b as int], vertices[tri.c as int]);
        assert(tolerance * tolerance >= 0) by (nonlinear_arith);
    }
}

/// The arithmetic mean of three points, each coordinate rounded down.
pub open spec fn centroid_of(a: Point3, b: Point3, c: Point3) -> Point3 {
    Point3 {
        x: ((a.x + b.x + c.x) / 3) as i32,
        y: ((a.y + b.y + c.y) / 3) as i32,
        z: ((a.z + b.z + c.z) / 3) as i32,
    }
}

/// The mathematical content of a mesh: its vertices and its triangles.
/// Centroids, normals and adjacency are functions of these two lists.
pub struct MeshModel {
    pub vertices: Seq<Point3>,
    pub triangles: Seq<IndexTriple>,
    /// Twice the area that a triangle must exceed.
    pub area_tolerance: u64,
}

impl MeshModel {
    /// The mesh without vertices or triangles.
    pub open spec fn empty() -> MeshModel {
        MeshModel { vertices: Seq::empty(), triangles: Seq::empty(), area_tolerance: 0 }
    }

    /// What every constructed mesh satisfies.
    pub open spec fn valid(self) -> bool {
        &&& geometry_sound(self.vertices, self.triangles, self.area_tolerance)
        &&& geometry_valid(self.vertices, self.triangles)
        &&& manifold(self.triangles)
        &&& self.triangles.len() <= usize::MAX
    }

    /// The position of corner `k` of triangle `t`.
    pub open spec fn corner_point(self, t: int, k: int) -> Point3 {
        self.vertices[self.triangles[t].corner(k) as int]
    }

    pub open spec fn centroid(self, t: int) -> Point3 {
        centroid_of(self.corner_point(t, 0), self.corner_point(t, 1), self.corner_point(t, 2))
    }

    pub open spec fn neighbor(self, t: int, k: int) -> Option<usize> {
        neighbor_of(self.triangles, t, k)
    }

    /// Triangle `u` lies across some edge of triangle `t`.
    pub open spec fn adjacent(self, t: int, u: int) -> bool {
        ||| self.neighbor(t, 0) == Some(u as usize)
        ||| self.neighbor(t, 1) == Some(u as usize)
        ||| self.neighbor(t, 2) == Some(u as usize)
    }
}

/// A navigation mesh: vertices, triangles, and for every triangle its centroid
/// and the triangles across its edges.
#[derive(Debug)]
pub struct Navmesh {
    vertices: Vec<Point3>,
    triangles: Vec<IndexTriple>,
    centroids: Vec<Point3>,
    links: Vec<Neighbors>,
    area_tolerance: u64,
}

impl View for Navmesh {
    type V = MeshModel;

    closed spec fn view(&self) -> MeshModel {
        MeshModel {
            vertices: self.vertices@,
            triangles: self.triangles@,
            area_tolerance: self.area_tolerance,
        }
    }
}

/// The neighbour relation of a manifold triangle list, characterised without
/// a choice: `Some(u)` exactly when `u` shares the edge, `None` exactly when
/// no triangle does.
pub proof fn lemma_neighbor_characterised(tris: Seq<IndexTriple>, t: int, k: int)
    requires
        manifold(tris),
        0 <= t < tris.len(),
        0 <= k < 3,
        tris.len() <= usize::MAX,
    ensures
        match neighbor_of(tris, t, k) {
            Some(u) => shares_edge(tris, t, k, u as int),
            None => forall|w: int| !shares_edge(tris, t, k, w),
        },
        forall|w: int| #[trigger]
            shares_edge(tris, t, k, w) ==> neighbor_of(tris, t, k) == Some(w as usize),
{
    if exists|u: int| shares_edge(tris, t, k, u) {
        let u = choose|u: int| shares_edge(tris, t, k, u);
        assert forall|w: int| #[trigger] shares_edge(tris, t, k, w) implies neighbor_of(tris, t, k)
            == Some(w as usize) by {
            assert(shares_edge(tris, t, k, u));
            assert(u == w);
        }
    }
}

/// The neighbour relation is symmetric: if `u` lies across edge `k` of `t`,
/// then `t` lies across the matching edge of `u`.
pub proof fn lemma_neighbor_symmetric(m: MeshModel, t: int, k: int, u: int)
    requires
        m.valid(),
        0 <= t < m.triangles.len(),
        0 <= k < 3,
        m.neighbor(t, k) == Some(u as usize),
        0 <= u <= usize::MAX,
    ensures
        0 <= u < m.triangles.len(),
        u != t,
        exists|j: int|
            0 <= j < 3 && edge_matches(m.triangles[t], k, m.triangles[u], j) && #[trigger] m.neighbor(
                u,
                j,
            ) == Some(t as usize),
        m.adjacent(u, t),
{
    let tris = m.triangles;
    lemma_neighbor_characterised(tris, t, k);
    assert(shares_edge(tris, t, k, u));
    let j: int = if edge_matches(tris[t], k, tris[u], 0) {
        0
    } else if edge_matches(tris[t], k, tris[u], 1) {
        1
    } else {
        2
    };
    assert(edge_matches(tris[t], k, tris[u], j));
    assert(edge_matches(tris[u], j, tris[t], k));
    assert(touches(tris[u], j, tris[t]));
    assert(shares_edge(tris, u, j, t));
    lemma_neighbor_characterised(tris, u, j);
    assert(m.neighbor(u, j) == Some(t as usize));
}

fn triangle_is_sound(vertices: &Vec<Point3>, tri: IndexTriple, tolerance: u64) -> (b: bool)
    ensures
        b == triangle_sound(vertices@, tri, tolerance),
{
    let n: usize = vertices.len();
    if tri.a as usize >= n || tri.b as usize >= n || tri.c as usize >= n {
        return false;
    }
    area_exceeds(
        vertices[tri.a as usize],
        vertices[tri.b as usize],
        vertices[tri.c as usize],
        tolerance,
    )
}

fn triangles_are_sound(vertices: &Vec<Point3>, triangles: &Vec<IndexTriple>, tolerance: u64) -> (b: bool)
    ensures
        b == geometry_sound(vertices@, triangles@, tolerance),
{
    let mut t: usize = 0;
    while t < triangles.len()
        invariant
            t <= triangles.len(),
            forall|j: int| 0 <= j < t ==> triangle_sound(vertices@, #[trigger] triangles@[j], tolerance),
        decreases triangles.len() - t,
    {
        if !triangle_is_sound(vertices, triangles[t], tolerance) {
            return false;
        }
        t += 1;
    }
    true
}

fn mean3(a: i32, b: i32, c: i32) -> (m: i32)
    ensures
        m == (a + b + c) / 3,
{
    let shifted: i64 = a as i64 + b as i64 + c as i64 + 3 * 0x8000_0000i64;
    (shifted / 3 - 0x8000_0000i64) as i32
}

fn compute_centroid(vertices: &Vec<Point3>, tri: IndexTriple) -> (p: Point3)
    requires
        triangle_valid(vertices@, tri),
    ensures
        p == centroid_of(vertices@[tri.a as int], vertices@[tri.b as int], vertices@[tri.c as int]),
{
    let a: Point3 = vertices[tri.a as usize];
    let b: Point3 = vertices[tri.b as usize];
    let c: Point3 = vertices[tri.c as usize];
    Point3 { x: mean3(a.x, b.x, c.x), y: mean3(a.y, b.y, c.y), z: mean3(a.z, b.z, c.z) }
}

/// The two vertices of edge `k` of `x` as one number: the smaller index in
/// the upper half, the larger in the lower half.
pub open spec fn edge_key(x: IndexTriple, k: int) -> u64 {
    let p = x.corner(k);
    let q = x.corner(next_corner(k));
    if p <= q {
        (p as int * 0x1_0000_0000 + q as int) as u64
    } else {
        (q as int * 0x1_0000_0000 + p as int) as u64
    }
}

/// Some edge of `x` has the key `key`.
pub open spec fn has_key(x: IndexTriple, key: u64) -> bool {
    edge_key(x, 0) == key || edge_key(x, 1) == key || edge_key(x, 2) == key
}

/// Two edges have the same key exactly when they join the same two vertices.
pub proof fn lemma_edge_key(x: IndexTriple, k: int, y: IndexTriple, j: int)
    requires
        0 <= k < 3,
        0 <= j < 3,
    ensures
        (edge_key(x, k) == edge_key(y, j)) == edge_matches(x, k, y, j),
        has_key(y, edge_key(x, k)) == touches(x, k, y),
{
    lemma_edge_key_pair(x, k, y, 0);
    lemma_edge_key_pair(x, k, y, 1);
    lemma_edge_key_pair(x, k, y, 2);
}

proof fn lemma_edge_key_pair(x: IndexTriple, k: int, y: IndexTriple, j: int)
    ensures
        (edge_key(x, k) == edge_key(y, j)) == edge_matches(x, k, y, j),
{
    let p = x.corner(k) as int;
    let q = x.corner(next_corner(k)) as int;
    let r = y.corner(j) as int;
    let s = y.corner(next_corner(j)) as int;
    let a = if p <= q { p } else { q };
    let b = if p <= q { q } else { p };
    let c = if r <= s { r } else { s };
    let d = if r <= s { s } else { r };
    assert(edge_key(x, k) == a * 0x1_0000_0000 + b);
    assert(edge_key(y, j) == c * 0x1_0000_0000 + d);
    if a * 0x1_0000_0000 + b == c * 0x1_0000_0000 + d {
        assert(a == c);
    }
}

/// The triangles that were found to have one edge: at most two.
#[derive(Clone, Copy, Debug)]
struct EdgeUse {
    first: usize,
    second: Option<usize>,
}

/// An entry of the edge index names triangles that have the edge.
spec fn entry_ok(tris: Seq<IndexTriple>, e: EdgeUse, key: u64) -> bool {
    &&& e.first < tris.len()
    &&& has_key(tris[e.first as int], key)
    &&& match e.second {
        Some(s) => s < tris.len() && s != e.first && has_key(tris[s as int], key),
        None => true,
    }
}

/// The edge with the key `key` is indexed as an edge of triangle `t`.
spec fn uses(index: Map<u64, EdgeUse>, key: u64, t: int) -> bool {
    index.contains_key(key) && (index[key].first == t || index[key].second == Some(t as usize))
}

/// The index holds the edges of every triangle before `t0`, and the edges
/// before `k0` of triangle `t0`.
spec fn edges_indexed(tris: Seq<IndexTriple>, index: Map<u64, EdgeUse>, t0: int, k0: int) -> bool {
    &&& forall|key: u64| #[trigger] index.contains_key(key) ==> entry_ok(tris, index[key], key)
    &&& forall|t: int, k: int|
        0 <= t < tris.len() && 0 <= k < 3 && (t < t0 || (t == t0 && k < k0)) ==> #[trigger] uses(
            index,
            edge_key(tris[t], k),
            t,
        )
}

fn edge_key_of(x: IndexTriple, k: usize) -> (key: u64)
    requires
        k < 3,
    ensures
        key == edge_key(x, k as int),
{
    let p: u32 = x.corner_at(k);
    let q: u32 = x.corner_at(if k == 2 { 0 } else { k + 1 });
    if p <= q {
        p as u64 * 0x1_0000_0000 + q as u64
    } else {
        q as u64 * 0x1_0000_0000 + p as u64
    }
}

/// Enters edge `k` of triangle `t` into the index; fails when two other
/// triangles have that edge already.
fn index_edge(index: &mut HashMap<u64, EdgeUse>, triangles: &Vec<IndexTriple>, t: usize, k: usize) -> (r:
    Result<(), MeshError>)
    requires
        t < triangles.len(),
        k < 3,
        edges_indexed(triangles@, old(index)@, t as int, k as int),
    ensures
        match r {
            Ok(()) => edges_indexed(triangles@, final(index)@, t as int, k + 1),
            Err(e) => e == MeshError::NonManifoldEdge && !manifold(triangles@),
        },
{
    broadcast use group_hash_axioms;

    let ghost tris = triangles@;
    let ghost before = index@;
    let key: u64 = edge_key_of(triangles[t], k);
    let found: Option<EdgeUse> = match index.get(&key) {
        Some(e) => Some(*e),
        None => None,
    };
    let entry: EdgeUse = match found {
        None => EdgeUse { first: t, second: None },
        Some(e) => {
            proof {
                assert(before.contains_key(key));
                assert(entry_ok(tris, e, key));
            }
            if e.first == t {
                e
            } else {
                match e.second {
                    None => EdgeUse { first: e.first, second: Some(t) },
                    Some(s) => {
                        if s == t {
                            e
                        } else {
                            proof {
                                lemma_edge_key(tris[t as int], k as int, tris[e.first as int], 0);
                                lemma_edge_key(tris[t as int], k as int, tris[s as int], 0);
                                assert(shares_edge(tris, t as int, k as int, e.first as int));
                                assert(shares_edge(tris, t as int, k as int, s as int));
                            }
                            return Err(MeshError::NonManifoldEdge);
                        }
                    },
                }
            }
        },
    };
    index.insert(key, entry);
    proof {
        let after = index@;
        assert(after == before.insert(key, entry));
        assert forall|other: u64| #[trigger] after.contains_key(other) implies entry_ok(
            tris,
            after[other],
            other,
        ) by {
            if other != key {
                assert(before.contains_key(other));
            }
        }
        assert forall|u: int, j: int|
            0 <= u < tris.len() && 0 <= j < 3 && (u < t || (u == t && j < k + 1)) implies #[trigger] uses(
            after,
            edge_key(tris[u], j),
            u,
        ) by {
            if u == t && j == k {
            } else {
                assert(uses(before, edge_key(tris[u], j), u));
            }
        }
    }
    Ok(())
}

/// Indexes the triangles by their edges; fails when some edge belongs to
/// more than two triangles.
fn index_edges(triangles: &Vec<IndexTriple>) -> (r: Result<HashMap<u64, EdgeUse>, MeshError>)
    ensures
        match r {
            Ok(index) => edges_indexed(triangles@, index@, triangles@.len() as int, 0),
            Err(e) => e == MeshError::NonManifoldEdge && !manifold(triangles@),
        },
{
    let mut index: HashMap<u64, EdgeUse> = HashMap::new();
    let mut t: usize = 0;
    while t < triangles.len()
        invariant
            t <= triangles.len(),
            edges_indexed(triangles@, index@, t as int, 0),
        decreases triangles.len() - t,
    {
        let mut k: usize = 0;
        while k < 3
            invariant
                k <= 3,
                t < triangles.len(),
                edges_indexed(triangles@, index@, t as int, k as int),
            decreases 3 - k,
        {
            match index_edge(&mut index, triangles, t, k) {
                Ok(()) => {},
                Err(e) => {
                    return Err(e);
                },
            }
            k += 1;
        }
        proof {
            let tris = triangles@;
            assert forall|u: int, j: int|
                0 <= u < tris.len() && 0 <= j < 3 && (u < t + 1 || (u == t + 1 && j < 0)) implies #[trigger] uses(
                index@,
                edge_key(tris[u], j),
                u,
            ) by {
                assert(u < t || (u == t && j < 3));
            }
        }
        t += 1;
    }
    Ok(index)
}

/// Reads the triangle across edge `k` of triangle `t` off the index.
fn neighbor_across(index: &HashMap<u64, EdgeUse>, triangles: &Vec<IndexTriple>, t: usize, k: usize) -> (n:
    Option<usize>)
    requires
        t < triangles.len(),
        k < 3,
        edges_indexed(triangles@, index@, triangles@.len() as int, 0),
    ensures
        match n {
            Some(u) => shares_edge(triangles@, t as int, k as int, u as int) && forall|w: int| #[trigger]
                shares_edge(triangles@, t as int, k as int, w) ==> w == u,
            None => forall|w: int| !shares_edge(triangles@, t as int, k as int, w),
        },
{
    broadcast use group_hash_axioms;

    let ghost tris = triangles@;
    let key: u64 = edge_key_of(triangles[t], k);
    proof {
        assert(uses(index@, edge_key(tris[t as int], k as int), t as int));
        assert(entry_ok(tris, index@[key], key));
    }
    let n: Option<usize> = match index.get(&key) {
        None => None,
        Some(e) => if e.first == t {
            e.second
        } else {
            Some(e.first)
        },
    };
    proof {
        let e = index@[key];
        assert forall|w: int| #[trigger] shares_edge(tris, t as int, k as int, w) implies (w
            == e.first || e.second == Some(w as usize)) && w != t by {
            lemma_edge_key(tris[t as int], k as int, tris[w], 0);
            let j: int = if edge_key(tris[w], 0) == key {
                0
            } else if edge_key(tris[w], 1) == key {
                1
            } else {
                2
            };
            assert(uses(index@, edge_key(tris[w], j), w));
        }
        match n {
            Some(u) => {
                lemma_edge_key(tris[t as int], k as int, tris[u as int], 0);
            },
            None => {},
        }
    }
    n
}

fn link_triangle(index: &HashMap<u64, EdgeUse>, triangles: &Vec<IndexTriple>, t: usize) -> (n: Neighbors)
    requires
        t < triangles.len(),
        edges_indexed(triangles@, index@, triangles@.len() as int, 0),
    ensures
        forall|k: int|
            0 <= k < 3 ==> match #[trigger] n.get(k) {
                Some(u) => shares_edge(triangles@, t as int, k, u as int) && forall|w: int| #[trigger]
                    shares_edge(triangles@, t as int, k, w) ==> w == u,
                None => forall|w: int| !shares_edge(triangles@, t as int, k, w),
            },
{
    Neighbors {
        first: neighbor_across(index, triangles, t, 0),
        second: neighbor_across(index, triangles, t, 1),
        third: neighbor_across(index, triangles, t, 2),
    }
}

impl Navmesh {
    #[verifier::type_invariant]
    spec fn inv(&self) -> bool {
        &&& self@.valid()
        &&& self.centroids@.len() == self.triangles@.len()
        &&& self.links@.len() == self.triangles@.len()
        &&& forall|t: int|
            0 <= t < self.triangles@.len() ==> #[trigger] self.centroids@[t] == self@.centroid(t)
        &&& forall|t: int, k: int|
            0 <= t < self.triangles@.len() && 0 <= k < 3 ==> #[trigger] self.links@[t].get(k)
                == self@.neighbor(t, k)
    }

    /// Builds a mesh from triangles and vertices, deriving centroids and
    /// adjacency. Geometry is checked first, then the edges. Only triangles
    /// whose corners lie on one line count as being without area.
    pub fn new(triangles: Vec<IndexTriple>, vertices: Vec<Point3>) -> (r: Result<Navmesh, MeshError>)
        ensures
            match r {
                Ok(m) => m@ == (MeshModel {
                    vertices: vertices@,
                    triangles: triangles@,
                    area_tolerance: 0,
                }) && m@.valid(),
                Err(MeshError::InvalidMesh) => !geometry_valid(vertices@, triangles@),
                Err(MeshError::NonManifoldEdge) => geometry_valid(vertices@, triangles@)
                    && !manifold(triangles@),
            },
    {
        proof {
            if geometry_sound(vertices@, triangles@, 0) {
                lemma_sound_is_valid(vertices@, triangles@, 0);
            }
            if geometry_valid(vertices@, triangles@) {
                assert forall|t: int| 0 <= t < triangles@.len() implies triangle_sound(
                    vertices@,
                    #[trigger] triangles@[t],
                    0,
                ) by {
                    let tri = triangles@[t];
                    assert(triangle_valid(vertices@, tri));
                    lemma_double_area_sq(
                        vertices@[tri.a as int],
                        vertices@[tri.b as int],
                        vertices@[tri.c as int],
                    );
                }
            }
        }
        Navmesh::with_area_tolerance(triangles, vertices, 0)
    }

    /// Builds a mesh as `new` does, but rejects every triangle whose doubled
    /// area does not exceed `tolerance` (in squared grid units).
    pub fn with_area_tolerance(
        triangles: Vec<IndexTriple>,
        vertices: Vec<Point3>,
        tolerance: u64,
    ) -> (r: Result<Navmesh, MeshError>)
        ensures
            match r {
                Ok(m) => m@ == (MeshModel {
                    vertices: vertices@,
                    triangles: triangles@,
                    area_tolerance: tolerance,
                }) && m@.valid(),
                Err(MeshError::InvalidMesh) => !geometry_sound(vertices@, triangles@, tolerance),
                Err(MeshError::NonManifoldEdge) => geometry_sound(vertices@, triangles@, tolerance)
                    && !manifold(triangles@),
            },
    {
        if !triangles_are_sound(&vertices, &triangles, tolerance) {
            return Err(MeshError::InvalidMesh);
        }
        let ghost model = MeshModel {
            vertices: vertices@,
            triangles: triangles@,
            area_tolerance: tolerance,
        };
        proof {
            lemma_sound_is_valid(vertices@, triangles@, tolerance);
        }
        let index: HashMap<u64, EdgeUse> = match index_edges(&triangles) {
            Ok(index) => index,
            Err(e) => {
                return Err(e);
            },
        };
        let mut centroids: Vec<Point3> = Vec::new();
        let mut links: Vec<Neighbors> = Vec::new();
        let mut t: usize = 0;
        while t < triangles.len()
            invariant
                t <= triangles.len(),
                geometry_valid(vertices@, triangles@),
                geometry_sound(vertices@, triangles@, tolerance),
                edges_indexed(triangles@, index@, triangles@.len() as int, 0),
                model == (MeshModel {
                    vertices: vertices@,
                    triangles: triangles@,
                    area_tolerance: tolerance,
                }),
                centroids@.len() == t,
                links@.len() == t,
                forall|i: int| 0 <= i < t ==> #[trigger] centroids@[i] == model.centroid(i),
                forall|i: int, k: int|
                    0 <= i < t && 0 <= k < 3 ==> match #[trigger] links@[i].get(k) {
                        Some(u) => shares_edge(triangles@, i, k, u as int) && forall|w: int| #[trigger]
                            shares_edge(triangles@, i, k, w) ==> w == u,
                        None => forall|w: int| !shares_edge(triangles@, i, k, w),
                    },
            decreases triangles.len() - t,
        {
            let around: Neighbors = link_triangle(&index, &triangles, t);
            let centre: Point3 = compute_centroid(&vertices, triangles[t]);
            centroids.push(centre);
            links.push(around);
            t += 1;
        }
        proof {
            assert forall|i: int, k: int, u: int, w: int|
                0 <= i < triangles@.len() && 0 <= k < 3 && #[trigger] shares_edge(triangles@, i, k, u)
                    && #[trigger] shares_edge(triangles@, i, k, w) implies u == w by {
                assert(links@[i].get(k) is Some);
            }
            assert(manifold(triangles@));
            assert forall|i: int, k: int| 0 <= i < triangles@.len() && 0 <= k < 3 implies #[trigger] links@[i].get(
                k,
            ) == model.neighbor(i, k) by {
                lemma_neighbor_characterised(triangles@, i, k);
                if links@[i].get(k) is None {
                    assert(model.neighbor(i, k) is None);
                }
            }
        }
        Ok(Navmesh { vertices, triangles, centroids, links, area_tolerance: tolerance })
    }

    /// Replaces the mesh by one built from new triangles and vertices, under
    /// the same area tolerance. Where they are rejected the mesh stays as it
    /// was.
    pub fn rebuild(&mut self, triangles: Vec<IndexTriple>, vertices: Vec<Point3>) -> (r: Result<(), MeshError>)
        ensures
            match r {
                Ok(()) => final(self)@ == (MeshModel {
                    vertices: vertices@,
                    triangles: triangles@,
                    area_tolerance: old(self)@.area_tolerance,
                }) && final(self)@.valid(),
                Err(MeshError::InvalidMesh) => *final(self) == *old(self) && !geometry_sound(
                    vertices@,
                    triangles@,
                    old(self)@.area_tolerance,
                ),
                Err(MeshError::NonManifoldEdge) => *final(self) == *old(self) && geometry_sound(
                    vertices@,
                    triangles@,
                    old(self)@.area_tolerance,
                ) && !manifold(triangles@),
            },
    {
        match Navmesh::with_area_tolerance(triangles, vertices, self.area_tolerance) {
            Ok(mesh) => {
                *self = mesh;
                Ok(())
            },
            Err(e) => Err(e),
        }
    }

    /// Twice the area that a triangle of this mesh must exceed.
    pub fn area_tolerance(&self) -> (tolerance: u64)
        ensures
            tolerance == self@.area_tolerance,
    {
        self.area_tolerance
    }

    /// The mesh with no vertices and no triangles.
    pub fn empty() -> (m: Navmesh)
        ensures
            m@ == MeshModel::empty(),
            m@.valid(),
    {
        let m = Navmesh {
            vertices: Vec::new(),
            triangles: Vec::new(),
            centroids: Vec::new(),
            links: Vec::new(),
            area_tolerance: 0,
        };
        assert(m@.vertices =~= Seq::<Point3>::empty());
        assert(m@.triangles =~= Seq::<IndexTriple>::empty());
        m
    }

    pub fn triangle_count(&self) -> (n: usize)
        ensures
            n == self@.triangles.len(),
            self@.valid(),
    {
        proof {
            use_type_invariant(self);
        }
        self.triangles.len()
    }

    pub fn vertex_count(&self) -> (n: usize)
        ensures
            n == self@.vertices.len(),
    {
        self.vertices.len()
    }

    /// The vertices, in the order in which the mesh was built from them.
    pub fn vertices(&self) -> (list: Vec<Point3>)
        ensures
            list@ == self@.vertices,
    {
        let list: Vec<Point3> = self.vertices.clone();
        assert(list@ =~= self.vertices@);
        list
    }

    /// The triangles, in the order in which the mesh was built from them.
    /// A mesh built from these and from `vertices` under the same tolerance
    /// is this mesh again.
    pub fn triangles(&self) -> (list: Vec<IndexTriple>)
        ensures
            list@ == self@.triangles,
    {
        let list: Vec<IndexTriple> = self.triangles.clone();
        assert(list@ =~= self.triangles@);
        list
    }

    /// The position of vertex `i`.
    pub fn vertex(&self, i: usize) -> (p: Point3)
        requires
            i < self@.vertices.len(),
        ensures
            p == self@.vertices[i as int],
    {
        proof {
            use_type_invariant(self);
        }
        self.vertices[i]
    }

    /// The vertex indices of triangle `t`.
    pub fn triangle(&self, t: usize) -> (tri: IndexTriple)
        requires
            t < self@.triangles.len(),
        ensures
            tri == self@.triangles[t as int],
            triangle_valid(self@.vertices, tri),
    {
        proof {
            use_type_invariant(self);
        }
        self.triangles[t]
    }

    /// The positions of the three corners of triangle `t`.
    pub fn triangle_vertices(&self, t: usize) -> (corners: (Point3, Point3, Point3))
        requires
            t < self@.triangles.len(),
        ensures
            corners.0 == self@.corner_point(t as int, 0),
            corners.1 == self@.corner_point(t as int, 1),
            corners.2 == self@.corner_point(t as int, 2),
            !collinear(corners.0, corners.1, corners.2),
    {
        proof {
            use_type_invariant(self);
        }
        let tri: IndexTriple = self.triangles[t];
        (self.vertices[tri.a as usize], self.vertices[tri.b as usize], self.vertices[tri.c as usize])
    }

    /// The centroid of triangle `t`.
    pub fn centroid(&self, t: usize) -> (p: Point3)
        requires
            t < self@.triangles.len(),
        ensures
            p == self@.centroid(t as int),
            self@.valid(),
    {
        proof {
            use_type_invariant(self);
        }
        self.centroids[t]
    }

    /// The plane normal of triangle `t`: the cross product of its first two
    /// edge vectors, not normalised. It is never the zero vector.
    pub fn normal(&self, t: usize) -> (n: Normal)
        requires
            t < self@.triangles.len(),
        ensures
            n.x == cross3_x(
                self@.corner_point(t as int, 0),
                self@.corner_point(t as int, 1),
                self@.corner_point(t as int, 2),
            ),
            n.y == cross3_y(
                self@.corner_point(t as int, 0),
                self@.corner_point(t as int, 1),
                self@.corner_point(t as int, 2),
            ),
            n.z == cross3_z(
                self@.corner_point(t as int, 0),
                self@.corner_point(t as int, 1),
                self@.corner_point(t as int, 2),
            ),
            n.x != 0 || n.y != 0 || n.z != 0,
    {
        let corners: (Point3, Point3, Point3) = self.triangle_vertices(t);
        cross(corners.0, corners.1, corners.2)
    }

    /// The triangle across edge `k` of triangle `t`, or `None` on the boundary.
    pub fn neighbor(&self, t: usize, k: usize) -> (n: Option<usize>)
        requires
            t < self@.triangles.len(),
            k < 3,
        ensures
            n == self@.neighbor(t as int, k as int),
            match n {
                Some(u) => u < self@.triangles.len() && u != t,
                None => true,
            },
    {
        proof {
            use_type_invariant(self);
            lemma_neighbor_characterised(self@.triangles, t as int, k as int);
        }
        self.links[t].across(k)
    }
}

impl Clone for Navmesh {
    fn clone(&self) -> (m: Navmesh)
        ensures
            m@ == self@,
    {
        proof {
            use_type_invariant(self);
        }
        let vertices: Vec<Point3> = self.vertices.clone();
        let triangles: Vec<IndexTriple> = self.triangles.clone();
        let centroids: Vec<Point3> = self.centroids.clone();
        let links: Vec<Neighbors> = self.links.clone();
        assert(vertices@ =~= self.vertices@);
        assert(triangles@ =~= self.triangles@);
        assert(centroids@ =~= self.centroids@);
        assert(links@ =~= self.links@);
        Navmesh { vertices, triangles, centroids, links, area_tolerance: self.area_tolerance }
    }
}

impl Default for Navmesh {
    fn default() -> (m: Navmesh)
        ensures
            m@ == MeshModel::empty(),
    {
        Navmesh::empty()
    }
}

} // verus!
