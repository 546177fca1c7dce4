//! Point location: which triangle of a mesh a point belongs to.

use crate::geometry::{cross2, dist_sq, distance_squared, orient, Point3};
use crate::mesh::{MeshModel, Navmesh, PathError};
use vstd::prelude::*;

verus! {

/// The ground-plane projection of the triangle `a`, `b`, `c` has an area, and
/// the projection of `p` lies in it or on its border, whichever way the
/// triangle winds. A triangle that stands upright covers no point.
pub open spec fn covers(a: Point3, b: Point3, c: Point3, p: Point3) -> bool {
    let d0 = cross2(a, b, p);
    let d1 = cross2(b, c, p);
    let d2 = cross2(c, a, p);
    &&& cross2(a, b, c) != 0
    &&& (d0 >= 0 && d1 >= 0 && d2 >= 0) || (d0 <= 0 && d1 <= 0 && d2 <= 0)
}

impl MeshModel {
    /// Triangle `t` covers the point `p` in the ground plane.
    pub open spec fn covers(self, t: int, p: Point3) -> bool {
        covers(self.corner_point(t, 0), self.corner_point(t, 1), self.corner_point(t, 2), p)
    }

    /// Some triangle covers `p`.
    pub open spec fn on_surface(self, p: Point3) -> bool {
        exists|u: int| 0 <= u < self.triangles.len() && self.covers(u, p)
    }

    /// `t` is the triangle that `p` belongs to: the first triangle covering
    /// `p`, or, when none does, the first of those whose centroid is nearest
    /// (an upright triangle can only be found in this second way).
    pub open spec fn locates(self, p: Point3, t: int) -> bool {
        &&& 0 <= t < self.triangles.len()
        &&& if self.on_surface(p) {
            &&& self.covers(t, p)
            &&& forall|u: int| 0 <= u < t ==> !self.covers(u, p)
        } else {
            &&& forall|u: int|
                0 <= u < self.triangles.len() ==> dist_sq(self.centroid(t), p) <= dist_sq(
                    #[trigger] self.centroid(u),
                    p,
                )
            &&& forall|u: int|
                0 <= u < t ==> dist_sq(self.centroid(t), p) < dist_sq(#[trigger] self.centroid(u), p)
        }
    }

    /// The triangle that `p` belongs to (meaningful on a mesh with triangles).
    pub open spec fn locate(self, p: Point3) -> int {
        choose|t: int| self.locates(p, t)
    }
}

/// At most one triangle is the location of a point.
pub proof fn lemma_locates_unique(m: MeshModel, p: Point3, t: int, u: int)
    requires
        m.locates(p, t),
        m.locates(p, u),
    ensures
        t == u,
        m.locate(p) == t,
{
    assert(t == u) by {
        if t < u {
            if m.on_surface(p) {
                assert(!m.covers(t, p));
            } else {
                assert(dist_sq(m.centroid(u), p) < dist_sq(m.centroid(t), p));
            }
        } else if u < t {
            if m.on_surface(p) {
                assert(!m.covers(u, p));
            } else {
                assert(dist_sq(m.centroid(t), p) < dist_sq(m.centroid(u), p));
            }
        }
    }
    let w = m.locate(p);
    assert(m.locates(p, w));
    if w < t {
        if m.on_surface(p) {
            assert(!m.covers(w, p));
        } else {
            assert(dist_sq(m.centroid(t), p) < dist_sq(m.centroid(w), p));
        }
    } else if t < w {
        if m.on_surface(p) {
            assert(!m.covers(t, p));
        } else {
            assert(dist_sq(m.centroid(w), p) < dist_sq(m.centroid(t), p));
        }
    }
}

/// The first triangle up to `u` that covers `p`, given that `u` does.
proof fn lemma_first_covering(m: MeshModel, p: Point3, u: int) -> (t: int)
    requires
        0 <= u < m.triangles.len(),
        m.covers(u, p),
    ensures
        0 <= t <= u,
        m.covers(t, p),
        forall|w: int| 0 <= w < t ==> !m.covers(w, p),
    decreases u,
{
    if exists|w: int| 0 <= w < u && m.covers(w, p) {
        let w = choose|w: int| 0 <= w < u && m.covers(w, p);
        lemma_first_covering(m, p, w)
    } else {
        u
    }
}

/// Among the first `upto` triangles, the first of those whose centroid is
/// nearest to `p`.
proof fn lemma_nearest_upto(m: MeshModel, p: Point3, upto: int) -> (t: int)
    requires
        1 <= upto <= m.triangles.len(),
    ensures
        0 <= t < upto,
        forall|w: int|
            0 <= w < upto ==> dist_sq(m.centroid(t), p) <= dist_sq(#[trigger] m.centroid(w), p),
        forall|w: int| 0 <= w < t ==> dist_sq(m.centroid(t), p) < dist_sq(#[trigger] m.centroid(w), p),
    decreases upto,
{
    if upto == 1 {
        0
    } else {
        let best = lemma_nearest_upto(m, p, upto - 1);
        if dist_sq(m.centroid(upto - 1), p) < dist_sq(m.centroid(best), p) {
            upto - 1
        } else {
            best
        }
    }
}

/// On a mesh that has a triangle every point belongs to exactly one.
pub proof fn lemma_located(m: MeshModel, p: Point3)
    requires
        m.triangles.len() > 0,
    ensures
        m.locates(p, m.locate(p)),
        0 <= m.locate(p) < m.triangles.len(),
{
    if m.on_surface(p) {
        let u = choose|u: int| 0 <= u < m.triangles.len() && m.covers(u, p);
        let t = lemma_first_covering(m, p, u);
        lemma_locates_unique(m, p, t, t);
    } else {
        let t = lemma_nearest_upto(m, p, m.triangles.len() as int);
        lemma_locates_unique(m, p, t, t);
    }
}

impl Navmesh {
    /// Whether triangle `t` covers `p` in the ground plane.
    pub fn triangle_covers(&self, t: usize, p: Point3) -> (b: bool)
        requires
            t < self@.triangles.len(),
        ensures
            b == self@.covers(t as int, p),
    {
        let corners: (Point3, Point3, Point3) = self.triangle_vertices(t);
        if orient(corners.0, corners.1, corners.2) == 0 {
            return false;
        }
        let d0: i128 = orient(corners.0, corners.1, p);
        let d1: i128 = orient(corners.1, corners.2, p);
        let d2: i128 = orient(corners.2, corners.0, p);
        (d0 >= 0 && d1 >= 0 && d2 >= 0) || (d0 <= 0 && d1 <= 0 && d2 <= 0)
    }

    /// Finds the triangle a point belongs to. Total on every mesh that has a
    /// triangle; fails with `EmptyMesh` exactly on a mesh that has none.
    pub fn locate(&self, p: Point3) -> (r: Result<usize, PathError>)
        ensures
            match r {
                Ok(t) => self@.locates(p, t as int) && t == self@.locate(p),
                Err(e) => e == PathError::EmptyMesh && self@.triangles.len() == 0,
            },
    {
        let n: usize = self.triangle_count();
        if n == 0 {
            return Err(PathError::EmptyMesh);
        }
        let mut t: usize = 0;
        while t < n
            invariant
                t <= n,
                n == self@.triangles.len(),
                forall|u: int| 0 <= u < t ==> !self@.covers(u, p),
            decreases n - t,
        {
            if self.triangle_covers(t, p) {
                proof {
                    assert(self@.on_surface(p));
                    lemma_locates_unique(self@, p, t as int, t as int);
                }
                return Ok(t);
            }
            t += 1;
        }
        let mut best: usize = 0;
        let mut best_distance: u128 = distance_squared(self.centroid(0), p);
        let mut u: usize = 1;
        while u < n
            invariant
                1 <= u <= n,
                best < u,
                n == self@.triangles.len(),
                best_distance == dist_sq(self@.centroid(best as int), p),
                forall|w: int|
                    0 <= w < u ==> best_distance <= dist_sq(#[trigger] self@.centroid(w), p),
                forall|w: int|
                    0 <= w < best ==> best_distance < dist_sq(#[trigger] self@.centroid(w), p),
            decreases n - u,
        {
            let d: u128 = distance_squared(self.centroid(u), p);
            if d < best_distance {
                best = u;
                best_distance = d;
            }
            u += 1;
        }
        proof {
            assert(!self@.on_surface(p));
            lemma_locates_unique(self@, p, best as int, best as int);
        }
        Ok(best)
    }
}

} // verus!
