//! Path queries: from two points to the taut waypoint path between them.

use crate::funnel::{
    bends_left, bends_right, funnel_path, is_portal_end, lemma_funnel_path_corners,
    lemma_funnel_path_direct, lemma_funnel_path_ends, lemma_funnel_path_one_portal, string_pull,
    Portal,
};
use crate::geometry::{cross2, lemma_straight_is_shortest, no_longer_than_via, orient, Point3};
use crate::locate::lemma_located;
use crate::mesh::{next_corner, MeshModel, Navmesh, PathError};
use crate::search::lemma_corridor;
use vstd::prelude::*;

verus! {

impl MeshModel {
    /// The first edge of triangle `t` across which triangle `u` lies.
    pub open spec fn portal_edge(self, t: int, u: int) -> int {
        if self.neighbor(t, 0) == Some(u as usize) {
            0
        } else if self.neighbor(t, 1) == Some(u as usize) {
            1
        } else {
            2
        }
    }

    /// Seen from above, the corners of triangle `t` run counter-clockwise
    /// (or the triangle stands upright).
    pub open spec fn winds_left(self, t: int) -> bool {
        cross2(self.corner_point(t, 0), self.corner_point(t, 1), self.corner_point(t, 2)) >= 0
    }

    /// The portal from triangle `t` into the adjacent triangle `u`: their
    /// shared edge, with its end points told apart as left and right of one
    /// who leaves `t` through it.
    pub open spec fn portal(self, t: int, u: int) -> Portal {
        let k = self.portal_edge(t, u);
        let p = self.corner_point(t, k);
        let q = self.corner_point(t, next_corner(k));
        if self.winds_left(t) {
            Portal { left: q, right: p }
        } else {
            Portal { left: p, right: q }
        }
    }

    /// The portals of a corridor: the start point, the shared edges in the
    /// order in which they are crossed, and the goal point.
    pub open spec fn portals(self, corridor: Seq<usize>, from: Point3, to: Point3) -> Seq<Portal> {
        Seq::new(
            corridor.len() + 1,
            |i: int|
                if i == 0 {
                    Portal { left: from, right: from }
                } else if i == corridor.len() {
                    Portal { left: to, right: to }
                } else {
                    self.portal(corridor[i - 1] as int, corridor[i] as int)
                },
        )
    }

    /// `path` is the taut path through a cheapest corridor between the
    /// triangles that `from` and `to` belong to.
    pub open spec fn is_path(self, from: Point3, to: Point3, path: Seq<Point3>) -> bool {
        exists|corridor: Seq<usize>|
            {
                &&& #[trigger] self.is_shortest_corridor(corridor, self.locate(from), self.locate(to))
                &&& corridor.no_duplicates()
                &&& path == funnel_path(self.portals(corridor, from, to))
            }
    }

    /// What a path query between `from` and `to` answers on this mesh: the
    /// taut path through the corridor that A* finds between the triangles
    /// that the two points belong to.
    pub open spec fn path(self, from: Point3, to: Point3) -> Result<Seq<Point3>, PathError> {
        if self.triangles.len() == 0 {
            Err(PathError::EmptyMesh)
        } else {
            match self.corridor(self.locate(from), self.locate(to)) {
                None => Err(PathError::NoPath),
                Some(corridor) => Ok(funnel_path(self.portals(corridor, from, to))),
            }
        }
    }

    /// What the answer to a path query between `from` and `to` has to be like.
    pub open spec fn answers(self, from: Point3, to: Point3, answer: Result<Seq<Point3>, PathError>) -> bool {
        match answer {
            Ok(path) => self.triangles.len() > 0 && self.is_path(from, to, path),
            Err(PathError::EmptyMesh) => self.triangles.len() == 0,
            Err(PathError::NoPath) => self.triangles.len() > 0 && !self.reachable(
                self.locate(from),
                self.locate(to),
            ),
        }
    }
}

/// Every path that answers a query starts at `from` and ends at `to`; between
/// two points of one triangle it is the straight segment.
pub proof fn lemma_path_ends(m: MeshModel, from: Point3, to: Point3, path: Seq<Point3>)
    requires
        m.is_path(from, to, path),
    ensures
        path.len() >= 2,
        path[0] == from,
        path.last() == to,
        m.locate(from) == m.locate(to) ==> path =~= seq![from, to],
{
    let corridor = choose|corridor: Seq<usize>|
        {
            &&& #[trigger] m.is_shortest_corridor(corridor, m.locate(from), m.locate(to))
            &&& corridor.no_duplicates()
            &&& path == funnel_path(m.portals(corridor, from, to))
        };
    let portals = m.portals(corridor, from, to);
    lemma_funnel_path_ends(portals);
    if m.locate(from) == m.locate(to) {
        if corridor.len() > 1 {
            assert(corridor[0] == corridor[corridor.len() - 1]);
        }
        lemma_funnel_path_direct(portals);
    }
}

/// The answer to a path query is as it has to be: no mesh, no path, or the
/// taut path through a cheapest corridor; and there is no path exactly when
/// the triangle of the goal cannot be reached from the triangle of the start.
pub proof fn lemma_path_answers(m: MeshModel, from: Point3, to: Point3)
    requires
        m.valid(),
    ensures
        m.answers(from, to, m.path(from, to)),
{
    if m.triangles.len() > 0 {
        lemma_located(m, from);
        lemma_located(m, to);
        lemma_corridor(m, m.locate(from), m.locate(to));
        match m.corridor(m.locate(from), m.locate(to)) {
            Some(corridor) => {
                assert(m.is_shortest_corridor(corridor, m.locate(from), m.locate(to)));
            },
            None => {},
        }
    }
}

/// Between two points that belong to one triangle the path is the straight
/// segment: exactly the two points, and no failure.
pub proof fn lemma_path_within_triangle(m: MeshModel, from: Point3, to: Point3)
    requires
        m.valid(),
        m.triangles.len() > 0,
        m.locate(from) == m.locate(to),
    ensures
        m.path(from, to) == Ok::<Seq<Point3>, PathError>(seq![from, to]),
{
    lemma_located(m, from);
    lemma_path_answers(m, from, to);
    let t = m.locate(from);
    assert(m.is_corridor(seq![t as usize], t, t));
    match m.path(from, to) {
        Ok(path) => {
            lemma_path_ends(m, from, to, path);
        },
        Err(e) => {},
    }
}

/// Between two points whose triangles are not connected there is no path.
pub proof fn lemma_path_between_islands(m: MeshModel, from: Point3, to: Point3)
    requires
        m.valid(),
        m.triangles.len() > 0,
        !m.reachable(m.locate(from), m.locate(to)),
    ensures
        m.path(from, to) == Err::<Seq<Point3>, PathError>(PathError::NoPath),
{
    lemma_path_answers(m, from, to);
    match m.path(from, to) {
        Ok(path) => {
            let corridor = choose|corridor: Seq<usize>|
                {
                    &&& #[trigger] m.is_shortest_corridor(corridor, m.locate(from), m.locate(to))
                    &&& corridor.no_duplicates()
                    &&& path == funnel_path(m.portals(corridor, from, to))
                };
            assert(m.is_corridor(corridor, m.locate(from), m.locate(to)));
        },
        Err(e) => {},
    }
}

/// Where the corridor between two points has two triangles, the path
/// crosses their shared edge in a straight line if the goal lies within the
/// funnel that the start and the edge span, and bends around the end of the
/// edge that the goal lies beyond otherwise. Where it is straight, no way
/// through any other point is shorter.
pub proof fn lemma_path_across_one_edge(m: MeshModel, from: Point3, to: Point3)
    requires
        m.triangles.len() > 0,
        m.corridor(m.locate(from), m.locate(to)) is Some,
        m.corridor(m.locate(from), m.locate(to))->Some_0.len() == 2,
    ensures
        ({
            let corridor = m.corridor(m.locate(from), m.locate(to))->Some_0;
            let edge = m.portal(corridor[0] as int, corridor[1] as int);
            m.path(from, to) == Ok::<Seq<Point3>, PathError>(
                if bends_left(from, edge, to) {
                    seq![from, edge.left, to]
                } else if bends_right(from, edge, to) {
                    seq![from, edge.right, to]
                } else {
                    seq![from, to]
                },
            )
        }),
        m.path(from, to) == Ok::<Seq<Point3>, PathError>(seq![from, to]) ==> forall|q: Point3|
            no_longer_than_via(from, to, q),
{
    let corridor = m.corridor(m.locate(from), m.locate(to))->Some_0;
    let portals = m.portals(corridor, from, to);
    assert(portals[1] == m.portal(corridor[0] as int, corridor[1] as int));
    lemma_funnel_path_one_portal(portals);
    assert forall|q: Point3| no_longer_than_via(from, to, q) by {
        lemma_straight_is_shortest(from, to, q);
    }
}

/// Between its two ends a path bends only at vertices of the mesh.
pub proof fn lemma_path_corners(m: MeshModel, from: Point3, to: Point3, path: Seq<Point3>, j: int)
    requires
        m.valid(),
        m.is_path(from, to, path),
        0 <= j < path.len(),
    ensures
        path[j] == from || path[j] == to || exists|v: int|
            0 <= v < m.vertices.len() && #[trigger] m.vertices[v] == path[j],
{
    let corridor = choose|corridor: Seq<usize>|
        {
            &&& #[trigger] m.is_shortest_corridor(corridor, m.locate(from), m.locate(to))
            &&& corridor.no_duplicates()
            &&& path == funnel_path(m.portals(corridor, from, to))
        };
    let portals = m.portals(corridor, from, to);
    lemma_funnel_path_corners(portals);
    assert(is_portal_end(portals, path[j]));
    let k = choose|k: int|
        0 <= k < portals.len() && ((#[trigger] portals[k]).left == path[j] || portals[k].right
            == path[j]);
    if 0 < k < corridor.len() {
        let t = corridor[k - 1] as int;
        let u = corridor[k] as int;
        assert(corridor[k - 1] < m.triangles.len());
        let tri = m.triangles[t];
        assert(crate::mesh::triangle_valid(m.vertices, tri));
        let e = m.portal_edge(t, u);
        assert(m.vertices[tri.corner(e) as int] == m.corner_point(t, e));
        assert(m.vertices[tri.corner(next_corner(e)) as int] == m.corner_point(t, next_corner(e)));
    }
}

impl Navmesh {
    /// The portal from triangle `t` into the adjacent triangle `u`.
    pub fn portal(&self, t: usize, u: usize) -> (p: Portal)
        requires
            t < self@.triangles.len(),
            self@.adjacent(t as int, u as int),
        ensures
            p == self@.portal(t as int, u as int),
    {
        let first: bool = match self.neighbor(t, 0) {
            Some(w) => w == u,
            None => false,
        };
        let second: bool = match self.neighbor(t, 1) {
            Some(w) => w == u,
            None => false,
        };
        let corners: (Point3, Point3, Point3) = self.triangle_vertices(t);
        let ends: (Point3, Point3) = if first {
            (corners.0, corners.1)
        } else if second {
            (corners.1, corners.2)
        } else {
            (corners.2, corners.0)
        };
        if orient(corners.0, corners.1, corners.2) >= 0 {
            Portal { left: ends.1, right: ends.0 }
        } else {
            Portal { left: ends.0, right: ends.1 }
        }
    }

    /// The portals of a corridor between two points.
    pub fn portals(&self, corridor: &Vec<usize>, from: Point3, to: Point3) -> (list: Vec<Portal>)
        requires
            corridor.len() > 0,
            self@.is_walk(corridor@, corridor@[0] as int),
        ensures
            list@ == self@.portals(corridor@, from, to),
    {
        let mut list: Vec<Portal> = Vec::new();
        list.push(Portal { left: from, right: from });
        let mut i: usize = 1;
        while i < corridor.len()
            invariant
                1 <= i <= corridor.len(),
                self@.is_walk(corridor@, corridor@[0] as int),
                list.len() == i,
                forall|j: int| 0 <= j < i ==> #[trigger] list@[j] == self@.portals(corridor@, from, to)[j],
            decreases corridor.len() - i,
        {
            proof {
                assert(self@.linked(corridor@, i - 1));
                assert(corridor@[i - 1] < self@.triangles.len());
            }
            let p: Portal = self.portal(corridor[i - 1], corridor[i]);
            list.push(p);
            i += 1;
        }
        list.push(Portal { left: to, right: to });
        assert(list@ =~= self@.portals(corridor@, from, to));
        list
    }

    /// Finds the path between two points: the triangles they belong to, a
    /// cheapest corridor between those, and the taut path through it. The
    /// path starts at `from` and ends at `to`.
    pub fn find_path(&self, from: Point3, to: Point3) -> (r: Result<Vec<Point3>, PathError>)
        ensures
            match r {
                Ok(path) => self@.path(from, to) == Ok::<Seq<Point3>, PathError>(path@)
                    && self@.answers(from, to, Ok(path@)) && path@.len() >= 2 && path@[0] == from
                    && path@.last() == to && (self@.locate(from) == self@.locate(to) ==> path@
                    =~= seq![from, to]),
                Err(e) => self@.path(from, to) == Err::<Seq<Point3>, PathError>(e)
                    && self@.answers(from, to, Err(e)),
            },
    {
        let start: usize = match self.locate(from) {
            Ok(t) => t,
            Err(e) => {
                return Err(e);
            },
        };
        let goal: usize = match self.locate(to) {
            Ok(t) => t,
            Err(e) => {
                return Err(e);
            },
        };
        let corridor: Vec<usize> = match self.find_corridor(start, goal) {
            Ok(c) => c,
            Err(e) => {
                return Err(e);
            },
        };
        let portals: Vec<Portal> = self.portals(&corridor, from, to);
        let path: Vec<Point3> = string_pull(&portals);
        proof {
            assert(self@.is_shortest_corridor(corridor@, self@.locate(from), self@.locate(to)));
            assert(self@.is_path(from, to, path@));
            lemma_path_ends(self@, from, to, path@);
        }
        Ok(path)
    }
}

} // verus!
