use navmesh::geometry::Point3;
use navmesh::mesh::{IndexTriple, MeshError, Navmesh, PathError};

fn quad() -> Navmesh {
    let vertices = vec![
        Point3::new(-1000, 0, 1000),
        Point3::new(1000, 0, 1000),
        Point3::new(1000, 0, -1000),
        Point3::new(-1000, 0, -1000),
    ];
    let triangles = vec![IndexTriple::new(0, 1, 2), IndexTriple::new(0, 2, 3)];
    Navmesh::new(triangles, vertices).unwrap()
}

fn strip(cells: u32) -> Navmesh {
    let mut vertices = Vec::new();
    for i in 0..=cells {
        vertices.push(Point3::new(10 * i as i32, 0, 0));
        vertices.push(Point3::new(10 * i as i32, 0, 10));
    }
    let mut triangles = Vec::new();
    for i in 0..cells {
        let a = 2 * i;
        triangles.push(IndexTriple::new(a, a + 2, a + 3));
        triangles.push(IndexTriple::new(a, a + 3, a + 1));
    }
    Navmesh::new(triangles, vertices).unwrap()
}

#[test]
fn index_triple_corners() {
    let t = IndexTriple::new(7, 8, 9);
    assert_eq!((t.corner_at(0), t.corner_at(1), t.corner_at(2)), (7, 8, 9));
}

#[test]
fn quad_is_accepted_and_linked() {
    let mesh = quad();
    assert_eq!(mesh.triangle_count(), 2);
    assert_eq!(mesh.vertex_count(), 4);
    assert_eq!(mesh.vertex(2), Point3::new(1000, 0, -1000));
    assert_eq!(mesh.triangle(1), IndexTriple::new(0, 2, 3));
    assert_eq!(mesh.neighbor(0, 0), None);
    assert_eq!(mesh.neighbor(0, 1), None);
    assert_eq!(mesh.neighbor(0, 2), Some(1));
    assert_eq!(mesh.neighbor(1, 0), Some(0));
    assert_eq!(mesh.neighbor(1, 1), None);
    assert_eq!(mesh.neighbor(1, 2), None);
}

#[test]
fn triangle_vertices_follow_the_indices() {
    let mesh = quad();
    let corners = mesh.triangle_vertices(1);
    assert_eq!(corners.0, Point3::new(-1000, 0, 1000));
    assert_eq!(corners.1, Point3::new(1000, 0, -1000));
    assert_eq!(corners.2, Point3::new(-1000, 0, -1000));
}

#[test]
fn centroid_rounds_down_on_every_axis() {
    let mesh = quad();
    assert_eq!(mesh.centroid(0), Point3::new(333, 0, 333));
    assert_eq!(mesh.centroid(1), Point3::new(-334, 0, -334));
    let small = Navmesh::new(
        vec![IndexTriple::new(0, 1, 2)],
        vec![Point3::new(-1, 7, 0), Point3::new(0, 7, 0), Point3::new(0, 8, -1)],
    )
    .unwrap();
    assert_eq!(small.centroid(0), Point3::new(-1, 7, -1));
}

#[test]
fn normal_is_the_cross_product_of_the_first_two_edges() {
    let mesh = quad();
    let n = mesh.normal(0);
    assert_eq!((n.x, n.y, n.z), (0, 4_000_000, 0));
    let m = mesh.normal(1);
    assert_eq!((m.x, m.y, m.z), (0, 4_000_000, 0));
}

#[test]
fn neighbor_relation_is_symmetric() {
    for mesh in [quad(), strip(1), strip(5), strip(12)] {
        let n = mesh.triangle_count();
        let mut links = 0;
        for t in 0..n {
            for k in 0..3 {
                if let Some(u) = mesh.neighbor(t, k) {
                    links += 1;
                    assert!(u < n);
                    assert_ne!(u, t);
                    let back = (0..3).filter(|j| mesh.neighbor(u, *j) == Some(t)).count();
                    assert_eq!(back, 1);
                }
            }
        }
        assert_eq!(links, 2 * (n - 1));
    }
}

#[test]
fn empty_mesh_is_valid() {
    let mesh = Navmesh::new(Vec::new(), Vec::new()).unwrap();
    assert_eq!(mesh.triangle_count(), 0);
    assert_eq!(mesh.vertex_count(), 0);
    let other = Navmesh::empty();
    assert_eq!(other.triangle_count(), 0);
    let third = Navmesh::default();
    assert_eq!(third.vertex_count(), 0);
}

#[test]
fn index_out_of_range_is_invalid() {
    let vertices = vec![Point3::new(0, 0, 0), Point3::new(10, 0, 0), Point3::new(0, 0, 10)];
    let r = Navmesh::new(vec![IndexTriple::new(0, 1, 3)], vertices);
    assert_eq!(r.err(), Some(MeshError::InvalidMesh));
}

#[test]
fn collinear_triangle_is_invalid() {
    let vertices = vec![Point3::new(0, 0, 0), Point3::new(10, 10, 10), Point3::new(30, 30, 30)];
    let r = Navmesh::new(vec![IndexTriple::new(0, 1, 2)], vertices);
    assert_eq!(r.err(), Some(MeshError::InvalidMesh));
}

#[test]
fn repeated_corner_is_invalid() {
    let vertices = vec![Point3::new(0, 0, 0), Point3::new(10, 0, 0), Point3::new(0, 0, 10)];
    let r = Navmesh::new(vec![IndexTriple::new(0, 1, 1)], vertices);
    assert_eq!(r.err(), Some(MeshError::InvalidMesh));
}

#[test]
fn vertices_anywhere_on_the_grid_are_accepted() {
    let vertices = vec![
        Point3::new(i32::MIN, 0, i32::MIN),
        Point3::new(i32::MAX, 0, i32::MIN),
        Point3::new(i32::MIN, 0, i32::MAX),
        Point3::new(i32::MAX, 7, i32::MAX),
    ];
    let triangles = vec![IndexTriple::new(0, 1, 2), IndexTriple::new(2, 1, 3)];
    let mesh = Navmesh::new(triangles, vertices).unwrap();
    assert_eq!(mesh.centroid(0), Point3::new(-715_827_883, 0, -715_827_883));
    assert_eq!(mesh.centroid(1), Point3::new(715_827_882, 2, 715_827_882));
    let side: i128 = u32::MAX as i128;
    let n = mesh.normal(0);
    assert_eq!((n.x, n.y, n.z), (0, -side * side, 0));
    assert_eq!(mesh.neighbor(0, 1), Some(1));
    assert_eq!(mesh.neighbor(1, 0), Some(0));
    assert_eq!(mesh.step_cost(0, 1), 2_024_667_000);
    assert_eq!(mesh.estimate(0, 1), 2_024_666_999);
    let from = Point3::new(i32::MIN, 0, i32::MIN);
    let to = Point3::new(i32::MAX, 7, i32::MAX);
    assert_eq!(mesh.locate(from), Ok(0));
    assert_eq!(mesh.locate(to), Ok(1));
    assert_eq!(mesh.find_path(from, to), Ok(vec![from, to]));
}

#[test]
fn upright_triangle_is_valid() {
    let vertices = vec![Point3::new(0, 0, 0), Point3::new(10, 0, 0), Point3::new(0, 10, 0)];
    let mesh = Navmesh::new(vec![IndexTriple::new(0, 1, 2)], vertices).unwrap();
    let n = mesh.normal(0);
    assert_eq!((n.x, n.y, n.z), (0, 0, 100));
}

#[test]
fn edge_shared_by_three_triangles_is_non_manifold() {
    let vertices = vec![
        Point3::new(0, 0, 0),
        Point3::new(10, 0, 0),
        Point3::new(0, 0, 10),
        Point3::new(0, 0, -10),
        Point3::new(0, 10, 5),
    ];
    let triangles =
        vec![IndexTriple::new(0, 1, 2), IndexTriple::new(1, 0, 3), IndexTriple::new(0, 1, 4)];
    let r = Navmesh::new(triangles, vertices);
    assert_eq!(r.err(), Some(MeshError::NonManifoldEdge));
}

#[test]
fn invalid_geometry_is_reported_before_shared_edges() {
    let vertices = vec![
        Point3::new(0, 0, 0),
        Point3::new(10, 0, 0),
        Point3::new(0, 0, 10),
        Point3::new(0, 0, -10),
        Point3::new(0, 10, 5),
    ];
    let triangles = vec![
        IndexTriple::new(0, 1, 2),
        IndexTriple::new(1, 0, 3),
        IndexTriple::new(0, 1, 4),
        IndexTriple::new(0, 1, 9),
    ];
    let r = Navmesh::new(triangles, vertices);
    assert_eq!(r.err(), Some(MeshError::InvalidMesh));
}

#[test]
fn twin_triangles_are_neighbours_across_every_edge() {
    let vertices = vec![Point3::new(0, 0, 0), Point3::new(10, 0, 0), Point3::new(0, 0, 10)];
    let mesh =
        Navmesh::new(vec![IndexTriple::new(0, 1, 2), IndexTriple::new(2, 1, 0)], vertices).unwrap();
    for k in 0..3 {
        assert_eq!(mesh.neighbor(0, k), Some(1));
        assert_eq!(mesh.neighbor(1, k), Some(0));
    }
}

#[test]
fn locate_finds_the_covering_triangle() {
    let mesh = quad();
    assert_eq!(mesh.locate(Point3::new(900, 0, 900)), Ok(0));
    assert_eq!(mesh.locate(Point3::new(-900, 0, -900)), Ok(1));
    assert_eq!(mesh.locate(Point3::new(900, 500, 900)), Ok(0));
    assert!(mesh.triangle_covers(0, Point3::new(1000, 0, 1000)));
    assert!(!mesh.triangle_covers(1, Point3::new(1000, 0, 1000)));
}

#[test]
fn locate_prefers_the_first_triangle_on_a_shared_edge() {
    let mesh = quad();
    assert_eq!(mesh.locate(Point3::new(0, 0, 0)), Ok(0));
    assert_eq!(mesh.locate(Point3::new(-1000, 0, 1000)), Ok(0));
}

#[test]
fn locate_falls_back_to_the_nearest_centroid() {
    let mesh = quad();
    assert_eq!(mesh.locate(Point3::new(5000, 0, 5000)), Ok(0));
    assert_eq!(mesh.locate(Point3::new(-5000, 0, -5000)), Ok(1));
    assert_eq!(mesh.locate(Point3::new(-5000, 0, 5000)), Ok(0));
    assert_eq!(mesh.locate(Point3::new(i32::MIN, i32::MAX, i32::MIN)), Ok(1));
}

#[test]
fn locate_on_an_empty_mesh_fails() {
    let mesh = Navmesh::empty();
    assert_eq!(mesh.locate(Point3::new(0, 0, 0)), Err(PathError::EmptyMesh));
}

#[test]
fn area_tolerance_rejects_slivers() {
    let vertices = vec![Point3::new(0, 0, 0), Point3::new(1000, 0, 0), Point3::new(500, 0, 1)];
    let triangles = vec![IndexTriple::new(0, 1, 2)];
    assert!(Navmesh::new(triangles.clone(), vertices.clone()).is_ok());
    let loose = Navmesh::with_area_tolerance(triangles.clone(), vertices.clone(), 999).unwrap();
    assert_eq!(loose.area_tolerance(), 999);
    assert_eq!(loose.triangle_count(), 1);
    let strict = Navmesh::with_area_tolerance(triangles, vertices, 1000);
    assert_eq!(strict.err(), Some(MeshError::InvalidMesh));
}

#[test]
fn area_tolerance_of_a_plain_mesh_is_zero() {
    assert_eq!(quad().area_tolerance(), 0);
    assert_eq!(Navmesh::empty().area_tolerance(), 0);
}

#[test]
fn rebuild_replaces_the_mesh() {
    let mut mesh = quad();
    let vertices = vec![Point3::new(0, 0, 0), Point3::new(10, 0, 0), Point3::new(0, 0, 10)];
    assert_eq!(mesh.rebuild(vec![IndexTriple::new(0, 1, 2)], vertices), Ok(()));
    assert_eq!(mesh.triangle_count(), 1);
    assert_eq!(mesh.vertex_count(), 3);
    assert_eq!(mesh.centroid(0), Point3::new(3, 0, 3));
    assert_eq!(mesh.neighbor(0, 0), None);
}

#[test]
fn failed_rebuild_keeps_the_mesh() {
    let mut mesh = quad();
    let vertices = vec![Point3::new(0, 0, 0), Point3::new(10, 0, 0), Point3::new(20, 0, 0)];
    assert_eq!(
        mesh.rebuild(vec![IndexTriple::new(0, 1, 2)], vertices),
        Err(MeshError::InvalidMesh)
    );
    assert_eq!(mesh.triangle_count(), 2);
    assert_eq!(mesh.vertex(3), Point3::new(-1000, 0, -1000));
    assert_eq!(mesh.neighbor(1, 0), Some(0));
    let fan = vec![
        Point3::new(0, 0, 0),
        Point3::new(10, 0, 0),
        Point3::new(0, 0, 10),
        Point3::new(0, 0, -10),
        Point3::new(0, 10, 5),
    ];
    let triangles =
        vec![IndexTriple::new(0, 1, 2), IndexTriple::new(1, 0, 3), IndexTriple::new(0, 1, 4)];
    assert_eq!(mesh.rebuild(triangles, fan), Err(MeshError::NonManifoldEdge));
    assert_eq!(mesh.triangle_count(), 2);
}

#[test]
fn large_grid_is_linked_edge_by_edge() {
    let side: u32 = 40;
    let mut vertices = Vec::new();
    for row in 0..=side {
        for column in 0..=side {
            vertices.push(Point3::new(10 * column as i32, (row % 3) as i32, 10 * row as i32));
        }
    }
    let mut triangles = Vec::new();
    for row in 0..side {
        for column in 0..side {
            let a = row * (side + 1) + column;
            let b = a + 1;
            let c = a + side + 1;
            let d = c + 1;
            triangles.push(IndexTriple::new(a, b, d));
            triangles.push(IndexTriple::new(a, d, c));
        }
    }
    let mesh = Navmesh::new(triangles, vertices).unwrap();
    let n = mesh.triangle_count();
    assert_eq!(n, 3200);
    let mut links = 0;
    for t in 0..n {
        for k in 0..3 {
            if let Some(u) = mesh.neighbor(t, k) {
                links += 1;
                assert!((0..3).any(|j| mesh.neighbor(u, j) == Some(t)));
            }
        }
    }
    assert_eq!(links, 2 * (3 * 40 * 40 - 2 * 40));
    assert_eq!(mesh.neighbor(0, 2), Some(1));
    assert_eq!(mesh.neighbor(1, 0), Some(0));
    assert_eq!(mesh.neighbor(1, 1), Some(2 * 40));
}

#[test]
fn mesh_is_rebuilt_from_its_own_lists() {
    let mesh = strip(6);
    let copy = Navmesh::new(mesh.triangles(), mesh.vertices()).unwrap();
    assert_eq!(copy.triangles(), mesh.triangles());
    assert_eq!(copy.vertices(), mesh.vertices());
    for t in 0..mesh.triangle_count() {
        assert_eq!(copy.centroid(t), mesh.centroid(t));
        for k in 0..3 {
            assert_eq!(copy.neighbor(t, k), mesh.neighbor(t, k));
        }
    }
    assert_eq!(mesh.triangles()[3], IndexTriple::new(2, 5, 3));
    assert_eq!(mesh.vertices()[3], Point3::new(10, 0, 10));
}

#[test]
fn upright_triangle_covers_no_point() {
    let vertices = vec![
        Point3::new(0, 0, 0),
        Point3::new(10, 0, 0),
        Point3::new(0, 10, 0),
        Point3::new(1000, 0, -5),
        Point3::new(1010, 0, -5),
        Point3::new(1000, 0, 5),
    ];
    let triangles = vec![IndexTriple::new(0, 1, 2), IndexTriple::new(3, 4, 5)];
    let mesh = Navmesh::new(triangles, vertices).unwrap();
    assert!(!mesh.triangle_covers(0, Point3::new(5, 0, 0)));
    assert!(!mesh.triangle_covers(0, Point3::new(1003, 0, 0)));
    assert!(mesh.triangle_covers(1, Point3::new(1003, 0, 0)));
    assert_eq!(mesh.locate(Point3::new(1003, 0, 0)), Ok(1));
    assert_eq!(mesh.locate(Point3::new(5, 2, 0)), Ok(0));
    assert_eq!(mesh.locate(Point3::new(600, 0, 0)), Ok(1));
}
