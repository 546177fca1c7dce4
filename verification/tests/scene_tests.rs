use navmesh::geometry::Point3;
use navmesh::mesh::{IndexTriple, Navmesh};
use navmesh::scene::{
    BaseBuilder, Graph, Handle, NavigationalMesh, NavigationalMeshBuilder, Node,
    NAVIGATIONAL_MESH_TYPE_ID,
};

fn quad_mesh() -> Navmesh {
    Navmesh::new(
        vec![IndexTriple::new(0, 1, 2), IndexTriple::new(0, 2, 3)],
        vec![
            Point3::new(-1000, 0, 1000),
            Point3::new(1000, 0, 1000),
            Point3::new(1000, 0, -1000),
            Point3::new(-1000, 0, -1000),
        ],
    )
    .unwrap()
}

#[test]
fn builder_starts_with_an_empty_mesh() {
    let node = NavigationalMeshBuilder::new(BaseBuilder::new()).build_navigational_mesh();
    assert_eq!(node.navmesh_ref().triangle_count(), 0);
    assert_eq!(node.navmesh_ref().vertex_count(), 0);
    assert_eq!(node.base().name(), "");
}

#[test]
fn builder_hands_the_mesh_to_the_node() {
    let node = NavigationalMeshBuilder::new(BaseBuilder::new().with_name("floor".to_string()))
        .with_navmesh(quad_mesh())
        .build_node();
    let inner = node.as_navigational_mesh();
    assert_eq!(inner.base().name(), "floor");
    assert_eq!(inner.navmesh_ref().triangle_count(), 2);
    assert_eq!(inner.navmesh_ref().vertex(3), Point3::new(-1000, 0, -1000));
}

#[test]
fn build_adds_the_node_behind_the_others() {
    let mut graph = Graph::new();
    assert_eq!(graph.len(), 0);
    let first = NavigationalMeshBuilder::new(BaseBuilder::new()).build(&mut graph);
    let second = NavigationalMeshBuilder::new(BaseBuilder::new().with_name("yard".to_string()))
        .with_navmesh(quad_mesh())
        .build(&mut graph);
    assert_eq!(first, Handle::new(0));
    assert_eq!(second, Handle::new(1));
    assert_ne!(first, second);
    assert_eq!((first.index(), second.index()), (0, 1));
    assert_eq!(graph.len(), 2);
    let yard = graph.node(&second).unwrap().as_navigational_mesh();
    assert_eq!(yard.base().name(), "yard");
    assert_eq!(yard.navmesh_ref().triangle_count(), 2);
    assert_eq!(graph.node(&first).unwrap().as_navigational_mesh().navmesh_ref().triangle_count(), 0);
    let beyond: Handle<Node> = Handle::new(2);
    assert!(graph.node(&beyond).is_none());
}

#[test]
fn navmesh_mut_replaces_the_mesh_in_place() {
    let mut node = NavigationalMeshBuilder::new(BaseBuilder::new()).build_node();
    *node.as_navigational_mesh_mut().navmesh_mut() = quad_mesh();
    assert_eq!(node.as_navigational_mesh().navmesh_ref().triangle_count(), 2);
}

#[test]
fn agent_queries_the_mesh_of_a_node() {
    let mut node = NavigationalMeshBuilder::new(BaseBuilder::new())
        .with_navmesh(quad_mesh())
        .build_navigational_mesh();
    let mut agent = navmesh::agent::NavmeshAgent::new(Point3::new(0, 0, 0), 1000);
    agent.set_target(Point3::new(30, 0, 40));
    assert_eq!(agent.update(10, node.navmesh_mut()), Ok(()));
    assert_eq!(agent.position(), Point3::new(6, 0, 8));
}

#[test]
fn default_node_has_no_name_and_no_mesh() {
    let node = NavigationalMesh::default();
    assert_eq!(node.base().name(), "");
    assert_eq!(node.navmesh_ref().triangle_count(), 0);
}

#[test]
fn cloned_node_has_the_same_name_and_mesh() {
    let node = NavigationalMeshBuilder::new(BaseBuilder::new().with_name("deck".to_string()))
        .with_navmesh(quad_mesh())
        .build_navigational_mesh();
    let copy = node.clone();
    assert_eq!(copy.base().name(), "deck");
    assert_eq!(copy.navmesh_ref().triangle_count(), 2);
    assert_eq!(copy.navmesh_ref().vertex_count(), 4);
    for t in 0..2 {
        assert_eq!(copy.navmesh_ref().triangle(t), node.navmesh_ref().triangle(t));
        assert_eq!(copy.navmesh_ref().centroid(t), node.navmesh_ref().centroid(t));
        for k in 0..3 {
            assert_eq!(copy.navmesh_ref().neighbor(t, k), node.navmesh_ref().neighbor(t, k));
        }
    }
    let from = Point3::new(900, 0, 900);
    let to = Point3::new(-900, 0, -900);
    assert_eq!(copy.navmesh_ref().find_path(from, to), node.navmesh_ref().find_path(from, to));
}

#[test]
fn node_derefs_to_its_base() {
    let mut node = NavigationalMeshBuilder::new(BaseBuilder::new().with_name("hall".to_string()))
        .build_navigational_mesh();
    assert_eq!(node.name(), "hall");
    node.set_name("attic".to_string());
    assert_eq!(node.name(), "attic");
    assert_eq!(node.base().name(), "attic");
    assert_eq!(node.navmesh_ref().triangle_count(), 0);
}

#[test]
fn every_node_has_the_type_id() {
    let node = NavigationalMesh::default();
    assert_eq!(NavigationalMesh::type_uuid(), 0xd0ce963c_b50a_4707_bd21_af6dc0d1c668);
    assert_eq!(node.id(), NAVIGATIONAL_MESH_TYPE_ID);
    assert_eq!(node.id(), NavigationalMesh::type_uuid());
}

#[test]
fn find_by_name_gives_the_first_node_of_that_name() {
    let mut graph = Graph::new();
    assert!(graph.find_by_name("yard").is_none());
    let names = ["hall", "yard", "", "yard", "attic"];
    for name in names {
        NavigationalMeshBuilder::new(BaseBuilder::new().with_name(name.to_string()))
            .build(&mut graph);
    }
    assert_eq!(graph.find_by_name("hall"), Some(Handle::new(0)));
    assert_eq!(graph.find_by_name("yard"), Some(Handle::new(1)));
    assert_eq!(graph.find_by_name(""), Some(Handle::new(2)));
    assert_eq!(graph.find_by_name("attic"), Some(Handle::new(4)));
    assert_eq!(graph.find_by_name("Yard"), None);
    assert_eq!(graph.find_by_name("yar"), None);
}
