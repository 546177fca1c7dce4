//! The scene node that carries a navigation mesh, its builder, and the small
//! part of a scene graph that the two need: named nodes in an arena,
//! addressed by handles.

use crate::mesh::{MeshModel, Navmesh};
use std::marker::PhantomData;
use vstd::prelude::*;
use vstd::std_specs::cmp::PartialEqSpecImpl;

verus! {

/// What every scene node has: a name.
#[derive(Debug)]
pub struct Base {
    name: String,
}

/// Collects what a `Base` is made of.
#[derive(Debug)]
pub struct BaseBuilder {
    name: String,
}

impl View for Base {
    type V = Seq<char>;

    closed spec fn view(&self) -> Seq<char> {
        self.name@
    }
}

impl View for BaseBuilder {
    type V = Seq<char>;

    closed spec fn view(&self) -> Seq<char> {
        self.name@
    }
}

impl Base {
    pub fn name(&self) -> (name: &str)
        ensures
            name@ == self@,
    {
        self.name.as_str()
    }

    /// Whether the name is `name`.
    pub fn has_name(&self, name: &String) -> (b: bool)
        ensures
            b == (self@ == name@),
    {
        self.name == *name
    }

    pub fn set_name(&mut self, name: String)
        ensures
            final(self)@ == name@,
    {
        self.name = name;
    }
}

impl BaseBuilder {
    /// A builder for a node without a name.
    pub fn new() -> (builder: BaseBuilder)
        ensures
            builder@ == Seq::<char>::empty(),
    {
        BaseBuilder { name: String::new() }
    }

    pub fn with_name(self, name: String) -> (builder: BaseBuilder)
        ensures
            builder@ == name@,
    {
        BaseBuilder { name }
    }

    pub fn build_base(self) -> (base: Base)
        ensures
            base@ == self@,
    {
        Base { name: self.name }
    }
}

impl Default for Base {
    fn default() -> (base: Base)
        ensures
            base@ == Seq::<char>::empty(),
    {
        Base { name: String::new() }
    }
}

impl Clone for Base {
    fn clone(&self) -> (base: Base)
        ensures
            base@ == self@,
    {
        Base { name: self.name.clone() }
    }
}

/// The mathematical content of a navigation-mesh node.
pub struct NodeModel {
    pub name: Seq<char>,
    pub navmesh: MeshModel,
}

/// A scene node that holds a navigation mesh for agents to query.
#[derive(Debug)]
pub struct NavigationalMesh {
    base: Base,
    navmesh: Navmesh,
}

impl View for NavigationalMesh {
    type V = NodeModel;

    closed spec fn view(&self) -> NodeModel {
        NodeModel { name: self.base@, navmesh: self.navmesh@ }
    }
}

impl Default for NavigationalMesh {
    fn default() -> (node: NavigationalMesh)
        ensures
            node@ == (NodeModel { name: Seq::empty(), navmesh: MeshModel::empty() }),
    {
        NavigationalMesh { base: Base::default(), navmesh: Navmesh::default() }
    }
}

impl Clone for NavigationalMesh {
    fn clone(&self) -> (node: NavigationalMesh)
        ensures
            node@ == self@,
    {
        NavigationalMesh { base: self.base.clone(), navmesh: self.navmesh.clone() }
    }
}

/// The identifier of the node type `NavigationalMesh`:
/// d0ce963c-b50a-4707-bd21-af6dc0d1c668.
pub const NAVIGATIONAL_MESH_TYPE_ID: u128 = 0xd0ce963c_b50a_4707_bd21_af6dc0d1c668;

impl core::ops::Deref for NavigationalMesh {
    type Target = Base;

    fn deref(&self) -> (base: &Base)
        ensures
            base@ == self@.name,
    {
        &self.base
    }
}

impl core::ops::DerefMut for NavigationalMesh {
    fn deref_mut(&mut self) -> (base: &mut Base)
        ensures
            base@ == old(self)@.name,
            final(self)@ == (NodeModel { name: final(base)@, ..old(self)@ }),
    {
        &mut self.base
    }
}

impl NavigationalMesh {
    /// The identifier that all nodes of this type share.
    pub fn type_uuid() -> (id: u128)
        ensures
            id == NAVIGATIONAL_MESH_TYPE_ID,
    {
        NAVIGATIONAL_MESH_TYPE_ID
    }

    /// The identifier of this node's type.
    pub fn id(&self) -> (id: u128)
        ensures
            id == NAVIGATIONAL_MESH_TYPE_ID,
    {
        NavigationalMesh::type_uuid()
    }

    /// The mesh that the node holds.
    pub closed spec fn inner(&self) -> Navmesh {
        self.navmesh
    }

    /// What the node has in common with every other node.
    pub fn base(&self) -> (base: &Base)
        ensures
            base@ == self@.name,
    {
        &self.base
    }

    /// Returns a reference to the inner navigational mesh.
    pub fn navmesh_ref(&self) -> (navmesh: &Navmesh)
        ensures
            *navmesh == self.inner(),
            navmesh@ == self@.navmesh,
    {
        &self.navmesh
    }

    /// Returns a mutable reference to the inner navigational mesh: what the
    /// caller leaves in it is the node's mesh from then on.
    pub fn navmesh_mut(&mut self) -> (navmesh: &mut Navmesh)
        ensures
            *navmesh == old(self).inner(),
            navmesh@ == old(self)@.navmesh,
            final(self).inner() == *final(navmesh),
            final(self)@ == (NodeModel { navmesh: final(navmesh)@, ..old(self)@ }),
    {
        &mut self.navmesh
    }
}

/// A node of the scene graph.
#[derive(Debug)]
pub struct Node {
    content: NavigationalMesh,
}

impl View for Node {
    type V = NodeModel;

    closed spec fn view(&self) -> NodeModel {
        self.content@
    }
}

impl Node {
    pub fn new(content: NavigationalMesh) -> (node: Node)
        ensures
            node@ == content@,
    {
        Node { content }
    }

    pub fn as_navigational_mesh(&self) -> (content: &NavigationalMesh)
        ensures
            content@ == self@,
    {
        &self.content
    }

    pub fn as_navigational_mesh_mut(&mut self) -> (content: &mut NavigationalMesh)
        ensures
            content@ == old(self)@,
            final(self)@ == final(content)@,
    {
        &mut self.content
    }
}

/// The place of a `T` in an arena.
#[derive(Debug)]
pub struct Handle<T> {
    index: usize,
    marker: PhantomData<T>,
}

impl<T> View for Handle<T> {
    type V = usize;

    closed spec fn view(&self) -> usize {
        self.index
    }
}

impl<T> Handle<T> {
    /// The handle of the entry at `index`.
    pub fn new(index: usize) -> (handle: Handle<T>)
        ensures
            handle@ == index,
    {
        Handle { index, marker: PhantomData }
    }

    /// The position that the handle stands for.
    pub fn index(&self) -> (index: usize)
        ensures
            index == self@,
    {
        self.index
    }
}

impl<T> Clone for Handle<T> {
    fn clone(&self) -> (handle: Handle<T>)
        ensures
            handle@ == self@,
    {
        Handle { index: self.index, marker: PhantomData }
    }
}

impl<T> Copy for Handle<T> {

}

impl<T> PartialEq for Handle<T> {
    fn eq(&self, other: &Handle<T>) -> (equal: bool) {
        self.index == other.index
    }
}

impl<T> PartialEqSpecImpl for Handle<T> {
    open spec fn obeys_eq_spec() -> bool {
        true
    }

    open spec fn eq_spec(&self, other: &Handle<T>) -> bool {
        self@ == other@
    }
}

impl<T> Eq for Handle<T> {

}

/// An arena of nodes. Nodes are only ever added, so a handle stays valid.
#[derive(Debug)]
pub struct Graph {
    nodes: Vec<Node>,
}

impl View for Graph {
    type V = Seq<NodeModel>;

    closed spec fn view(&self) -> Seq<NodeModel> {
        self.nodes@.map_values(|node: Node| node@)
    }
}

impl Graph {
    pub fn new() -> (graph: Graph)
        ensures
            graph@ == Seq::<NodeModel>::empty(),
    {
        let graph = Graph { nodes: Vec::new() };
        assert(graph@ =~= Seq::<NodeModel>::empty());
        graph
    }

    pub fn len(&self) -> (n: usize)
        ensures
            n == self@.len(),
    {
        self.nodes.len()
    }

    /// Adds a node behind those that are there and returns its handle.
    pub fn add_node(&mut self, node: Node) -> (handle: Handle<Node>)
        ensures
            final(self)@ == old(self)@.push(node@),
            handle@ == old(self)@.len(),
    {
        let index: usize = self.nodes.len();
        self.nodes.push(node);
        assert(self@ =~= old(self)@.push(node@));
        Handle::new(index)
    }

    /// The handle of the first node of the given name, if there is one.
    pub fn find_by_name(&self, name: &str) -> (found: Option<Handle<Node>>)
        ensures
            match found {
                Some(handle) => {
                    &&& handle@ < self@.len()
                    &&& self@[handle@ as int].name == name@
                    &&& forall|i: int| 0 <= i < handle@ ==> (#[trigger] self@[i]).name != name@
                },
                None => forall|i: int| 0 <= i < self@.len() ==> (#[trigger] self@[i]).name != name@,
            },
    {
        let wanted: String = name.to_owned();
        let mut index: usize = 0;
        while index < self.nodes.len()
            invariant
                index <= self.nodes.len(),
                wanted@ == name@,
                forall|i: int| 0 <= i < index ==> (#[trigger] self@[i]).name != name@,
            decreases self.nodes.len() - index,
        {
            assert(self@[index as int] == self.nodes@[index as int]@);
            if self.nodes[index].content.base.has_name(&wanted) {
                return Some(Handle::new(index));
            }
            index += 1;
        }
        None
    }

    /// The node behind a handle, if the handle is one of this graph.
    pub fn node(&self, handle: &Handle<Node>) -> (node: Option<&Node>)
        ensures
            match node {
                Some(found) => handle@ < self@.len() && found@ == self@[handle@ as int],
                None => handle@ >= self@.len(),
            },
    {
        if handle.index < self.nodes.len() {
            Some(&self.nodes[handle.index])
        } else {
            None
        }
    }
}

/// Creates navigational meshes and adds them to a scene graph.
#[derive(Debug)]
pub struct NavigationalMeshBuilder {
    base_builder: BaseBuilder,
    navmesh: Navmesh,
}

impl View for NavigationalMeshBuilder {
    type V = NodeModel;

    closed spec fn view(&self) -> NodeModel {
        NodeModel { name: self.base_builder@, navmesh: self.navmesh@ }
    }
}

impl NavigationalMeshBuilder {
    /// Creates new navigational mesh builder, with an empty mesh.
    pub fn new(base_builder: BaseBuilder) -> (builder: NavigationalMeshBuilder)
        ensures
            builder@ == (NodeModel { name: base_builder@, navmesh: MeshModel::empty() }),
    {
        NavigationalMeshBuilder { base_builder, navmesh: Navmesh::default() }
    }

    /// Sets the actual navigational mesh.
    pub fn with_navmesh(self, navmesh: Navmesh) -> (builder: NavigationalMeshBuilder)
        ensures
            builder@ == (NodeModel { navmesh: navmesh@, ..self@ }),
    {
        NavigationalMeshBuilder { base_builder: self.base_builder, navmesh }
    }

    /// Creates the node that the builder describes.
    pub fn build_navigational_mesh(self) -> (node: NavigationalMesh)
        ensures
            node@ == self@,
    {
        NavigationalMesh { base: self.base_builder.build_base(), navmesh: self.navmesh }
    }

    /// Creates new navigational mesh instance.
    pub fn build_node(self) -> (node: Node)
        ensures
            node@ == self@,
    {
        Node::new(self.build_navigational_mesh())
    }

    /// Creates new navigational mesh instance and adds it to the graph.
    pub fn build(self, graph: &mut Graph) -> (handle: Handle<Node>)
        ensures
            final(graph)@ == old(graph)@.push(self@),
            handle@ == old(graph)@.len(),
    {
        graph.add_node(self.build_node())
    }
}

} // verus!
