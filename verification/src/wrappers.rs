use vstd::prelude::*;

verus! {

/// A vertex of a social graph, named by the user id it stands for.
#[derive(Debug, Clone, Copy, PartialEq, Eq, Hash, Structural)]
pub struct Node {
    id: u64,
}

impl Node {
    /// The user id of this node, as a spec value.
    pub closed spec fn id_of(self) -> u64 {
        self.id
    }

    /// Makes the node of user `id`.
    pub fn new(id: u64) -> (n: Node)
        ensures
            n.id_of() == id,
    {
        Node { id: id }
    }

    /// The user id of this node.
    pub fn get_id(&self) -> (id: u64)
        ensures
            id == self.id_of(),
    {
        self.id
    }

    /// Two nodes are equal exactly when their ids are.
    pub proof fn lemma_id_determines_node(a: Node, b: Node)
        ensures
            (a.id_of() == b.id_of()) == (a == b),
    {
    }
}

/// A directed edge from `u` to `v`.
#[derive(Debug, Clone, Copy, PartialEq, Eq, Hash, Structural)]
pub struct Edge {
    u: Node,
    v: Node,
}

impl Edge {
    /// Source of the edge, as a spec value.
    pub closed spec fn source(self) -> Node {
        self.u
    }

    /// Target of the edge, as a spec value.
    pub closed spec fn target(self) -> Node {
        self.v
    }

    /// Makes the edge from `u` to `v`.
    pub fn new(u: Node, v: Node) -> (e: Edge)
        ensures
            e.source() == u,
            e.target() == v,
    {
        Edge { u: u, v: v }
    }

    /// Source of the edge.
    pub fn get_u(&self) -> (u: &Node)
        ensures
            *u == self.source(),
    {
        &self.u
    }

    /// Target of the edge.
    pub fn get_v(&self) -> (v: &Node)
        ensures
            *v == self.target(),
    {
        &self.v
    }

    /// Two edges are equal exactly when their endpoints are.
    pub proof fn lemma_endpoints_determine_edge(a: Edge, b: Edge)
        ensures
            (a.source() == b.source() && a.target() == b.target()) == (a == b),
    {
    }
}

} // verus!
