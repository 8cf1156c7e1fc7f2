use vstd::prelude::*;

verus! {

/// Identifies a feature (vertex, edge or face) of a polyhedron.
#[derive(PartialEq, Eq, Structural, Clone, Copy, Debug)]
pub enum FeatureId {
    /// The vertex with the given index.
    Vertex(u32),
    /// The edge with the given index.
    Edge(u32),
    /// The face with the given index.
    Face(u32),
    /// An unknown feature.
    Unknown,
}

impl FeatureId {
    /// The index of a vertex feature.
    pub fn unwrap_vertex(self) -> (res: u32)
        requires
            self is Vertex,
        ensures
            self == FeatureId::Vertex(res),
    {
        match self {
            FeatureId::Vertex(id) => id,
            _ => 0,
        }
    }

    /// The index of an edge feature.
    pub fn unwrap_edge(self) -> (res: u32)
        requires
            self is Edge,
        ensures
            self == FeatureId::Edge(res),
    {
        match self {
            FeatureId::Edge(id) => id,
            _ => 0,
        }
    }

    /// The index of a face feature.
    pub fn unwrap_face(self) -> (res: u32)
        requires
            self is Face,
        ensures
            self == FeatureId::Face(res),
    {
        match self {
            FeatureId::Face(id) => id,
            _ => 0,
        }
    }
}

} // verus!
