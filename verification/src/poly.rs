//! What the mesher's logic reads of a TetGen `.poly`: its facets, by node numbers and marker,
//! and how many nodes and regions it lists. The node positions and region seeds are
//! floating-point, kept by the callers that write and read the file.
use vstd::prelude::*;

verus! {

/// A triangular facet: its three nodes (0-based positions in the node list) and its marker.
#[derive(Clone, Copy, Debug, PartialEq, Eq)]
pub struct Face {
    pub vertices: [u32; 3],
    pub face_index: u32,
}

/// The facets of a `.poly`: the model's own, then the user-defined ones (fitting zones), with the
/// number of nodes and of region seeds.
#[derive(Clone, Debug, PartialEq, Eq)]
pub struct Model {
    pub model_faces: Vec<Face>,
    pub user_defined_faces: Vec<Face>,
    pub vertices: usize,
    pub regions: usize,
}

impl Model {
    /// A model of these facets and no user-defined ones.
    pub fn of_faces(model_faces: Vec<Face>, vertices: usize) -> (r: Self)
        ensures
            r.model_faces@ == model_faces@,
            r.user_defined_faces@.len() == 0,
            r.vertices == vertices,
            r.regions == 0,
    {
        Model { model_faces, user_defined_faces: Vec::new(), vertices, regions: 0 }
    }
}

} // verus!
