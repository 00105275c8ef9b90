//! Triangle meshes.
use crate::point::Vertex;
use vstd::prelude::*;

verus! {

/// An indexed triangle mesh: vertices and triples of indices into them.
#[derive(Clone, Debug)]
pub struct Model {
    pub verts: Vec<Vertex>,
    pub faces: Vec<(usize, usize, usize)>,
}

impl Model {
    /// Every vertex holds valid scalars and every face index names a vertex.
    pub open spec fn wf(&self) -> bool {
        &&& forall|i: int| 0 <= i < self.verts@.len() ==> (#[trigger] self.verts@[i]).wf()
        &&& forall|i: int|
            0 <= i < self.faces@.len() ==> {
                let f = #[trigger] self.faces@[i];
                &&& f.0 < self.verts@.len()
                &&& f.1 < self.verts@.len()
                &&& f.2 < self.verts@.len()
            }
    }

    /// The empty mesh.
    pub fn new() -> (r: Model)
        ensures
            r.verts@.len() == 0,
            r.faces@.len() == 0,
            r.wf(),
    {
        Model { verts: Vec::new(), faces: Vec::new() }
    }
}

} // verus!
