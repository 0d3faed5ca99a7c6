//! The mesh: an ordered list of vertex positions and an ordered list of
//! triangular faces.

use vstd::prelude::*;

verus! {

/// A triangle mesh.
///
/// A position is three single-precision IEEE-754 numbers (x, y, z), each held
/// as its 32-bit pattern, so that a position is kept bit for bit. A face is
/// three 32-bit indices; they are carried as given and never held against the
/// number of positions.
#[derive(Clone, Debug, PartialEq, Eq)]
pub struct Mesh {
    pub positions: Vec<[u32; 3]>,
    pub faces: Vec<[u32; 3]>,
}

/// What a mesh holds, as two sequences.
pub ghost struct MeshView {
    pub positions: Seq<[u32; 3]>,
    pub faces: Seq<[u32; 3]>,
}

impl View for Mesh {
    type V = MeshView;

    open spec fn view(&self) -> MeshView {
        MeshView { positions: self.positions@, faces: self.faces@ }
    }
}

impl Mesh {
    /// The mesh without positions or faces.
    pub fn new() -> (mesh: Mesh)
        ensures
            mesh@.positions == Seq::<[u32; 3]>::empty(),
            mesh@.faces == Seq::<[u32; 3]>::empty(),
    {
        Mesh { positions: Vec::new(), faces: Vec::new() }
    }
}

} // verus!
