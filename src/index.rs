//! Strongly typed 32-bit indices into the arrays of a mesh.
use vstd::prelude::*;
verus! {

/// Index of a material of a mesh, stored in 32 bits.
#[derive(Debug, Clone, Copy, PartialEq, Eq, Structural, Hash, Default)]
pub struct MaterialIndex(pub u32);

impl MaterialIndex {
    /// The index as a natural number.
    pub open spec fn id(self) -> nat {
        self.0 as nat
    }

    /// The index as a `usize`.
    pub fn index(self) -> (r: usize)
        ensures
            r == self.id(),
    {
        self.0 as usize
    }
}

impl From<MaterialIndex> for usize {
    fn from(idx: MaterialIndex) -> (r: usize) {
        idx.0 as usize
    }
}

impl vstd::std_specs::convert::FromSpecImpl<MaterialIndex> for usize {
    open spec fn obeys_from_spec() -> bool {
        true
    }

    open spec fn from_spec(idx: MaterialIndex) -> usize {
        idx.0 as usize
    }
}

impl From<usize> for MaterialIndex {
    fn from(idx: usize) -> (r: MaterialIndex) {
        MaterialIndex(idx as u32)
    }
}

impl vstd::std_specs::convert::FromSpecImpl<usize> for MaterialIndex {
    open spec fn obeys_from_spec() -> bool {
        true
    }

    open spec fn from_spec(idx: usize) -> MaterialIndex {
        MaterialIndex(idx as u32)
    }
}

/// Index of a vertex of a mesh, stored in 32 bits.
#[derive(Debug, Clone, Copy, PartialEq, Eq, Structural, Hash, Default)]
pub struct VertexIndex(pub u32);

impl VertexIndex {
    /// The index as a natural number.
    pub open spec fn id(self) -> nat {
        self.0 as nat
    }

    /// The index as a `usize`.
    pub fn index(self) -> (r: usize)
        ensures
            r == self.id(),
    {
        self.0 as usize
    }
}

impl From<VertexIndex> for usize {
    fn from(idx: VertexIndex) -> (r: usize) {
        idx.0 as usize
    }
}

impl vstd::std_specs::convert::FromSpecImpl<VertexIndex> for usize {
    open spec fn obeys_from_spec() -> bool {
        true
    }

    open spec fn from_spec(idx: VertexIndex) -> usize {
        idx.0 as usize
    }
}

impl From<usize> for VertexIndex {
    fn from(idx: usize) -> (r: VertexIndex) {
        VertexIndex(idx as u32)
    }
}

impl vstd::std_specs::convert::FromSpecImpl<usize> for VertexIndex {
    open spec fn obeys_from_spec() -> bool {
        true
    }

    open spec fn from_spec(idx: usize) -> VertexIndex {
        VertexIndex(idx as u32)
    }
}

/// Index of an edge of a mesh, stored in 32 bits.
#[derive(Debug, Clone, Copy, PartialEq, Eq, Structural, Hash, Default)]
pub struct EdgeIndex(pub u32);

impl EdgeIndex {
    /// The index as a natural number.
    pub open spec fn id(self) -> nat {
        self.0 as nat
    }

    /// The index as a `usize`.
    pub fn index(self) -> (r: usize)
        ensures
            r == self.id(),
    {
        self.0 as usize
    }
}

impl From<EdgeIndex> for usize {
    fn from(idx: EdgeIndex) -> (r: usize) {
        idx.0 as usize
    }
}

impl vstd::std_specs::convert::FromSpecImpl<EdgeIndex> for usize {
    open spec fn obeys_from_spec() -> bool {
        true
    }

    open spec fn from_spec(idx: EdgeIndex) -> usize {
        idx.0 as usize
    }
}

impl From<usize> for EdgeIndex {
    fn from(idx: usize) -> (r: EdgeIndex) {
        EdgeIndex(idx as u32)
    }
}

impl vstd::std_specs::convert::FromSpecImpl<usize> for EdgeIndex {
    open spec fn obeys_from_spec() -> bool {
        true
    }

    open spec fn from_spec(idx: usize) -> EdgeIndex {
        EdgeIndex(idx as u32)
    }
}

/// Index of a face of a mesh, stored in 32 bits.
#[derive(Debug, Clone, Copy, PartialEq, Eq, Structural, Hash, Default)]
pub struct FaceIndex(pub u32);

impl FaceIndex {
    /// The index as a natural number.
    pub open spec fn id(self) -> nat {
        self.0 as nat
    }

    /// The index as a `usize`.
    pub fn index(self) -> (r: usize)
        ensures
            r == self.id(),
    {
        self.0 as usize
    }
}

impl From<FaceIndex> for usize {
    fn from(idx: FaceIndex) -> (r: usize) {
        idx.0 as usize
    }
}

impl vstd::std_specs::convert::FromSpecImpl<FaceIndex> for usize {
    open spec fn obeys_from_spec() -> bool {
        true
    }

    open spec fn from_spec(idx: FaceIndex) -> usize {
        idx.0 as usize
    }
}

impl From<usize> for FaceIndex {
    fn from(idx: usize) -> (r: FaceIndex) {
        FaceIndex(idx as u32)
    }
}

impl vstd::std_specs::convert::FromSpecImpl<usize> for FaceIndex {
    open spec fn obeys_from_spec() -> bool {
        true
    }

    open spec fn from_spec(idx: usize) -> FaceIndex {
        FaceIndex(idx as u32)
    }
}

} // verus!
