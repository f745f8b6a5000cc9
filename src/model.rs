//! The triangle mesh as a graph: faces with their three vertices and edges,
//! and edges with the one or two faces that share them.
use vstd::prelude::*;

use crate::index::{EdgeIndex, FaceIndex, MaterialIndex, VertexIndex};

verus! {

/// A triangle: `edges[i]` joins `vertices[i]` and `vertices[(i + 1) % 3]`.
#[derive(Debug, Clone, Copy)]
pub struct Face {
    pub material: MaterialIndex,
    pub vertices: [VertexIndex; 3],
    pub edges: [EdgeIndex; 3],
}

/// An edge, known by the faces that share it. Without a second face it is a
/// rim edge of the mesh.
#[derive(Debug, Clone, Copy, PartialEq, Eq, Structural)]
pub struct Edge {
    pub f0: FaceIndex,
    pub f1: Option<FaceIndex>,
}

/// Whether face `f` lists edge `e` among its three edges.
pub open spec fn face_has_edge(f: Face, e: nat) -> bool {
    exists|k: int| 0 <= k < 3 && #[trigger] f.edges@[k].id() == e
}

/// Whether `f` is one of the faces of edge `e`.
pub open spec fn edge_has_face(e: Edge, f: nat) -> bool {
    e.f0.id() == f || (e.f1 is Some && e.f1->0.id() == f)
}

impl Face {
    pub fn index_vertices(&self) -> (r: [VertexIndex; 3])
        ensures
            r == self.vertices,
    {
        self.vertices
    }

    pub fn index_edges(&self) -> (r: [EdgeIndex; 3])
        ensures
            r == self.edges,
    {
        self.edges
    }

    pub fn material(&self) -> (r: MaterialIndex)
        ensures
            r == self.material,
    {
        self.material
    }

    /// The three sides of the face, each as its two vertices in face order
    /// and its edge.
    pub fn vertices_with_edges(&self) -> (r: Vec<(VertexIndex, VertexIndex, EdgeIndex)>)
        ensures
            r@.len() == 3,
            forall|i: int|
                0 <= i < 3 ==> #[trigger] r@[i] == (
                    self.vertices@[i],
                    self.vertices@[(i + 1) % 3],
                    self.edges@[i],
                ),
    {
        let mut r: Vec<(VertexIndex, VertexIndex, EdgeIndex)> = Vec::new();
        let mut i: usize = 0;
        while i < 3
            invariant
                i <= 3,
                r@.len() == i,
                forall|j: int|
                    0 <= j < i ==> #[trigger] r@[j] == (
                        self.vertices@[j],
                        self.vertices@[(j + 1) % 3],
                        self.edges@[j],
                    ),
            decreases 3 - i,
        {
            r.push((self.vertices[i], self.vertices[(i + 1) % 3], self.edges[i]));
            i += 1;
        }
        r
    }

    /// Whether the face has edge `e`.
    pub fn lists_edge(&self, e: EdgeIndex) -> (r: bool)
        ensures
            r == face_has_edge(*self, e.id()),
    {
        let r = self.edges[0] == e || self.edges[1] == e || self.edges[2] == e;
        proof {
            if face_has_edge(*self, e.id()) {
                let k = choose|k: int| 0 <= k < 3 && #[trigger] self.edges@[k].id() == e.id();
                assert(self.edges@[k] == e);
            }
            if r {
                if self.edges[0] == e {
                    assert(self.edges@[0].id() == e.id());
                } else if self.edges[1] == e {
                    assert(self.edges@[1].id() == e.id());
                } else {
                    assert(self.edges@[2].id() == e.id());
                }
            }
        }
        r
    }

    /// Position of edge `e` in the face, if the face has it.
    pub open spec fn edge_position(self, e: EdgeIndex) -> int {
        choose|k: int| 0 <= k < 3 && self.edges@[k] == e
    }

    /// The vertex of the face that is not on edge `i_edge`.
    pub fn opposite_edge(&self, i_edge: EdgeIndex) -> (r: VertexIndex)
        requires
            face_has_edge(*self, i_edge.id()),
        ensures
            exists|k: int|
                0 <= k < 3 && self.edges@[k] == i_edge && (forall|j: int|
                    0 <= j < k ==> self.edges@[j] != i_edge) && r == self.vertices@[(k + 2) % 3],
    {
        let k: usize = if self.edges[0] == i_edge {
            0
        } else if self.edges[1] == i_edge {
            1
        } else {
            2
        };
        self.vertices[(k + 2) % 3]
    }
}

impl Edge {
    pub fn faces(&self) -> (r: (FaceIndex, Option<FaceIndex>))
        ensures
            r == (self.f0, self.f1),
    {
        (self.f0, self.f1)
    }

    /// `false` for the first face of the edge, `true` for the second.
    pub fn face_sign(&self, i_face: FaceIndex) -> (r: bool)
        requires
            edge_has_face(*self, i_face.id()),
        ensures
            r == (self.f0 != i_face),
    {
        if self.f0 == i_face {
            false
        } else {
            true
        }
    }
}

/// The mesh graph: faces and edges, over `num_vertices` vertices.
pub struct Model {
    pub faces: Vec<Face>,
    pub edges: Vec<Edge>,
    pub num_vertices: usize,
}

impl Model {
    /// Every index in range, every face with three distinct edges, every edge
    /// with one or two distinct faces, and faces and edges listing each other.
    pub open spec fn wf(&self) -> bool {
        &&& self.faces@.len() <= u32::MAX
        &&& self.edges@.len() <= u32::MAX
        &&& forall|f: int, k: int|
            0 <= f < self.faces@.len() && 0 <= k < 3 ==> {
                &&& (#[trigger] self.faces@[f].edges@[k]).id() < self.edges@.len()
                &&& self.faces@[f].vertices@[k].id() < self.num_vertices
                &&& edge_has_face(self.edges@[self.faces@[f].edges@[k].id() as int], f as nat)
            }
        &&& forall|f: int|
            0 <= f < self.faces@.len() ==> {
                &&& (#[trigger] self.faces@[f]).edges@[0] != self.faces@[f].edges@[1]
                &&& self.faces@[f].edges@[0] != self.faces@[f].edges@[2]
                &&& self.faces@[f].edges@[1] != self.faces@[f].edges@[2]
            }
        &&& forall|e: int|
            0 <= e < self.edges@.len() ==> {
                &&& (#[trigger] self.edges@[e]).f0.id() < self.faces@.len()
                &&& face_has_edge(self.faces@[self.edges@[e].f0.id() as int], e as nat)
                &&& self.edges@[e].f1 is Some ==> {
                    &&& self.edges@[e].f1->0.id() < self.faces@.len()
                    &&& self.edges@[e].f1->0 != self.edges@[e].f0
                    &&& face_has_edge(self.faces@[self.edges@[e].f1->0.id() as int], e as nat)
                }
            }
    }

    /// Whether the model is well formed (see `wf`), as read from a file.
    pub fn is_well_formed(&self) -> (r: bool)
        ensures
            r == self.wf(),
    {
        let nf = self.faces.len();
        let ne = self.edges.len();
        if nf > 0xffff_ffff || ne > 0xffff_ffff {
            return false;
        }
        let mut f: usize = 0;
        while f < nf
            invariant
                nf == self.faces@.len(),
                ne == self.edges@.len(),
                nf <= 0xffff_ffff,
                ne <= 0xffff_ffff,
                f <= nf,
                forall|g: int, k: int|
                    0 <= g < f && 0 <= k < 3 ==> {
                        &&& (#[trigger] self.faces@[g].edges@[k]).id() < ne
                        &&& self.faces@[g].vertices@[k].id() < self.num_vertices
                        &&& edge_has_face(self.edges@[self.faces@[g].edges@[k].id() as int], g as nat)
                    },
                forall|g: int|
                    0 <= g < f ==> {
                        &&& (#[trigger] self.faces@[g]).edges@[0] != self.faces@[g].edges@[1]
                        &&& self.faces@[g].edges@[0] != self.faces@[g].edges@[2]
                        &&& self.faces@[g].edges@[1] != self.faces@[g].edges@[2]
                    },
            decreases nf - f,
        {
            let face = &self.faces[f];
            if face.edges[0] == face.edges[1] || face.edges[0] == face.edges[2] || face.edges[1]
                == face.edges[2] {
                return false;
            }
            let mut k: usize = 0;
            while k < 3
                invariant
                    nf == self.faces@.len(),
                    ne == self.edges@.len(),
                    nf <= 0xffff_ffff,
                    f < nf,
                    k <= 3,
                    *face == self.faces@[f as int],
                    forall|kk: int|
                        0 <= kk < k ==> {
                            &&& (#[trigger] self.faces@[f as int].edges@[kk]).id() < ne
                            &&& self.faces@[f as int].vertices@[kk].id() < self.num_vertices
                            &&& edge_has_face(
                                self.edges@[self.faces@[f as int].edges@[kk].id() as int],
                                f as nat,
                            )
                        },
                decreases 3 - k,
            {
                let e = face.edges[k].0 as usize;
                if e >= ne || face.vertices[k].0 as usize >= self.num_vertices {
                    return false;
                }
                let edge = self.edges[e];
                let fi = FaceIndex(f as u32);
                let on = edge.f0 == fi || match edge.f1 {
                    Some(x) => x == fi,
                    None => false,
                };
                if !on {
                    return false;
                }
                k += 1;
            }
            f += 1;
        }
        let mut e: usize = 0;
        while e < ne
            invariant
                nf == self.faces@.len(),
                ne == self.edges@.len(),
                ne <= 0xffff_ffff,
                e <= ne,
                forall|x: int|
                    0 <= x < e ==> {
                        &&& (#[trigger] self.edges@[x]).f0.id() < nf
                        &&& face_has_edge(self.faces@[self.edges@[x].f0.id() as int], x as nat)
                        &&& self.edges@[x].f1 is Some ==> {
                            &&& self.edges@[x].f1->0.id() < nf
                            &&& self.edges@[x].f1->0 != self.edges@[x].f0
                            &&& face_has_edge(self.faces@[self.edges@[x].f1->0.id() as int], x as nat)
                        }
                    },
            decreases ne - e,
        {
            let edge = self.edges[e];
            let ei = EdgeIndex(e as u32);
            if edge.f0.0 as usize >= nf || !self.faces[edge.f0.0 as usize].lists_edge(ei) {
                return false;
            }
            if let Some(f1) = edge.f1 {
                if f1.0 as usize >= nf || f1 == edge.f0 || !self.faces[f1.0 as usize].lists_edge(ei) {
                    return false;
                }
            }
            e += 1;
        }
        true
    }

    pub fn empty() -> (r: Model)
        ensures
            r.wf(),
            r.faces@.len() == 0,
            r.edges@.len() == 0,
            r.num_vertices == 0,
    {
        Model { faces: Vec::new(), edges: Vec::new(), num_vertices: 0 }
    }

    pub fn num_edges(&self) -> (r: usize)
        ensures
            r == self.edges@.len(),
    {
        self.edges.len()
    }

    pub fn num_faces(&self) -> (r: usize)
        ensures
            r == self.faces@.len(),
    {
        self.faces.len()
    }

    pub fn num_vertices(&self) -> (r: usize)
        ensures
            r == self.num_vertices,
    {
        self.num_vertices
    }

    pub fn face(&self, i: FaceIndex) -> (r: &Face)
        requires
            i.id() < self.faces@.len(),
        ensures
            *r == self.faces@[i.id() as int],
    {
        &self.faces[i.0 as usize]
    }

    pub fn edge(&self, i: EdgeIndex) -> (r: &Edge)
        requires
            i.id() < self.edges@.len(),
        ensures
            *r == self.edges@[i.id() as int],
    {
        &self.edges[i.0 as usize]
    }

    /// The two vertices of edge `i_edge`, in the order in which its first
    /// face lists them.
    pub open spec fn edge_vertices_spec(&self, i_edge: EdgeIndex) -> (VertexIndex, VertexIndex) {
        let f = self.faces@[self.edges@[i_edge.id() as int].f0.id() as int];
        let k = f.edge_position(i_edge);
        (f.vertices@[k], f.vertices@[(k + 1) % 3])
    }

    /// The vertices of an edge, as seen from its first face.
    pub fn edge_vertices(&self, i_edge: EdgeIndex) -> (r: (VertexIndex, VertexIndex))
        requires
            self.wf(),
            i_edge.id() < self.edges@.len(),
        ensures
            r == self.edge_vertices_spec(i_edge),
    {
        let e = self.edges[i_edge.0 as usize];
        let f = &self.faces[e.f0.0 as usize];
        proof {
            let fs = self.faces@[e.f0.id() as int];
            assert(face_has_edge(fs, i_edge.id()));
            let k = fs.edge_position(i_edge);
            assert(0 <= k < 3 && fs.edges@[k] == i_edge);
            assert(fs.edges@[0] != fs.edges@[1] && fs.edges@[0] != fs.edges@[2] && fs.edges@[1]
                != fs.edges@[2]);
        }
        if f.edges[0] == i_edge {
            (f.vertices[0], f.vertices[1])
        } else if f.edges[1] == i_edge {
            (f.vertices[1], f.vertices[2])
        } else {
            (f.vertices[2], f.vertices[0])
        }
    }
}

/// The edge/face law of an assembled mesh: every edge has a first face and
/// at most one second face, distinct from the first, and both list the
/// edge; every face has three distinct edges, each listing the face.
pub proof fn lemma_edge_face_invariant(m: Model, e: int, f: int)
    requires
        m.wf(),
    ensures
        0 <= e < m.edges@.len() ==> {
            let edge = m.edges@[e];
            &&& edge.f0.id() < m.faces@.len()
            &&& face_has_edge(m.faces@[edge.f0.id() as int], e as nat)
            &&& edge.f1 is Some ==> edge.f1->0 != edge.f0 && edge.f1->0.id() < m.faces@.len()
                && face_has_edge(m.faces@[edge.f1->0.id() as int], e as nat)
        },
        0 <= f < m.faces@.len() ==> {
            let face = m.faces@[f];
            &&& face.edges@[0] != face.edges@[1]
            &&& face.edges@[0] != face.edges@[2]
            &&& face.edges@[1] != face.edges@[2]
            &&& forall|k: int|
                0 <= k < 3 ==> (#[trigger] face.edges@[k]).id() < m.edges@.len() && edge_has_face(
                    m.edges@[face.edges@[k].id() as int],
                    f as nat,
                )
        },
{
    if 0 <= e < m.edges@.len() {
        assert(m.edges@[e] == m.edges@[e]);
    }
    if 0 <= f < m.faces@.len() {
        assert(m.faces@[f] == m.faces@[f]);
    }
}

} // verus!
