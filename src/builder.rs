//! Assembly of a mesh from triangles: edges are matched by the identity of
//! their end vertices in the source file, so that faces which split a
//! vertex (for its texture coordinates) still share the edge between them.
use vstd::prelude::*;

use crate::index::{EdgeIndex, FaceIndex, MaterialIndex, VertexIndex};
use crate::model::{Edge, Face, Model, edge_has_face, face_has_edge};

verus! {

/// Identity of a vertex in the source file (object, vertex).
pub type OrigVertex = (u32, u32);

/// Whether the recorded ends `p` of an edge are `a` and `b`, in either order.
pub open spec fn pair_matches(p: (OrigVertex, OrigVertex), a: OrigVertex, b: OrigVertex) -> bool {
    p == (a, b) || p == (b, a)
}

/// `i` is the first position of `s` whose ends are `a` and `b`.
pub open spec fn is_first_match(
    s: Seq<(OrigVertex, OrigVertex)>,
    a: OrigVertex,
    b: OrigVertex,
    i: int,
) -> bool {
    &&& 0 <= i < s.len()
    &&& pair_matches(s[i], a, b)
    &&& forall|j: int| 0 <= j < i ==> !pair_matches(#[trigger] s[j], a, b)
}

/// Two sides of one triangle would reuse the same existing edge.
pub open spec fn degenerate(c: Seq<Option<int>>) -> bool {
    ||| (c[0] is Some && c[0] == c[1])
    ||| (c[0] is Some && c[0] == c[2])
    ||| (c[1] is Some && c[1] == c[2])
}

/// How many of the sides before side `k` create a new edge.
pub open spec fn news_before(c: Seq<Option<int>>, k: int) -> int
    decreases k,
{
    if k <= 0 {
        0
    } else {
        news_before(c, k - 1) + if c[k - 1] is None {
            1int
        } else {
            0
        }
    }
}

/// The edge that side `k` of an accepted triangle ends up with, when the
/// mesh had `base` edges before.
pub open spec fn side_edge(c: Seq<Option<int>>, base: int, k: int) -> int {
    match c[k] {
        Some(i) => i,
        None => base + news_before(c, k),
    }
}

/// A mesh under construction, with the source ends of each edge and the
/// source polygon of each face.
pub struct MeshBuilder {
    pub model: Model,
    pub idx_edges: Vec<(OrigVertex, OrigVertex)>,
    pub facemap: Vec<u32>,
}

impl MeshBuilder {
    pub open spec fn wf(&self) -> bool {
        &&& self.model.wf()
        &&& self.idx_edges@.len() == self.model.edges@.len()
        &&& self.facemap@.len() == self.model.faces@.len()
    }

    /// The existing edge that a side from `a` to `b` joins: the first edge
    /// with those ends, unless that one already has two faces.
    pub open spec fn candidate(&self, a: OrigVertex, b: OrigVertex) -> Option<int> {
        if exists|i: int| is_first_match(self.idx_edges@, a, b, i) {
            let i = choose|i: int| is_first_match(self.idx_edges@, a, b, i);
            if self.model.edges@[i].f1 is None {
                Some(i)
            } else {
                None
            }
        } else {
            None
        }
    }

    /// The candidates of the three sides of a triangle.
    pub open spec fn candidates(&self, orig: [OrigVertex; 3]) -> Seq<Option<int>> {
        seq![
            self.candidate(orig[0], orig[1]),
            self.candidate(orig[1], orig[2]),
            self.candidate(orig[2], orig[0]),
        ]
    }

    pub fn new(num_vertices: usize) -> (r: MeshBuilder)
        ensures
            r.wf(),
            r.model.faces@.len() == 0,
            r.model.edges@.len() == 0,
            r.model.num_vertices == num_vertices,
    {
        MeshBuilder {
            model: Model { faces: Vec::new(), edges: Vec::new(), num_vertices },
            idx_edges: Vec::new(),
            facemap: Vec::new(),
        }
    }

    fn find_candidate(&self, a: OrigVertex, b: OrigVertex) -> (r: Option<usize>)
        requires
            self.wf(),
        ensures
            match r {
                Some(i) => self.candidate(a, b) == Some(i as int),
                None => self.candidate(a, b) is None,
            },
    {
        let mut i: usize = 0;
        while i < self.idx_edges.len()
            invariant
                self.wf(),
                i <= self.idx_edges@.len(),
                forall|j: int| 0 <= j < i ==> !pair_matches(#[trigger] self.idx_edges@[j], a, b),
            decreases self.idx_edges@.len() - i,
        {
            let (p0, p1) = self.idx_edges[i];
            if (p0.0 == a.0 && p0.1 == a.1 && p1.0 == b.0 && p1.1 == b.1) || (p0.0 == b.0 && p0.1
                == b.1 && p1.0 == a.0 && p1.1 == a.1) {
                assert(is_first_match(self.idx_edges@, a, b, i as int));
                proof {
                    let c = choose|c: int| is_first_match(self.idx_edges@, a, b, c);
                    assert(c == i as int) by {
                        if c < i {
                        } else if c > i {
                            assert(!pair_matches(self.idx_edges@[i as int], a, b));
                        }
                    }
                }
                if self.model.edges[i].f1.is_none() {
                    return Some(i);
                } else {
                    return None;
                }
            }
            i += 1;
        }
        None
    }

    /// Adds one triangle with mesh vertices `verts`, source vertices `orig`,
    /// `material`, coming from source polygon `source`. A triangle that would
    /// use one edge on two of its sides is dropped, and `false` returned.
    pub fn add_triangle(
        &mut self,
        verts: [VertexIndex; 3],
        orig: [OrigVertex; 3],
        material: MaterialIndex,
        source: u32,
    ) -> (accepted: bool)
        requires
            old(self).wf(),
            old(self).model.faces@.len() < u32::MAX,
            old(self).model.edges@.len() + 3 <= u32::MAX,
            forall|k: int| 0 <= k < 3 ==> (#[trigger] verts@[k]).id() < old(self).model.num_vertices,
        ensures
            final(self).wf(),
            accepted == !degenerate(old(self).candidates(orig)),
            !accepted ==> final(self).model.faces@ == old(self).model.faces@
                && final(self).model.edges@ == old(self).model.edges@
                && final(self).idx_edges@ == old(self).idx_edges@
                && final(self).facemap@ == old(self).facemap@,
            final(self).model.num_vertices == old(self).model.num_vertices,
            accepted ==> {
                let c = old(self).candidates(orig);
                let base = old(self).model.edges@.len() as int;
                let nf = old(self).model.faces@.len() as int;
                let ne = news_before(c, 3);
                &&& final(self).model.faces@.len() == nf + 1
                &&& final(self).model.faces@.drop_last() == old(self).model.faces@
                &&& final(self).model.faces@[nf].material == material
                &&& final(self).model.faces@[nf].vertices == verts
                &&& forall|k: int|
                    0 <= k < 3 ==> (#[trigger] final(self).model.faces@[nf].edges@[k]).id()
                        == side_edge(c, base, k)
                &&& final(self).facemap@ == old(self).facemap@.push(source)
                &&& final(self).model.edges@.len() == base + ne
                &&& final(self).idx_edges@.len() == base + ne
                &&& forall|i: int|
                    0 <= i < base ==> #[trigger] final(self).idx_edges@[i]
                        == old(self).idx_edges@[i]
                &&& forall|i: int|
                    0 <= i < base ==> #[trigger] final(self).model.edges@[i] == if c.contains(
                        Some(i),
                    ) {
                        Edge { f0: old(self).model.edges@[i].f0, f1: Some(FaceIndex(nf as u32)) }
                    } else {
                        old(self).model.edges@[i]
                    }
                &&& forall|k: int|
                    0 <= k < 3 && c[k] is None ==> {
                        &&& final(self).model.edges@[side_edge(c, base, k)] == (Edge {
                            f0: FaceIndex(nf as u32),
                            f1: None,
                        })
                        &&& final(self).idx_edges@[side_edge(c, base, k)] == (
                            orig[k],
                            orig[(k + 1) % 3],
                        )
                    }
            },
    {
        let c0 = self.find_candidate(orig[0], orig[1]);
        let c1 = self.find_candidate(orig[1], orig[2]);
        let c2 = self.find_candidate(orig[2], orig[0]);
        let ghost c = old(self).candidates(orig);
        let dup = match (c0, c1, c2) {
            (Some(a), Some(b), _) if a == b => true,
            (Some(a), _, Some(b)) if a == b => true,
            (_, Some(a), Some(b)) if a == b => true,
            _ => false,
        };
        if dup {
            return false;
        }
        let i_face = FaceIndex(self.model.faces.len() as u32);
        let ghost s0 = self.model.edges@;
        let ghost x0 = self.idx_edges@;
        proof {
            assert(c[0] == match c0 { Some(i) => Some(i as int), None => None::<int> });
            assert(c[1] == match c1 { Some(i) => Some(i as int), None => None::<int> });
            assert(c[2] == match c2 { Some(i) => Some(i as int), None => None::<int> });
            self.lemma_candidate_bounds(orig[0], orig[1]);
            self.lemma_candidate_bounds(orig[1], orig[2]);
            self.lemma_candidate_bounds(orig[2], orig[0]);
        }
        let e0 = self.commit_side(c0, orig[0], orig[1], i_face);
        let ghost s1 = self.model.edges@;
        let ghost x1 = self.idx_edges@;
        let e1 = self.commit_side(c1, orig[1], orig[2], i_face);
        let ghost s2 = self.model.edges@;
        let ghost x2 = self.idx_edges@;
        let e2 = self.commit_side(c2, orig[2], orig[0], i_face);
        proof {
            lemma_three_commits(
                s0,
                s1,
                s2,
                self.model.edges@,
                x0,
                x1,
                x2,
                self.idx_edges@,
                c,
                orig,
                i_face,
                seq![e0, e1, e2],
            );
        }
        let ghost old_model = self.model;
        self.model.faces.push(Face { material, vertices: verts, edges: [e0, e1, e2] });
        self.facemap.push(source);
        proof {
            assert(self.model.faces@.drop_last() == old(self).model.faces@);
            lemma_wf_after_add(old(self).model, self.model, c);
        }
        true
    }

    proof fn lemma_candidate_bounds(&self, a: OrigVertex, b: OrigVertex)
        requires
            self.wf(),
        ensures
            self.candidate(a, b) is Some ==> {
                &&& 0 <= self.candidate(a, b)->0 < self.model.edges@.len()
                &&& self.model.edges@[self.candidate(a, b)->0].f1 is None
            },
    {
        if exists|i: int| is_first_match(self.idx_edges@, a, b, i) {
            let i = choose|i: int| is_first_match(self.idx_edges@, a, b, i);
            assert(is_first_match(self.idx_edges@, a, b, i));
        }
    }

    /// Gives side from `a` to `b` of face `i_face` its edge: the candidate
    /// `c`, which gets `i_face` as its second face, or a new edge.
    fn commit_side(
        &mut self,
        c: Option<usize>,
        a: OrigVertex,
        b: OrigVertex,
        i_face: FaceIndex,
    ) -> (r: EdgeIndex)
        requires
            old(self).idx_edges@.len() == old(self).model.edges@.len(),
            old(self).model.edges@.len() < u32::MAX,
            c is Some ==> c->0 < old(self).model.edges@.len(),
        ensures
            final(self).model.faces@ == old(self).model.faces@,
            final(self).model.num_vertices == old(self).model.num_vertices,
            final(self).facemap@ == old(self).facemap@,
            final(self).idx_edges@.len() == final(self).model.edges@.len(),
            match c {
                Some(i) => {
                    &&& r.id() == i
                    &&& final(self).idx_edges@ == old(self).idx_edges@
                    &&& final(self).model.edges@ == old(self).model.edges@.update(
                        i as int,
                        Edge { f0: old(self).model.edges@[i as int].f0, f1: Some(i_face) },
                    )
                },
                None => {
                    &&& r.id() == old(self).model.edges@.len()
                    &&& final(self).idx_edges@ == old(self).idx_edges@.push((a, b))
                    &&& final(self).model.edges@ == old(self).model.edges@.push(
                        Edge { f0: i_face, f1: None },
                    )
                },
            },
    {
        match c {
            Some(i) => {
                let f0 = self.model.edges[i].f0;
                self.model.edges.set(i, Edge { f0, f1: Some(i_face) });
                EdgeIndex(i as u32)
            },
            None => {
                let e = self.model.edges.len();
                self.model.edges.push(Edge { f0: i_face, f1: None });
                self.idx_edges.push((a, b));
                EdgeIndex(e as u32)
            },
        }
    }
}

/// The edges and source ends after the three sides of an accepted triangle
/// are committed one after another.
proof fn lemma_three_commits(
    s0: Seq<Edge>,
    s1: Seq<Edge>,
    s2: Seq<Edge>,
    s3: Seq<Edge>,
    x0: Seq<(OrigVertex, OrigVertex)>,
    x1: Seq<(OrigVertex, OrigVertex)>,
    x2: Seq<(OrigVertex, OrigVertex)>,
    x3: Seq<(OrigVertex, OrigVertex)>,
    c: Seq<Option<int>>,
    orig: [OrigVertex; 3],
    i_face: FaceIndex,
    es: Seq<EdgeIndex>,
)
    requires
        c.len() == 3,
        es.len() == 3,
        !degenerate(c),
        x0.len() == s0.len(),
        forall|k: int| 0 <= k < 3 && c[k] is Some ==> 0 <= #[trigger] c[k]->0 < s0.len() && s0[c[k]->0].f1 is None,
        commit_step(s0, s1, x0, x1, c[0], orig[0], orig[1], i_face, es[0]),
        commit_step(s1, s2, x1, x2, c[1], orig[1], orig[2], i_face, es[1]),
        commit_step(s2, s3, x2, x3, c[2], orig[2], orig[0], i_face, es[2]),
    ensures
        s3.len() == s0.len() + news_before(c, 3),
        x3.len() == x0.len() + news_before(c, 3),
        forall|k: int| 0 <= k < 3 ==> (#[trigger] es[k]).id() == side_edge(c, s0.len() as int, k),
        forall|i: int| 0 <= i < s0.len() ==> #[trigger] x3[i] == x0[i],
        forall|i: int|
            0 <= i < s0.len() ==> #[trigger] s3[i] == if c.contains(Some(i)) {
                Edge { f0: s0[i].f0, f1: Some(i_face) }
            } else {
                s0[i]
            },
        forall|k: int|
            0 <= k < 3 && c[k] is None ==> {
                &&& s3[#[trigger] side_edge(c, s0.len() as int, k)] == (Edge { f0: i_face, f1: None })
                &&& x3[side_edge(c, s0.len() as int, k)] == (orig[k], orig[(k + 1) % 3])
            },
{
    reveal_with_fuel(news_before, 4);
    let base = s0.len() as int;
    assert forall|k: int| 0 <= k < 3 && c[k] is None implies {
        &&& s3[#[trigger] side_edge(c, base, k)] == (Edge { f0: i_face, f1: None })
        &&& x3[side_edge(c, base, k)] == (orig[k], orig[(k + 1) % 3])
    } by {
        if k == 0 {
            assert(s1[side_edge(c, base, 0)] == (Edge { f0: i_face, f1: None }));
            assert(x1[side_edge(c, base, 0)] == (orig[0], orig[1]));
        } else if k == 1 {
            assert(s2[side_edge(c, base, 1)] == (Edge { f0: i_face, f1: None }));
            assert(x2[side_edge(c, base, 1)] == (orig[1], orig[2]));
        }
    }
    assert forall|i: int| 0 <= i < base implies #[trigger] s3[i] == if c.contains(Some(i)) {
        Edge { f0: s0[i].f0, f1: Some(i_face) }
    } else {
        s0[i]
    } by {
        if c.contains(Some(i)) {
            let k = choose|k: int| 0 <= k < c.len() && c[k] == Some(i);
            assert(c[k] == Some(i));
        } else {
            assert(c[0] != Some(i) && c[1] != Some(i) && c[2] != Some(i)) by {
                if c[0] == Some(i) { assert(c.contains(Some(i))) by { assert(c[0] == Some(i)); } }
                if c[1] == Some(i) { assert(c.contains(Some(i))) by { assert(c[1] == Some(i)); } }
                if c[2] == Some(i) { assert(c.contains(Some(i))) by { assert(c[2] == Some(i)); } }
            }
        }
    }
}

/// One side committed: the candidate edge gets its second face, or a new
/// edge is pushed with its source ends.
pub open spec fn commit_step(
    s: Seq<Edge>,
    t: Seq<Edge>,
    x: Seq<(OrigVertex, OrigVertex)>,
    y: Seq<(OrigVertex, OrigVertex)>,
    c: Option<int>,
    a: OrigVertex,
    b: OrigVertex,
    i_face: FaceIndex,
    e: EdgeIndex,
) -> bool {
    match c {
        Some(i) => {
            &&& e.id() == i
            &&& y == x
            &&& t == s.update(i, Edge { f0: s[i].f0, f1: Some(i_face) })
        },
        None => {
            &&& e.id() == s.len()
            &&& y == x.push((a, b))
            &&& t == s.push(Edge { f0: i_face, f1: None })
        },
    }
}

/// The model stays well formed when an accepted triangle is added.
proof fn lemma_wf_after_add(m0: Model, m: Model, c: Seq<Option<int>>)
    requires
        m0.wf(),
        c.len() == 3,
        !degenerate(c),
        forall|k: int| 0 <= k < 3 && c[k] is Some ==> 0 <= #[trigger] c[k]->0 < m0.edges@.len() && m0.edges@[c[k]->0].f1 is None,
        m.num_vertices == m0.num_vertices,
        m.faces@.len() == m0.faces@.len() + 1,
        m.faces@.len() <= u32::MAX,
        m.edges@.len() <= u32::MAX,
        m.faces@.drop_last() == m0.faces@,
        m.edges@.len() == m0.edges@.len() + news_before(c, 3),
        forall|k: int| 0 <= k < 3 ==> (#[trigger] m.faces@[m0.faces@.len() as int].vertices@[k]).id() < m.num_vertices,
        forall|k: int|
            0 <= k < 3 ==> (#[trigger] m.faces@[m0.faces@.len() as int].edges@[k]).id() == side_edge(
                c,
                m0.edges@.len() as int,
                k,
            ),
        forall|i: int|
            0 <= i < m0.edges@.len() ==> #[trigger] m.edges@[i] == if c.contains(Some(i)) {
                Edge { f0: m0.edges@[i].f0, f1: Some(FaceIndex(m0.faces@.len() as u32)) }
            } else {
                m0.edges@[i]
            },
        forall|k: int|
            0 <= k < 3 && c[k] is None ==> m.edges@[#[trigger] side_edge(c, m0.edges@.len() as int, k)] == (Edge {
                f0: FaceIndex(m0.faces@.len() as u32),
                f1: None,
            }),
    ensures
        m.wf(),
{
    reveal_with_fuel(news_before, 4);
    let nf = m0.faces@.len() as int;
    let base = m0.edges@.len() as int;
    let nfc = m.faces@[nf];
    assert(nfc.edges@[0].id() == side_edge(c, base, 0));
    assert(nfc.edges@[1].id() == side_edge(c, base, 1));
    assert(nfc.edges@[2].id() == side_edge(c, base, 2));
    assert forall|f: int, k: int| 0 <= f < m.faces@.len() && 0 <= k < 3 implies {
        &&& (#[trigger] m.faces@[f].edges@[k]).id() < m.edges@.len()
        &&& m.faces@[f].vertices@[k].id() < m.num_vertices
        &&& edge_has_face(m.edges@[m.faces@[f].edges@[k].id() as int], f as nat)
    } by {
        if f < nf {
            assert(m.faces@[f] == m0.faces@[f]);
            let e = m.faces@[f].edges@[k].id() as int;
            assert(edge_has_face(m0.edges@[e], f as nat));
        } else {
            let e = side_edge(c, base, k);
            if c[k] is Some {
                assert(c.contains(Some(e))) by { assert(c[k] == Some(e)); }
            }
        }
    }
    assert forall|e: int| 0 <= e < m.edges@.len() implies {
        &&& (#[trigger] m.edges@[e]).f0.id() < m.faces@.len()
        &&& face_has_edge(m.faces@[m.edges@[e].f0.id() as int], e as nat)
        &&& m.edges@[e].f1 is Some ==> {
            &&& m.edges@[e].f1->0.id() < m.faces@.len()
            &&& m.edges@[e].f1->0 != m.edges@[e].f0
            &&& face_has_edge(m.faces@[m.edges@[e].f1->0.id() as int], e as nat)
        }
    } by {
        if e < base {
            let oe = m0.edges@[e];
            assert(face_has_edge(m0.faces@[oe.f0.id() as int], e as nat));
            assert(m.faces@[oe.f0.id() as int] == m0.faces@[oe.f0.id() as int]);
            if c.contains(Some(e)) {
                let k = choose|k: int| 0 <= k < c.len() && c[k] == Some(e);
                assert(nfc.edges@[k].id() == e);
            } else {
                if oe.f1 is Some {
                    assert(m.faces@[oe.f1->0.id() as int] == m0.faces@[oe.f1->0.id() as int]);
                }
            }
        } else {
            let k = if c[0] is None && e == side_edge(c, base, 0) {
                0int
            } else if c[1] is None && e == side_edge(c, base, 1) {
                1int
            } else {
                2int
            };
            assert(nfc.edges@[k].id() == e);
        }
    }
    assert forall|f: int| 0 <= f < m.faces@.len() implies {
        &&& (#[trigger] m.faces@[f]).edges@[0] != m.faces@[f].edges@[1]
        &&& m.faces@[f].edges@[0] != m.faces@[f].edges@[2]
        &&& m.faces@[f].edges@[1] != m.faces@[f].edges@[2]
    } by {
        if f < nf {
            assert(m.faces@[f] == m0.faces@[f]);
        }
    }
}

} // verus!
