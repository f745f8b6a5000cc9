//! Depth-first walks over the faces of a mesh, crossing the edges whose
//! status a policy allows.
use vstd::prelude::*;

use crate::index::{EdgeIndex, FaceIndex};
use crate::model::{Model, edge_has_face};
use crate::status::EdgeStatus;
use vstd::set_lib::{lemma_int_range, lemma_len_subset, set_int_range};

verus! {

/// Which edges a walk may cross.
#[derive(Debug, Clone, Copy, PartialEq, Eq, Structural)]
pub enum Policy {
    /// Every edge but a cut: the faces of one island.
    Island,
    /// Hidden edges only: the faces of one flat polygon.
    Flat,
}

pub open spec fn crosses(pol: Policy, s: EdgeStatus) -> bool {
    match pol {
        Policy::Island => !(s is Cut),
        Policy::Flat => s is Hidden,
    }
}

fn crosses_exec(pol: Policy, s: EdgeStatus) -> (r: bool)
    ensures
        r == crosses(pol, s),
{
    match pol {
        Policy::Island => match s {
            EdgeStatus::Cut(_) => false,
            _ => true,
        },
        Policy::Flat => match s {
            EdgeStatus::Hidden => true,
            _ => false,
        },
    }
}

/// A walk may go from face `f` to face `g` over side `k` of `f`.
pub open spec fn step_by(m: Model, st: Seq<EdgeStatus>, pol: Policy, f: int, g: int, k: int) -> bool {
    let e = m.faces@[f].edges@[k].id() as int;
    &&& 0 <= k < 3
    &&& crosses(pol, st[e])
    &&& edge_has_face(m.edges@[e], g as nat)
}

/// A walk may go from face `f` to face `g` in one step.
pub open spec fn step(m: Model, st: Seq<EdgeStatus>, pol: Policy, f: int, g: int) -> bool {
    &&& 0 <= f < m.faces@.len()
    &&& 0 <= g < m.faces@.len()
    &&& exists|k: int| #[trigger] step_by(m, st, pol, f, g, k)
}

/// `p` is a walk: each face steps to the next.
pub open spec fn is_path(m: Model, st: Seq<EdgeStatus>, pol: Policy, p: Seq<int>) -> bool {
    &&& p.len() >= 1
    &&& 0 <= p[0] < m.faces@.len()
    &&& forall|i: int| 0 <= i < p.len() - 1 ==> #[trigger] step(m, st, pol, p[i], p[i + 1])
}

/// Face `b` can be reached from face `a`.
pub open spec fn reachable(m: Model, st: Seq<EdgeStatus>, pol: Policy, a: int, b: int) -> bool {
    exists|p: Seq<int>| #[trigger] is_path(m, st, pol, p) && p[0] == a && p.last() == b
}

/// Whether face `g` is listed in `s`.
pub open spec fn listed(s: Seq<FaceIndex>, g: int) -> bool {
    exists|i: int| 0 <= i < s.len() && #[trigger] s[i].id() == g
}

/// The faces of a visit, without their parents.
pub open spec fn visit_faces(s: Seq<Visit>) -> Seq<FaceIndex> {
    s.map_values(|v: Visit| v.face)
}

/// A face reached by a walk, with the face and edge it was reached from
/// (none for the first).
#[derive(Debug, Clone, Copy)]
pub struct Visit {
    pub face: FaceIndex,
    pub parent: Option<(FaceIndex, EdgeIndex)>,
}

/// The face a visit was reached from.
pub open spec fn parent_face(v: Visit) -> FaceIndex {
    match v.parent {
        Some((p, _)) => p,
        None => v.face,
    }
}

/// The edge a visit was reached over.
pub open spec fn parent_edge(v: Visit) -> EdgeIndex {
    match v.parent {
        Some((_, e)) => e,
        None => EdgeIndex(0),
    }
}

/// The parent of a visit is an earlier visit, and the edge between them is
/// one that the walk crosses.
pub open spec fn parent_ok(m: Model, st: Seq<EdgeStatus>, pol: Policy, s: Seq<Visit>, i: int) -> bool {
    if s[i].parent is None {
        i == 0
    } else {
        let p = parent_face(s[i]);
        let e = parent_edge(s[i]);
        &&& exists|j: int| 0 <= j < i && #[trigger] s[j].face == p
        &&& exists|k: int| 0 <= k < 3 && #[trigger] m.faces@[p.id() as int].edges@[k] == e
        &&& e.id() < m.edges@.len()
        &&& crosses(pol, st[e.id() as int])
        &&& edge_has_face(m.edges@[e.id() as int], s[i].face.id())
    }
}

pub proof fn lemma_path_extend(m: Model, st: Seq<EdgeStatus>, pol: Policy, a: int, f: int, g: int)
    requires
        reachable(m, st, pol, a, f),
        step(m, st, pol, f, g),
    ensures
        reachable(m, st, pol, a, g),
{
    let p = choose|p: Seq<int>| #[trigger] is_path(m, st, pol, p) && p[0] == a && p.last() == f;
    let q = p.push(g);
    assert forall|i: int| 0 <= i < q.len() - 1 implies #[trigger] step(m, st, pol, q[i], q[i + 1]) by {
        if i < p.len() - 1 {
            assert(q[i] == p[i] && q[i + 1] == p[i + 1]);
        }
    }
    assert(is_path(m, st, pol, q));
}

/// A set of faces that holds `a` and is closed under steps holds every face
/// reachable from `a`.
pub proof fn lemma_closed_holds_reachable(
    m: Model,
    st: Seq<EdgeStatus>,
    pol: Policy,
    a: int,
    s: Set<int>,
    g: int,
)
    requires
        s.contains(a),
        forall|f: int, h: int| s.contains(f) && #[trigger] step(m, st, pol, f, h) ==> s.contains(h),
        reachable(m, st, pol, a, g),
    ensures
        s.contains(g),
{
    let p = choose|p: Seq<int>| #[trigger] is_path(m, st, pol, p) && p[0] == a && p.last() == g;
    lemma_closed_holds_path(m, st, pol, s, p, p.len() - 1);
}

proof fn lemma_closed_holds_path(m: Model, st: Seq<EdgeStatus>, pol: Policy, s: Set<int>, p: Seq<int>, i: int)
    requires
        is_path(m, st, pol, p),
        s.contains(p[0]),
        forall|f: int, h: int| s.contains(f) && #[trigger] step(m, st, pol, f, h) ==> s.contains(h),
        0 <= i < p.len(),
    ensures
        s.contains(p[i]),
    decreases i,
{
    if i > 0 {
        lemma_closed_holds_path(m, st, pol, s, p, i - 1);
        let j = i - 1;
        assert(step(m, st, pol, p[j], p[j + 1]));
    }
}

/// The faces that a walk lists are, as a set, the faces reachable from its
/// start; being distinct, there are as many of them as the set holds.
pub proof fn lemma_walk_set(m: Model, st: Seq<EdgeStatus>, pol: Policy, a: int, r: Seq<Visit>)
    requires
        visit_faces(r).no_duplicates(),
        forall|i: int| 0 <= i < r.len() ==> reachable(m, st, pol, a, #[trigger] r[i].face.id() as int),
        forall|g: int| reachable(m, st, pol, a, g) ==> listed(visit_faces(r), g),
    ensures
        visit_faces(r).map_values(|f: FaceIndex| f.id() as int).to_set() == Set::new(|g: int| reachable(m, st, pol, a, g)),
        r.len() == Set::new(|g: int| reachable(m, st, pol, a, g)).len(),
        Set::new(|g: int| reachable(m, st, pol, a, g)).finite(),
{
    let s = visit_faces(r);
    let t = s.map_values(|f: FaceIndex| f.id() as int);
    let z = Set::new(|g: int| reachable(m, st, pol, a, g));
    assert forall|g: int| t.to_set().contains(g) <==> z.contains(g) by {
        if t.to_set().contains(g) {
            let i = choose|i: int| 0 <= i < t.len() && t[i] == g;
            assert(s[i] == r[i].face);
        }
        if z.contains(g) {
            assert(listed(s, g));
            let i = choose|i: int| 0 <= i < s.len() && #[trigger] s[i].id() == g;
            assert(t[i] == g);
        }
    }
    assert(t.to_set() == z);
    assert forall|i: int, j: int| 0 <= i < j < t.len() implies t[i] != t[j] by {
        assert(s[i] != s[j]);
    }
    t.unique_seq_to_set();
}

/// A reachable face is a face of the mesh.
pub proof fn lemma_reachable_in_range(m: Model, st: Seq<EdgeStatus>, pol: Policy, a: int, g: int)
    requires
        reachable(m, st, pol, a, g),
    ensures
        0 <= a < m.faces@.len(),
        0 <= g < m.faces@.len(),
{
    let p = choose|p: Seq<int>| #[trigger] is_path(m, st, pol, p) && p[0] == a && p.last() == g;
    if p.len() > 1 {
        let j = p.len() - 2;
        assert(step(m, st, pol, p[j], p[j + 1]));
    }
}

/// Distinct faces below `n` are at most `n`.
pub proof fn lemma_distinct_faces_bound(s: Seq<FaceIndex>, n: int)
    requires
        s.no_duplicates(),
        0 <= n,
        forall|i: int| 0 <= i < s.len() ==> (#[trigger] s[i]).id() < n,
    ensures
        s.len() <= n,
{
    let t = s.map_values(|f: FaceIndex| f.id() as int);
    assert forall|i: int, j: int| 0 <= i < j < t.len() implies t[i] != t[j] by {
        assert(s[i] != s[j]);
    }
    assert(t.no_duplicates());
    t.unique_seq_to_set();
    lemma_int_range(0, n);
    assert forall|x: int| t.to_set().contains(x) implies set_int_range(0, n).contains(x) by {
        let i = choose|i: int| 0 <= i < t.len() && t[i] == x;
        assert(s[i].id() < n);
    }
    lemma_len_subset(t.to_set(), set_int_range(0, n));
}

/// What holds of a walk between steps: every visited face is reachable and
/// listed once, either done (`out`) or waiting (`stack`), and the parent of
/// each listed face is done.
pub open spec fn walk_inv(
    m: Model,
    st: Seq<EdgeStatus>,
    pol: Policy,
    a: int,
    vis: Seq<bool>,
    out: Seq<Visit>,
    stack: Seq<Visit>,
) -> bool {
    let nf = m.faces@.len() as int;
    &&& vis.len() == nf
    &&& 0 <= a < nf
    &&& vis[a]
    &&& forall|g: int| 0 <= g < nf && #[trigger] vis[g] ==> reachable(m, st, pol, a, g)
    &&& forall|i: int| 0 <= i < out.len() ==> (#[trigger] out[i]).face.id() < nf && vis[out[i].face.id() as int]
    &&& forall|i: int| 0 <= i < stack.len() ==> (#[trigger] stack[i]).face.id() < nf && vis[stack[i].face.id() as int]
    &&& forall|g: int| 0 <= g < nf && #[trigger] vis[g] ==> listed(visit_faces(out), g) || listed(visit_faces(stack), g)
    &&& visit_faces(out).no_duplicates()
    &&& visit_faces(stack).no_duplicates()
    &&& forall|i: int, j: int| 0 <= i < out.len() && 0 <= j < stack.len() ==> #[trigger] out[i].face != #[trigger] stack[j].face
    &&& forall|i: int| 0 <= i < out.len() ==> #[trigger] parent_ok(m, st, pol, out, i)
    &&& forall|i: int| 0 <= i < stack.len() && out.len() > 0 ==> (#[trigger] stack[i]).parent is Some
    &&& forall|i: int| 0 <= i < stack.len() && out.len() > 0 ==> parent_ok(m, st, pol, out.push(#[trigger] stack[i]), out.len() as int)
}

/// Moving the top of the stack to the done list keeps the walk invariant.
proof fn lemma_pop_keeps(
    m: Model,
    st: Seq<EdgeStatus>,
    pol: Policy,
    a: int,
    vis: Seq<bool>,
    out: Seq<Visit>,
    stack: Seq<Visit>,
)
    requires
        walk_inv(m, st, pol, a, vis, out, stack),
        stack.len() > 0,
        out.len() == 0 ==> stack.len() == 1 && stack[0].face.id() == a && stack[0].parent is None,
    ensures
        walk_inv(m, st, pol, a, vis, out.push(stack.last()), stack.drop_last()),
{
    let v = stack.last();
    let o2 = out.push(v);
    let s2 = stack.drop_last();
    assert(visit_faces(o2) == visit_faces(out).push(v.face));
    assert(visit_faces(s2) == visit_faces(stack).drop_last());
    assert forall|g: int| 0 <= g < vis.len() && #[trigger] vis[g] implies listed(visit_faces(o2), g) || listed(visit_faces(s2), g) by {
        if listed(visit_faces(out), g) {
            let i = choose|i: int| 0 <= i < visit_faces(out).len() && #[trigger] visit_faces(out)[i].id() == g;
            assert(visit_faces(o2)[i] == visit_faces(out)[i]);
        } else {
            let i = choose|i: int| 0 <= i < visit_faces(stack).len() && #[trigger] visit_faces(stack)[i].id() == g;
            if i == stack.len() - 1 {
                assert(visit_faces(o2)[out.len() as int] == v.face);
            } else {
                assert(visit_faces(s2)[i] == visit_faces(stack)[i]);
            }
        }
    }
    assert forall|i: int, j: int| 0 <= i < o2.len() && 0 <= j < s2.len() implies #[trigger] o2[i].face != #[trigger] s2[j].face by {
        if i == out.len() {
            assert(visit_faces(stack)[j] == s2[j].face);
            assert(visit_faces(stack)[stack.len() - 1] == v.face);
        }
    }
    assert(visit_faces(o2).no_duplicates()) by {
        assert forall|i: int, j: int| 0 <= i < j < o2.len() implies visit_faces(o2)[i] != visit_faces(o2)[j] by {
            if j == out.len() {
                assert(out[i].face != stack[stack.len() - 1].face);
            } else {
                assert(visit_faces(out)[i] != visit_faces(out)[j]);
            }
        }
    }
    assert forall|i: int| 0 <= i < o2.len() implies #[trigger] parent_ok(m, st, pol, o2, i) by {
        if i < out.len() {
            assert(parent_ok(m, st, pol, out, i));
            assert(o2[i] == out[i]);
            if o2[i].parent is Some {
                let p = parent_face(o2[i]);
                let j = choose|j: int| 0 <= j < i && #[trigger] out[j].face == p;
                assert(o2[j].face == p);
            }
        } else if out.len() == 0 {
        } else {
            assert(parent_ok(m, st, pol, out.push(stack[stack.len() - 1]), out.len() as int));
        }
    }
    assert forall|i: int| 0 <= i < s2.len() && o2.len() > 0 implies parent_ok(m, st, pol, o2.push(#[trigger] s2[i]), o2.len() as int) by {
        assert(s2[i] == stack[i]);
        if out.len() == 0 {
            assert(false);
        }
        assert(parent_ok(m, st, pol, out.push(stack[i]), out.len() as int));
        if s2[i].parent is Some {
            let p = parent_face(s2[i]);
            let j = choose|j: int| 0 <= j < out.len() && #[trigger] out.push(stack[i])[j].face == p;
            assert(o2.push(s2[i])[j].face == p);
        }
    }
    assert forall|i: int| 0 <= i < s2.len() && o2.len() > 0 implies (#[trigger] s2[i]).parent is Some by {
        assert(s2[i] == stack[i]);
    }
}

/// Marks face `g`, reached from done face `f` over its side `k` (edge `e`),
/// and puts it on the stack if it was not marked before.
fn visit(
    m: &Model,
    st: &Vec<EdgeStatus>,
    pol: Policy,
    g: FaceIndex,
    f: FaceIndex,
    e: EdgeIndex,
    visited: &mut Vec<bool>,
    stack: &mut Vec<Visit>,
    Ghost(out): Ghost<Seq<Visit>>,
    Ghost(a): Ghost<int>,
    Ghost(k): Ghost<int>,
)
    requires
        m.wf(),
        st@.len() == m.edges@.len(),
        walk_inv(*m, st@, pol, a, old(visited)@, out, old(stack)@),
        out.len() > 0,
        listed(visit_faces(out), f.id() as int),
        f.id() < m.faces@.len(),
        g.id() < m.faces@.len(),
        0 <= k < 3,
        m.faces@[f.id() as int].edges@[k] == e,
        step_by(*m, st@, pol, f.id() as int, g.id() as int, k),
    ensures
        walk_inv(*m, st@, pol, a, final(visited)@, out, final(stack)@),
        final(visited)@[g.id() as int],
        forall|x: int| 0 <= x < old(visited)@.len() && old(visited)@[x] ==> #[trigger] final(visited)@[x],
{
    let gi = g.0 as usize;
    if visited[gi] {
        return;
    }
    proof {
        let i = choose|i: int| 0 <= i < visit_faces(out).len() && #[trigger] visit_faces(out)[i].id() == f.id();
        assert(old(visited)@[f.id() as int]);
        assert(step(*m, st@, pol, f.id() as int, g.id() as int));
        lemma_path_extend(*m, st@, pol, a, f.id() as int, g.id() as int);
    }
    let ghost vis0 = visited@;
    let ghost stack0 = stack@;
    visited.set(gi, true);
    let nv = Visit { face: g, parent: Some((f, e)) };
    stack.push(nv);
    proof {
        let vis = visited@;
        let s2 = stack@;
        assert(visit_faces(s2) == visit_faces(stack0).push(g));
        assert forall|x: int| 0 <= x < vis.len() && #[trigger] vis[x] implies listed(visit_faces(out), x) || listed(visit_faces(s2), x) by {
            if x == g.id() {
                assert(visit_faces(s2)[stack0.len() as int] == g);
            } else {
                assert(vis0[x]);
                if !listed(visit_faces(out), x) {
                    let i = choose|i: int| 0 <= i < visit_faces(stack0).len() && #[trigger] visit_faces(stack0)[i].id() == x;
                    assert(visit_faces(s2)[i] == visit_faces(stack0)[i]);
                }
            }
        }
        assert forall|i: int, j: int| 0 <= i < out.len() && 0 <= j < s2.len() implies #[trigger] out[i].face != #[trigger] s2[j].face by {
            if j == stack0.len() {
                assert(vis0[out[i].face.id() as int]);
            } else {
                assert(s2[j] == stack0[j]);
            }
        }
        assert(visit_faces(s2).no_duplicates()) by {
            assert forall|i: int, j: int| 0 <= i < j < s2.len() implies visit_faces(s2)[i] != visit_faces(s2)[j] by {
                if j == stack0.len() {
                    assert(vis0[stack0[i].face.id() as int]);
                    assert(visit_faces(s2)[i] == stack0[i].face);
                } else {
                    assert(visit_faces(stack0)[i] != visit_faces(stack0)[j]);
                }
            }
        }
        assert forall|i: int| 0 <= i < s2.len() && out.len() > 0 implies parent_ok(*m, st@, pol, out.push(#[trigger] s2[i]), out.len() as int) by {
            if i == stack0.len() {
                let j = choose|j: int| 0 <= j < visit_faces(out).len() && #[trigger] visit_faces(out)[j].id() == f.id();
                assert(visit_faces(out)[j] == out[j].face);
                assert(out[j].face.0 == f.0);
                assert(out.push(nv)[j].face == f);
                assert(m.faces@[f.id() as int].edges@[k] == e);
                let sq = out.push(nv);
                assert(s2[i] == nv);
                let ii = out.len() as int;
                assert(parent_face(sq[ii]) == f);
                assert(parent_edge(sq[ii]) == e);
                assert(exists|jj: int| 0 <= jj < ii && #[trigger] sq[jj].face == parent_face(sq[ii]));
                assert(exists|kk: int| 0 <= kk < 3 && #[trigger] m.faces@[parent_face(sq[ii]).id() as int].edges@[kk] == parent_edge(sq[ii]));
                assert(parent_edge(sq[ii]).id() < m.edges@.len());
                assert(crosses(pol, st@[parent_edge(sq[ii]).id() as int]));
                assert(edge_has_face(m.edges@[parent_edge(sq[ii]).id() as int], sq[ii].face.id()));
                assert(parent_ok(*m, st@, pol, sq, out.len() as int));
            } else {
                assert(s2[i] == stack0[i]);
                assert(parent_ok(*m, st@, pol, out.push(stack0[i]), out.len() as int));
            }
        }
        assert forall|i: int| 0 <= i < s2.len() && out.len() > 0 implies (#[trigger] s2[i]).parent is Some by {
            if i < stack0.len() {
                assert(s2[i] == stack0[i]);
            }
        }
        assert forall|i: int| 0 <= i < s2.len() implies (#[trigger] s2[i]).face.id() < vis.len() && vis[s2[i].face.id() as int] by {
            if i < stack0.len() {
                assert(s2[i] == stack0[i]);
            }
        }
    }
}

/// Marks and stacks every face that done face `f` steps to.
fn expand(
    m: &Model,
    st: &Vec<EdgeStatus>,
    pol: Policy,
    f: FaceIndex,
    visited: &mut Vec<bool>,
    stack: &mut Vec<Visit>,
    Ghost(out): Ghost<Seq<Visit>>,
    Ghost(a): Ghost<int>,
)
    requires
        m.wf(),
        st@.len() == m.edges@.len(),
        walk_inv(*m, st@, pol, a, old(visited)@, out, old(stack)@),
        out.len() > 0,
        listed(visit_faces(out), f.id() as int),
        f.id() < m.faces@.len(),
    ensures
        walk_inv(*m, st@, pol, a, final(visited)@, out, final(stack)@),
        forall|x: int| 0 <= x < old(visited)@.len() && old(visited)@[x] ==> #[trigger] final(visited)@[x],
        forall|g: int| #[trigger] step(*m, st@, pol, f.id() as int, g) ==> final(visited)@[g],
{
    let ghost vis0 = visited@;
    let face = m.faces[f.0 as usize];
    let mut k: usize = 0;
    while k < 3
        invariant
            m.wf(),
            st@.len() == m.edges@.len(),
            k <= 3,
            face == m.faces@[f.id() as int],
            f.id() < m.faces@.len(),
            out.len() > 0,
            walk_inv(*m, st@, pol, a, visited@, out, stack@),
            visited@.len() == m.faces@.len(),
            vis0.len() == m.faces@.len(),
            listed(visit_faces(out), f.id() as int),
            forall|x: int| 0 <= x < vis0.len() && vis0[x] ==> #[trigger] visited@[x],
            forall|kk: int, g: int| 0 <= kk < k && #[trigger] step_by(*m, st@, pol, f.id() as int, g, kk) && 0 <= g < m.faces@.len() ==> visited@[g],
        decreases 3 - k,
    {
        let e = face.edges[k];
        if crosses_exec(pol, st[e.0 as usize]) {
            let edge = m.edges[e.0 as usize];
            proof {
                assert(step_by(*m, st@, pol, f.id() as int, edge.f0.id() as int, k as int));
            }
            let ghost v1 = visited@;
            visit(m, st, pol, edge.f0, f, e, visited, stack, Ghost(out), Ghost(a), Ghost(k as int));
            proof {
                assert forall|x: int| 0 <= x < vis0.len() && vis0[x] implies #[trigger] visited@[x] by {
                    assert(v1[x]);
                }
            }
            if let Some(fb) = edge.f1 {
                proof {
                    assert(step_by(*m, st@, pol, f.id() as int, fb.id() as int, k as int));
                }
                let ghost v2 = visited@;
                visit(m, st, pol, fb, f, e, visited, stack, Ghost(out), Ghost(a), Ghost(k as int));
                proof {
                    assert forall|x: int| 0 <= x < vis0.len() && vis0[x] implies #[trigger] visited@[x] by {
                        assert(v2[x]);
                    }
                    assert(visited@[edge.f0.id() as int]) by {
                        assert(v2[edge.f0.id() as int]);
                    }
                }
            }
        }
        k += 1;
    }
    proof {
        assert forall|g: int| #[trigger] step(*m, st@, pol, f.id() as int, g) implies visited@[g] by {
            let kk = choose|kk: int| #[trigger] step_by(*m, st@, pol, f.id() as int, g, kk);
            assert(step_by(*m, st@, pol, f.id() as int, g, kk));
        }
    }
}

/// Walks from `root` over the edges that `pol` crosses. The result lists
/// each reachable face once, each after its parent.
pub fn traverse(m: &Model, st: &Vec<EdgeStatus>, root: FaceIndex, pol: Policy) -> (r: Vec<Visit>)
    requires
        m.wf(),
        st@.len() == m.edges@.len(),
        root.id() < m.faces@.len(),
    ensures
        r@.len() >= 1,
        r@[0].face == root,
        visit_faces(r@).no_duplicates(),
        forall|i: int| 0 <= i < r@.len() ==> reachable(*m, st@, pol, root.id() as int, #[trigger] r@[i].face.id() as int),
        forall|g: int| reachable(*m, st@, pol, root.id() as int, g) ==> listed(visit_faces(r@), g),
        forall|i: int| 0 <= i < r@.len() ==> #[trigger] parent_ok(*m, st@, pol, r@, i),
{
    let nf = m.faces.len();
    let mut visited: Vec<bool> = Vec::new();
    let mut i: usize = 0;
    while i < nf
        invariant
            i <= nf,
            nf == m.faces@.len(),
            visited@.len() == i,
            forall|j: int| 0 <= j < i ==> !(#[trigger] visited@[j]),
        decreases nf - i,
    {
        visited.push(false);
        i += 1;
    }
    let ghost a = root.id() as int;
    let mut out: Vec<Visit> = Vec::new();
    let mut stack: Vec<Visit> = Vec::new();
    stack.push(Visit { face: root, parent: None });
    visited.set(root.0 as usize, true);
    proof {
        let p = seq![a];
        assert(is_path(*m, st@, pol, p));
        assert(visit_faces(stack@)[0] == root);
    }
    while stack.len() > 0
        invariant
            m.wf(),
            st@.len() == m.edges@.len(),
            nf == m.faces@.len(),
            a == root.id(),
            walk_inv(*m, st@, pol, a, visited@, out@, stack@),
            out@.len() == 0 ==> stack@.len() == 1 && stack@[0].face == root && stack@[0].parent is None,
            out@.len() > 0 ==> out@[0].face == root,
            forall|i: int, g: int| 0 <= i < out@.len() && #[trigger] step(*m, st@, pol, out@[i].face.id() as int, g) ==> #[trigger] visited@[g],
        decreases nf - out@.len(),
    {
        let ghost stack0 = stack@;
        let ghost out0 = out@;
        proof {
            lemma_pop_keeps(*m, st@, pol, a, visited@, out0, stack0);
        }
        let v = stack.pop().unwrap();
        proof {
            assert(v == stack0.last());
            assert(stack@ == stack0.drop_last());
            let o2 = out0.push(v);
            assert forall|i: int| 0 <= i < visit_faces(o2).len() implies (#[trigger] visit_faces(o2)[i]).id() < nf by {
                assert(visit_faces(o2)[i] == o2[i].face);
            }
            lemma_distinct_faces_bound(visit_faces(o2), nf as int);
        }
        out.push(v);
        let f = v.face;
        proof {
            assert(out@[out0.len() as int] == v);
            assert(listed(visit_faces(out@), f.id() as int)) by {
                assert(visit_faces(out@)[out0.len() as int] == f);
            }
        }
        let ghost vis1 = visited@;
        expand(m, st, pol, f, &mut visited, &mut stack, Ghost(out@), Ghost(a));
        proof {
            assert forall|i: int, g: int| 0 <= i < out@.len() && #[trigger] step(*m, st@, pol, out@[i].face.id() as int, g) implies #[trigger] visited@[g] by {
                if i < out0.len() {
                    assert(out@[i] == out0[i]);
                    assert(vis1[g]);
                }
            }
        }
    }
    proof {
        let s = Set::new(|g: int| 0 <= g < nf && visited@[g]);
        assert forall|f: int, h: int| s.contains(f) && #[trigger] step(*m, st@, pol, f, h) implies s.contains(h) by {
            assert(listed(visit_faces(out@), f) || listed(visit_faces(stack@), f));
            let i = choose|i: int| 0 <= i < visit_faces(out@).len() && #[trigger] visit_faces(out@)[i].id() == f;
            assert(out@[i].face.id() == f);
        }
        assert forall|g: int| reachable(*m, st@, pol, a, g) implies listed(visit_faces(out@), g) by {
            lemma_closed_holds_reachable(*m, st@, pol, a, s, g);
        }
        assert forall|i: int| 0 <= i < out@.len() implies reachable(*m, st@, pol, a, #[trigger] out@[i].face.id() as int) by {
            assert(visited@[out@[i].face.id() as int]);
        }
    }
    out
}

} // verus!
