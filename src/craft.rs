//! The papercraft document: a mesh, the fold state of each of its edges and
//! the islands of faces that this state cuts the mesh into.
use vstd::prelude::*;

use crate::index::{EdgeIndex, FaceIndex};
use crate::islands::{
    Island, IslandKey, IslandMap, island_map, islands_get, islands_insert, islands_keys,
    islands_len, islands_new, islands_remove, islands_set, slot_count,
};
use crate::model::{Model, edge_has_face};
use crate::status::EdgeStatus;
use crate::traverse::{
    Policy, Visit, crosses, is_path, lemma_distinct_faces_bound, lemma_path_extend, lemma_walk_set, listed,
    lemma_reachable_in_range, reachable, step, step_by, traverse, visit_faces,
};

verus! {

/// What a join records so that it can be undone: the edge, the island that
/// stays, the island that went away, and the root and placement that the
/// faces of the latter had.
#[derive(Debug, Clone, Copy)]
pub struct JoinResult {
    pub i_edge: EdgeIndex,
    pub i_island: IslandKey,
    pub removed: IslandKey,
    pub prev_root: FaceIndex,
    pub prev_place: u32,
}

/// What a cut did: the island that was split, the new island (none when
/// the faces of the edge stay joined by other folds) and its root, the face
/// on the other side of the edge (which stays), and whether the old island
/// is the smaller one, to be moved away from the cut.
#[derive(Debug, Clone, Copy)]
pub struct CutResult {
    pub old_island: IslandKey,
    pub new_island: Option<IslandKey>,
    pub new_root: FaceIndex,
    pub old_face: FaceIndex,
    pub move_old: bool,
}

/// The faces that a walk from `root` over folds and hidden edges reaches.
pub open spec fn faces_from(m: Model, st: Seq<EdgeStatus>, root: FaceIndex) -> Set<int> {
    Set::new(|g: int| reachable(m, st, Policy::Island, root.id() as int, g))
}

/// Some island of `islands` holds face `g`.
pub open spec fn covered_by(
    m: Model,
    st: Seq<EdgeStatus>,
    islands: Map<IslandKey, Island>,
    g: int,
) -> bool {
    exists|k: IslandKey| #[trigger]
        islands.contains_key(k) && reachable(m, st, Policy::Island, islands[k].root.id() as int, g)
}

/// Face `g` is on island `isl`.
pub open spec fn on(m: Model, st: Seq<EdgeStatus>, isl: Island, g: int) -> bool {
    reachable(m, st, Policy::Island, isl.root.id() as int, g)
}

/// No face is on two islands of `islands`.
pub open spec fn disjoint_by(m: Model, st: Seq<EdgeStatus>, islands: Map<IslandKey, Island>) -> bool {
    forall|k1: IslandKey, k2: IslandKey, g: int|
        #![trigger on(m, st, islands[k1], g), on(m, st, islands[k2], g)]
        islands.contains_key(k1) && islands.contains_key(k2) && k1 != k2 && on(m, st, islands[k1], g)
            ==> !on(m, st, islands[k2], g)
}

/// The status of each edge of a new document: hidden between two faces of
/// one source polygon (`facemap` gives the polygon of each face), cut with
/// its tab on the first face's side otherwise.
pub open spec fn initial_status(m: Model, facemap: Seq<u32>, e: int) -> EdgeStatus {
    let edge = m.edges@[e];
    if edge.f1 is Some && facemap[edge.f0.id() as int] == facemap[edge.f1->0.id() as int] {
        EdgeStatus::Hidden
    } else {
        EdgeStatus::Cut(false)
    }
}

/// The initial status of every edge of `model`.
pub fn initial_edge_status(model: &Model, facemap: &Vec<u32>) -> (r: Vec<EdgeStatus>)
    requires
        model.wf(),
        facemap@.len() == model.faces@.len(),
    ensures
        r@.len() == model.edges@.len(),
        forall|e: int| 0 <= e < r@.len() ==> #[trigger] r@[e] == initial_status(*model, facemap@, e),
{
    let mut r: Vec<EdgeStatus> = Vec::new();
    let mut i: usize = 0;
    while i < model.edges.len()
        invariant
            model.wf(),
            facemap@.len() == model.faces@.len(),
            i <= model.edges@.len(),
            r@.len() == i,
            forall|e: int| 0 <= e < i ==> #[trigger] r@[e] == initial_status(*model, facemap@, e),
        decreases model.edges@.len() - i,
    {
        let edge = model.edges[i];
        let s = match edge.f1 {
            Some(fb) if facemap[edge.f0.0 as usize] == facemap[fb.0 as usize] => EdgeStatus::Hidden,
            _ => EdgeStatus::Cut(false),
        };
        r.push(s);
        i += 1;
    }
    r
}

/// The statuses after the tab of edge `e` is moved to its other side: only a
/// cut edge with two faces has another side.
pub open spec fn toggled(m: Model, st: Seq<EdgeStatus>, e: int) -> Seq<EdgeStatus> {
    match st[e] {
        EdgeStatus::Cut(x) if m.edges@[e].f1 is Some => st.update(e, EdgeStatus::Cut(!x)),
        _ => st,
    }
}

/// In a well-formed document every face is on exactly one island.
pub proof fn lemma_face_on_one_island(p: Papercraft, g: int)
    requires
        p.wf(),
        0 <= g < p.model.faces@.len(),
    ensures
        exists|k: IslandKey| #[trigger] p.view_islands().contains_key(k) && on(p.model, p.edges@, p.view_islands()[k], g),
        forall|k1: IslandKey, k2: IslandKey|
            p.view_islands().contains_key(k1) && p.view_islands().contains_key(k2) && #[trigger] on(
                p.model,
                p.edges@,
                p.view_islands()[k1],
                g,
            ) && #[trigger] on(p.model, p.edges@, p.view_islands()[k2], g) ==> k1 == k2,
{
    assert(p.covered(g));
}

/// Joining a cut edge whose tab is on the first side, then cutting it
/// again, as undoing the join does, gives back the statuses from before.
pub proof fn lemma_join_undo_statuses(st: Seq<EdgeStatus>, e: int)
    requires
        0 <= e < st.len(),
        st[e] == EdgeStatus::Cut(false),
    ensures
        st.update(e, EdgeStatus::Joined).update(e, EdgeStatus::Cut(false)) == st,
{
    assert(st.update(e, EdgeStatus::Joined).update(e, EdgeStatus::Cut(false)) =~= st);
}

/// Moving a tab twice puts it back: a tab toggle is undone by another.
pub proof fn lemma_toggle_tab_twice(m: Model, st: Seq<EdgeStatus>, e: int)
    requires
        0 <= e < st.len(),
    ensures
        toggled(m, toggled(m, st, e), e) == st,
{
    if st[e] is Cut && m.edges@[e].f1 is Some {
        assert(toggled(m, toggled(m, st, e), e) =~= st);
    }
}

pub struct Papercraft {
    pub model: Model,
    pub edges: Vec<EdgeStatus>,
    pub islands: IslandMap,
}

impl Papercraft {
    pub open spec fn view_islands(&self) -> Map<IslandKey, Island> {
        island_map(self.islands)
    }

    pub open spec fn wf(&self) -> bool {
        &&& self.model.wf()
        &&& self.edges@.len() == self.model.edges@.len()
        &&& self.view_islands().dom().finite()
        &&& forall|k: IslandKey| #[trigger]
            self.view_islands().contains_key(k) ==> self.view_islands()[k].root.id()
                < self.model.faces@.len()
        &&& forall|g: int| 0 <= g < self.model.faces@.len() ==> #[trigger] self.covered(g)
        &&& disjoint_by(self.model, self.edges@, self.view_islands())
    }

    /// The mesh and the statuses fit together (the walks need no more).
    pub open spec fn graph_ok(&self) -> bool {
        &&& self.model.wf()
        &&& self.edges@.len() == self.model.edges@.len()
    }

    /// Face `g` is on the island whose root is `root`.
    pub open spec fn in_island(&self, root: FaceIndex, g: int) -> bool {
        reachable(self.model, self.edges@, Policy::Island, root.id() as int, g)
    }

    /// The faces of the island whose root is `root`.
    pub open spec fn island_faces(&self, root: FaceIndex) -> Set<int> {
        faces_from(self.model, self.edges@, root)
    }

    /// The number of faces of the island whose root is `root`.
    pub open spec fn face_count(&self, root: FaceIndex) -> nat {
        self.island_faces(root).len()
    }

    /// Some island holds face `g`.
    pub open spec fn covered(&self, g: int) -> bool {
        covered_by(self.model, self.edges@, self.view_islands(), g)
    }

    /// Some island holds both faces `a` and `b`.
    pub open spec fn share_island(&self, a: int, b: int) -> bool {
        exists|k: IslandKey| #[trigger]
            self.view_islands().contains_key(k) && self.in_island(self.view_islands()[k].root, a)
                && self.in_island(self.view_islands()[k].root, b)
    }

    /// Edge `e` is a cut between two faces that no island holds together.
    pub open spec fn joinable(&self, e: int) -> bool {
        &&& self.edges@[e] is Cut
        &&& self.model.edges@[e].f1 is Some
        &&& !self.share_island(
            self.model.edges@[e].f0.id() as int,
            self.model.edges@[e].f1->0.id() as int,
        )
    }

    /// Whether island `a` gives way to island `b`: the island that holds the
    /// priority face stays; else the one with fewer faces gives way, and on
    /// equal counts the one with the larger root.
    pub open spec fn yields(&self, a: Island, b: Island, priority: Option<FaceIndex>) -> bool {
        if priority is Some && self.in_island(a.root, priority->0.id() as int) {
            false
        } else if priority is Some && self.in_island(b.root, priority->0.id() as int) {
            true
        } else {
            let wa = self.face_count(a.root);
            let wb = self.face_count(b.root);
            wb > wa || (wb == wa && a.root.id() > b.root.id())
        }
    }

    /// A document over `model` with edge statuses `edges`. Going through the
    /// faces in order, each face that no island holds yet becomes the root of
    /// a new island, which holds every face that folds and hidden edges join
    /// to it; the islands get placements 0, 1, 2, ... in that order.
    pub fn new(model: Model, edges: Vec<EdgeStatus>) -> (r: Papercraft)
        requires
            model.wf(),
            edges@.len() == model.edges@.len(),
            model.faces@.len() + 1 < u32::MAX,
        ensures
            r.wf(),
            r.model == model,
            r.edges@ == edges@,
            slot_count(r.islands) <= model.faces@.len() + 1,
            forall|g: int| 0 <= g < model.faces@.len() ==> #[trigger] r.covered(g),
            forall|k: IslandKey| #[trigger]
                r.view_islands().contains_key(k) ==> r.view_islands()[k].place < model.faces@.len(),
    {
        let nf = model.faces.len();
        let mut islands = islands_new();
        let mut done: Vec<bool> = Vec::new();
        let mut i: usize = 0;
        while i < nf
            invariant
                i <= nf,
                done@.len() == i,
                forall|j: int| 0 <= j < i ==> !(#[trigger] done@[j]),
            decreases nf - i,
        {
            done.push(false);
            i += 1;
        }
        let mut count: u32 = 0;
        let mut f: usize = 0;
        while f < nf
            invariant
                model.wf(),
                edges@.len() == model.edges@.len(),
                nf == model.faces@.len(),
                nf + 1 < u32::MAX,
                f <= nf,
                count <= f,
                done@.len() == nf,
                slot_count(islands) <= count + 1,
                island_map(islands).dom().finite(),
                forall|k: IslandKey| #[trigger]
                    island_map(islands).contains_key(k) ==> island_map(islands)[k].root.id() < nf
                        && island_map(islands)[k].place < count,
                forall|g: int| 0 <= g < f ==> #[trigger] done@[g],
                forall|g: int|
                    0 <= g < nf && #[trigger] done@[g] ==> covered_by(
                        model,
                        edges@,
                        island_map(islands),
                        g,
                    ),
                disjoint_by(model, edges@, island_map(islands)),
                forall|k: IslandKey, g: int|
                    island_map(islands).contains_key(k) && #[trigger] on(model, edges@, island_map(islands)[k], g)
                        && 0 <= g < nf ==> done@[g],
            decreases nf - f,
        {
            if !done[f] {
                let root = FaceIndex(f as u32);
                let ghost m0 = island_map(islands);
                let k = islands_insert(&mut islands, Island { root, place: count });
                proof {
                    let m1 = island_map(islands);
                    assert forall|k1: IslandKey, k2: IslandKey, g: int|
                        m1.contains_key(k1) && m1.contains_key(k2) && k1 != k2 && on(model, edges@, m1[k1], g)
                        implies !on(model, edges@, m1[k2], g) by {
                        if on(model, edges@, m1[k2], g) {
                            if k1 == k || k2 == k {
                                let ko = if k1 == k { k2 } else { k1 };
                                assert(m1[ko] == m0[ko]);
                                let ro = m0[ko].root.id() as int;
                                lemma_reachable_symmetric(model, edges@, Policy::Island, f as int, g);
                                lemma_reachable_transitive(model, edges@, Policy::Island, ro, g, f as int);
                                assert(on(model, edges@, m0[ko], f as int));
                            } else {
                                assert(on(model, edges@, m0[k1], g) && on(model, edges@, m0[k2], g));
                            }
                        }
                    }
                    assert forall|k2: IslandKey, g: int|
                        m1.contains_key(k2) && k2 != k && #[trigger] on(model, edges@, m1[k2], g) && 0 <= g < nf implies done@[g] by {
                        assert(m1[k2] == m0[k2]);
                        assert(on(model, edges@, m0[k2], g));
                    }
                    assert forall|g: int|
                        0 <= g < nf && #[trigger] done@[g] implies covered_by(
                        model,
                        edges@,
                        island_map(islands),
                        g,
                    ) by {
                        let kk = choose|kk: IslandKey| #[trigger]
                            m0.contains_key(kk) && reachable(
                                model,
                                edges@,
                                Policy::Island,
                                m0[kk].root.id() as int,
                                g,
                            );
                        assert(island_map(islands).contains_key(kk));
                        assert(island_map(islands)[kk] == m0[kk]);
                    }
                }
                let v = traverse(&model, &edges, root, Policy::Island);
                let mut j: usize = 0;
                while j < v.len()
                    invariant
                        model.wf(),
                        nf == model.faces@.len(),
                        done@.len() == nf,
                        j <= v@.len(),
                        f < nf,
                        forall|i: int|
                            0 <= i < j ==> (#[trigger] v@[i]).face.id() < nf && done@[v@[i].face.id() as int],
                        island_map(islands).contains_key(k),
                        island_map(islands)[k].root == root,
                        forall|g: int| 0 <= g < f ==> #[trigger] done@[g],
                        disjoint_by(model, edges@, island_map(islands)),
                        forall|k2: IslandKey, g: int|
                            island_map(islands).contains_key(k2) && k2 != k && #[trigger] on(model, edges@, island_map(islands)[k2], g)
                                && 0 <= g < nf ==> done@[g],
                        forall|g: int| reachable(model, edges@, Policy::Island, root.id() as int, g) ==> listed(visit_faces(v@), g),
                        forall|i: int|
                            0 <= i < v@.len() ==> reachable(
                                model,
                                edges@,
                                Policy::Island,
                                root.id() as int,
                                #[trigger] v@[i].face.id() as int,
                            ),
                        forall|g: int|
                            0 <= g < nf && #[trigger] done@[g] ==> covered_by(
                                model,
                                edges@,
                                island_map(islands),
                                g,
                            ),
                    decreases v@.len() - j,
                {
                    let g = v[j].face;
                    proof {
                        lemma_reachable_in_range(
                            model,
                            edges@,
                            Policy::Island,
                            root.id() as int,
                            g.id() as int,
                        );
                    }
                    done.set(g.0 as usize, true);
                    proof {
                        assert(island_map(islands).contains_key(k) && reachable(
                            model,
                            edges@,
                            Policy::Island,
                            island_map(islands)[k].root.id() as int,
                            g.id() as int,
                        ));
                    }
                    j += 1;
                }
                proof {
                    assert(v@[0].face == root);
                    assert(done@[v@[0].face.id() as int]);
                    assert forall|k2: IslandKey, g: int|
                        island_map(islands).contains_key(k2) && #[trigger] on(model, edges@, island_map(islands)[k2], g) && 0 <= g < nf implies done@[g] by {
                        if k2 == k {
                            assert(listed(visit_faces(v@), g));
                            let i = choose|i: int| 0 <= i < visit_faces(v@).len() && #[trigger] visit_faces(v@)[i].id() == g;
                            assert(visit_faces(v@)[i] == v@[i].face);
                        }
                    }
                }
                count += 1;
            }
            f += 1;
        }
        let r = Papercraft { model, edges, islands };
        proof {
            assert forall|g: int| 0 <= g < nf implies #[trigger] r.covered(g) by {
                assert(done@[g]);
            }
        }
        r
    }

    /// Replaces the island under `key`, if there is one. The new root must
    /// be a face of the island.
    pub fn set_island(&mut self, key: IslandKey, island: Island) -> (r: bool)
        requires
            old(self).wf(),
            island.root.id() < old(self).model.faces@.len(),
            old(self).view_islands().contains_key(key) ==> old(self).in_island(
                old(self).view_islands()[key].root,
                island.root.id() as int,
            ),
        ensures
            final(self).wf(),
            final(self).model == old(self).model,
            final(self).edges@ == old(self).edges@,
            slot_count(final(self).islands) == slot_count(old(self).islands),
            r == old(self).view_islands().contains_key(key),
            final(self).view_islands() == if r {
                old(self).view_islands().insert(key, island)
            } else {
                old(self).view_islands()
            },
    {
        let r = islands_set(&mut self.islands, key, island);
        proof {
            let m0 = old(self).view_islands();
            let m1 = self.view_islands();
            if r {
                assert(m1.dom() =~= m0.dom());
                lemma_disjoint_reroot(self.model, self.edges@, m0, key, island);
            }
            assert forall|g: int| 0 <= g < self.model.faces@.len() implies #[trigger] self.covered(g) by {
                assert(old(self).covered(g));
                let k = choose|k: IslandKey| #[trigger] m0.contains_key(k) && reachable(
                    self.model,
                    self.edges@,
                    Policy::Island,
                    m0[k].root.id() as int,
                    g,
                );
                if r && k == key {
                    lemma_reachable_symmetric(self.model, self.edges@, Policy::Island, m0[k].root.id() as int, island.root.id() as int);
                    lemma_reachable_transitive(self.model, self.edges@, Policy::Island, island.root.id() as int, m0[k].root.id() as int, g);
                    assert(m1.contains_key(key) && reachable(self.model, self.edges@, Policy::Island, m1[key].root.id() as int, g));
                } else {
                    assert(m1.contains_key(k) && m1[k] == m0[k]);
                    assert(m1.contains_key(k) && reachable(self.model, self.edges@, Policy::Island, m1[k].root.id() as int, g));
                }
            }
        }
        r
    }

    pub fn model(&self) -> (r: &Model)
        ensures
            *r == self.model,
    {
        &self.model
    }

    pub fn edge_status(&self, edge: EdgeIndex) -> (r: EdgeStatus)
        requires
            edge.id() < self.edges@.len(),
        ensures
            r == self.edges@[edge.id() as int],
    {
        self.edges[edge.0 as usize]
    }

    pub fn num_islands(&self) -> (r: usize)
        ensures
            r == self.view_islands().len(),
    {
        islands_len(&self.islands)
    }

    /// The keys of all islands, each once.
    pub fn island_keys(&self) -> (r: Vec<IslandKey>)
        ensures
            r@.no_duplicates(),
            forall|k: IslandKey| r@.contains(k) <==> self.view_islands().contains_key(k),
    {
        islands_keys(&self.islands)
    }

    /// The island under `key`; islands come and go, so it may be gone.
    pub fn island_by_key(&self, key: IslandKey) -> (r: Option<Island>)
        ensures
            r == if self.view_islands().contains_key(key) {
                Some(self.view_islands()[key])
            } else {
                None::<Island>
            },
    {
        islands_get(&self.islands, key)
    }

    /// The faces of an island, each once and each after the face it is
    /// reached from, starting at the root.
    pub fn traverse_faces(&self, island: &Island) -> (r: Vec<Visit>)
        requires
            self.graph_ok(),
            island.root.id() < self.model.faces@.len(),
        ensures
            r@.len() >= 1,
            r@[0].face == island.root,
            visit_faces(r@).no_duplicates(),
            visit_faces(r@).map_values(|f: FaceIndex| f.id() as int).to_set() == self.island_faces(
                island.root,
            ),
            forall|i: int|
                0 <= i < r@.len() ==> #[trigger] crate::traverse::parent_ok(
                    self.model,
                    self.edges@,
                    Policy::Island,
                    r@,
                    i,
                ),
    {
        let r = traverse(&self.model, &self.edges, island.root, Policy::Island);
        proof {
            lemma_walk_set(self.model, self.edges@, Policy::Island, island.root.id() as int, r@);
        }
        r
    }

    /// The faces of an island, each once.
    pub fn traverse_faces_no_matrix(&self, island: &Island) -> (r: Vec<FaceIndex>)
        requires
            self.graph_ok(),
            island.root.id() < self.model.faces@.len(),
        ensures
            r@.no_duplicates(),
            r@.map_values(|f: FaceIndex| f.id() as int).to_set() == self.island_faces(island.root),
    {
        let v = self.traverse_faces(island);
        let mut r: Vec<FaceIndex> = Vec::new();
        let mut i: usize = 0;
        while i < v.len()
            invariant
                i <= v@.len(),
                r@ == visit_faces(v@).take(i as int),
            decreases v@.len() - i,
        {
            r.push(v[i].face);
            i += 1;
            proof {
                assert(visit_faces(v@).take(i as int) == visit_faces(v@).take(i - 1).push(
                    v@[i - 1].face,
                ));
            }
        }
        proof {
            assert(visit_faces(v@).take(v@.len() as int) == visit_faces(v@));
        }
        r
    }

    /// Whether `face` is on `island`.
    pub fn contains_face(&self, island: &Island, face: FaceIndex) -> (r: bool)
        requires
            self.graph_ok(),
            island.root.id() < self.model.faces@.len(),
        ensures
            r == self.in_island(island.root, face.id() as int),
    {
        let v = traverse(&self.model, &self.edges, island.root, Policy::Island);
        let mut i: usize = 0;
        while i < v.len()
            invariant
                i <= v@.len(),
                forall|j: int| 0 <= j < i ==> (#[trigger] v@[j]).face != face,
                forall|j: int|
                    0 <= j < v@.len() ==> reachable(
                        self.model,
                        self.edges@,
                        Policy::Island,
                        island.root.id() as int,
                        #[trigger] v@[j].face.id() as int,
                    ),
            decreases v@.len() - i,
        {
            if v[i].face == face {
                proof {
                    assert(reachable(
                        self.model,
                        self.edges@,
                        Policy::Island,
                        island.root.id() as int,
                        v@[i as int].face.id() as int,
                    ));
                }
                return true;
            }
            i += 1;
        }
        proof {
            if self.in_island(island.root, face.id() as int) {
                assert(listed(visit_faces(v@), face.id() as int));
                let j = choose|j: int|
                    0 <= j < visit_faces(v@).len() && #[trigger] visit_faces(v@)[j].id()
                        == face.id();
                assert(visit_faces(v@)[j] == v@[j].face);
                assert(v@[j].face.0 == face.0);
            }
        }
        false
    }

    /// The number of faces of an island.
    pub fn island_face_count(&self, island: &Island) -> (r: u32)
        requires
            self.graph_ok(),
            island.root.id() < self.model.faces@.len(),
        ensures
            r == self.face_count(island.root),
    {
        let v = traverse(&self.model, &self.edges, island.root, Policy::Island);
        proof {
            lemma_walk_set(self.model, self.edges@, Policy::Island, island.root.id() as int, v@);
            assert forall|i: int| 0 <= i < visit_faces(v@).len() implies (#[trigger] visit_faces(
                v@,
            )[i]).id() < self.model.faces@.len() by {
                assert(visit_faces(v@)[i] == v@[i].face);
                assert(reachable(
                    self.model,
                    self.edges@,
                    Policy::Island,
                    island.root.id() as int,
                    v@[i].face.id() as int,
                ));
                let p = choose|p: Seq<int>|
                    #[trigger] crate::traverse::is_path(
                        self.model,
                        self.edges@,
                        Policy::Island,
                        p,
                    ) && p[0] == island.root.id() as int && p.last() == v@[i].face.id() as int;
                if p.len() > 1 {
                    let j = p.len() - 2;
                    assert(crate::traverse::step(
                        self.model,
                        self.edges@,
                        Policy::Island,
                        p[j],
                        p[j + 1],
                    ));
                }
            }
            lemma_distinct_faces_bound(visit_faces(v@), self.model.faces@.len() as int);

        }
        v.len() as u32
    }

    /// The faces of the flat polygon of `face`: those reached over hidden
    /// edges only.
    pub fn get_flat_faces(&self, face: FaceIndex) -> (r: Vec<FaceIndex>)
        requires
            self.graph_ok(),
            face.id() < self.model.faces@.len(),
        ensures
            r@.no_duplicates(),
            r@.map_values(|f: FaceIndex| f.id() as int).to_set() == Set::new(
                |g: int| reachable(self.model, self.edges@, Policy::Flat, face.id() as int, g),
            ),
    {
        let v = traverse(&self.model, &self.edges, face, Policy::Flat);
        proof {
            lemma_walk_set(self.model, self.edges@, Policy::Flat, face.id() as int, v@);
        }
        let mut r: Vec<FaceIndex> = Vec::new();
        let mut i: usize = 0;
        while i < v.len()
            invariant
                i <= v@.len(),
                r@ == visit_faces(v@).take(i as int),
            decreases v@.len() - i,
        {
            r.push(v[i].face);
            i += 1;
            proof {
                assert(visit_faces(v@).take(i as int) == visit_faces(v@).take(i - 1).push(
                    v@[i - 1].face,
                ));
            }
        }
        proof {
            assert(visit_faces(v@).take(v@.len() as int) == visit_faces(v@));
        }
        r
    }

    /// An island that holds `face`, if any.
    pub fn find_island_by_face(&self, face: FaceIndex) -> (r: Option<IslandKey>)
        requires
            self.wf(),
        ensures
            r is Some ==> self.view_islands().contains_key(r->0) && self.in_island(
                self.view_islands()[r->0].root,
                face.id() as int,
            ),
            r is None ==> !self.covered(face.id() as int),
    {
        let keys = islands_keys(&self.islands);
        let mut i: usize = 0;
        while i < keys.len()
            invariant
                self.wf(),
                i <= keys@.len(),
                forall|k: IslandKey| keys@.contains(k) <==> self.view_islands().contains_key(k),
                forall|j: int|
                    0 <= j < i ==> !self.in_island(
                        self.view_islands()[#[trigger] keys@[j]].root,
                        face.id() as int,
                    ),
            decreases keys@.len() - i,
        {
            let k = keys[i];
            proof {
                assert(keys@.contains(k));
            }
            let island = islands_get(&self.islands, k).unwrap();
            if self.contains_face(&island, face) {
                return Some(k);
            }
            i += 1;
        }
        proof {
            assert forall|k: IslandKey| #[trigger]
                self.view_islands().contains_key(k) implies !self.in_island(
                self.view_islands()[k].root,
                face.id() as int,
            ) by {
                assert(keys@.contains(k));
                let j = choose|j: int| 0 <= j < keys@.len() && keys@[j] == k;
            }
        }
        None
    }

    /// An island that holds `face`.
    pub fn island_by_face(&self, face: FaceIndex) -> (r: IslandKey)
        requires
            self.wf(),
            face.id() < self.model.faces@.len(),
        ensures
            self.view_islands().contains_key(r),
            self.in_island(self.view_islands()[r].root, face.id() as int),
    {
        self.find_island_by_face(face).unwrap()
    }

    /// The island whose root is `face`, if any.
    pub fn island_by_root(&self, face: FaceIndex) -> (r: Option<IslandKey>)
        requires
            self.wf(),
        ensures
            r is Some ==> self.view_islands().contains_key(r->0) && self.view_islands()[r->0].root
                == face,
            r is None ==> forall|k: IslandKey| #[trigger]
                self.view_islands().contains_key(k) ==> self.view_islands()[k].root != face,
    {
        let keys = islands_keys(&self.islands);
        let mut i: usize = 0;
        while i < keys.len()
            invariant
                i <= keys@.len(),
                forall|k: IslandKey| keys@.contains(k) <==> self.view_islands().contains_key(k),
                forall|j: int|
                    0 <= j < i ==> self.view_islands()[#[trigger] keys@[j]].root != face,
            decreases keys@.len() - i,
        {
            let k = keys[i];
            proof {
                assert(keys@.contains(k));
            }
            let island = islands_get(&self.islands, k).unwrap();
            if island.root == face {
                return Some(k);
            }
            i += 1;
        }
        proof {
            assert forall|k: IslandKey| #[trigger]
                self.view_islands().contains_key(k) implies self.view_islands()[k].root
                != face by {
                assert(keys@.contains(k));
                let j = choose|j: int| 0 <= j < keys@.len() && keys@[j] == k;
            }
        }
        None
    }

    /// Whether island `a` gives way to island `b` (see `yields`).
    pub fn compare_islands(&self, a: &Island, b: &Island, priority: Option<FaceIndex>) -> (r:
        bool)
        requires
            self.graph_ok(),
            a.root.id() < self.model.faces@.len(),
            b.root.id() < self.model.faces@.len(),
        ensures
            r == self.yields(*a, *b, priority),
    {
        if let Some(f) = priority {
            if self.contains_face(a, f) {
                return false;
            }
            if self.contains_face(b, f) {
                return true;
            }
        }
        let weight_a = self.island_face_count(a);
        let weight_b = self.island_face_count(b);
        if weight_b > weight_a {
            return true;
        }
        if weight_b < weight_a {
            return false;
        }
        a.root.0 > b.root.0
    }

    /// Moves the tab of a cut edge to the other side. Rim edges and edges
    /// that are not cut are left as they are.
    pub fn edge_toggle_tab(&mut self, i_edge: EdgeIndex)
        requires
            old(self).wf(),
            i_edge.id() < old(self).model.edges@.len(),
        ensures
            final(self).wf(),
            final(self).model == old(self).model,
            final(self).islands == old(self).islands,
            final(self).edges@ == toggled(old(self).model, old(self).edges@, i_edge.id() as int),
    {
        let ie = i_edge.0 as usize;
        if self.model.edges[ie].f1.is_none() {
            return;
        }
        if let EdgeStatus::Cut(x) = self.edges[ie] {
            self.edges.set(ie, EdgeStatus::Cut(!x));
            proof {
                let m0 = old(self).view_islands();
                assert forall|g: int| 0 <= g < self.model.faces@.len() implies #[trigger] self.covered(g) by {
                    assert(old(self).covered(g));
                    let k = choose|k: IslandKey| #[trigger] m0.contains_key(k) && reachable(
                        self.model,
                        old(self).edges@,
                        Policy::Island,
                        m0[k].root.id() as int,
                        g,
                    );
                    lemma_reach_more(self.model, old(self).edges@, self.edges@, Policy::Island, m0[k].root.id() as int, g);
                }
                assert forall|x: int| 0 <= x < old(self).edges@.len() implies crosses(Policy::Island, #[trigger] old(self).edges@[x]) == crosses(Policy::Island, self.edges@[x]) by {
                }
                lemma_disjoint_same_crossings(self.model, old(self).edges@, self.edges@, m0);
            }
        }
    }

    /// Cuts a fold. The edge must be a joined edge between two faces;
    /// otherwise nothing changes. The edge becomes `Cut(false)` and, of its
    /// two faces, the one that a walk of the island from its root reaches
    /// last stays. If the other is now apart from the island, it becomes the
    /// root of a new island with placement `place`; if other folds still
    /// hold it to the island, no island is made, so that each face stays on
    /// exactly one island.
    pub fn edge_cut(&mut self, i_edge: EdgeIndex, place: u32) -> (r: Option<CutResult>)
        requires
            old(self).wf(),
            i_edge.id() < old(self).model.edges@.len(),
            slot_count(old(self).islands) < u32::MAX,
        ensures
            final(self).wf(),
            final(self).model == old(self).model,
            slot_count(final(self).islands) <= slot_count(old(self).islands) + 1,
            ({
                let e = old(self).model.edges@[i_edge.id() as int];
                r is Some <==> old(self).edges@[i_edge.id() as int] == EdgeStatus::Joined
                    && e.f1 is Some
            }),
            r is None ==> final(self).edges@ == old(self).edges@ && final(self).view_islands()
                == old(self).view_islands(),
            r is Some ==> {
                let c = r->0;
                let e = old(self).model.edges@[i_edge.id() as int];
                let old_island = old(self).view_islands()[c.old_island];
                let new_island = Island { root: c.new_root, place };
                &&& final(self).edges@ == old(self).edges@.update(
                    i_edge.id() as int,
                    EdgeStatus::Cut(false),
                )
                &&& old(self).view_islands().contains_key(c.old_island)
                &&& old(self).in_island(old_island.root, e.f0.id() as int)
                &&& (c.old_face == e.f0 && c.new_root == e.f1->0) || (c.old_face == e.f1->0
                    && c.new_root == e.f0)
                &&& final(self).in_island(old_island.root, c.old_face.id() as int)
                &&& (c.new_island is None <==> final(self).in_island(
                    old_island.root,
                    c.new_root.id() as int,
                ))
                &&& c.new_island is None ==> final(self).view_islands() == old(self).view_islands()
                    && !c.move_old
                &&& c.new_island is Some ==> {
                    &&& !old(self).view_islands().contains_key(c.new_island->0)
                    &&& final(self).view_islands() == old(self).view_islands().insert(
                        c.new_island->0,
                        new_island,
                    )
                    &&& c.move_old == final(self).yields(old_island, new_island, None)
                }
            },
    {
        let ie = i_edge.0 as usize;
        match self.edges[ie] {
            EdgeStatus::Joined => {},
            _ => {
                return None;
            },
        }
        let edge = self.model.edges[ie];
        let fa = edge.f0;
        let fb = match edge.f1 {
            Some(fb) => fb,
            None => {
                return None;
            },
        };
        let ki = match self.find_island_by_face(fa) {
            Some(k) => k,
            None => {
                return None;
            },
        };
        let island = islands_get(&self.islands, ki).unwrap();
        let ghost pre = self.edges@;
        self.edges.set(ie, EdgeStatus::Cut(false));
        proof {
            lemma_cut_keeps_one_side(self.model, pre, ie as int, island.root.id() as int);
        }
        let v = traverse(&self.model, &self.edges, island.root, Policy::Island);
        let mut found: Option<(FaceIndex, FaceIndex)> = None;
        let mut i: usize = 0;
        while i < v.len()
            invariant
                i <= v@.len(),
                found is Some ==> {
                    let (nr, of) = found->0;
                    &&& (of == fa && nr == fb) || (of == fb && nr == fa)
                    &&& exists|j: int| 0 <= j < i && #[trigger] v@[j].face == of
                },
                found is None ==> forall|j: int| 0 <= j < i ==> #[trigger] v@[j].face != fa && v@[j].face != fb,
            decreases v@.len() - i,
        {
            if v[i].face == fa {
                found = Some((fb, fa));
            } else if v[i].face == fb {
                found = Some((fa, fb));
            }
            i += 1;
        }
        proof {
            if found is None {
                if reachable(self.model, self.edges@, Policy::Island, island.root.id() as int, fa.id() as int) {
                    assert(listed(visit_faces(v@), fa.id() as int));
                    let j = choose|j: int| 0 <= j < visit_faces(v@).len() && #[trigger] visit_faces(v@)[j].id() == fa.id();
                    assert(visit_faces(v@)[j] == v@[j].face);
                    assert(v@[j].face.0 == fa.0);
                } else {
                    assert(listed(visit_faces(v@), fb.id() as int));
                    let j = choose|j: int| 0 <= j < visit_faces(v@).len() && #[trigger] visit_faces(v@)[j].id() == fb.id();
                    assert(visit_faces(v@)[j] == v@[j].face);
                    assert(v@[j].face.0 == fb.0);
                }
                assert(false);
            }
        }
        let (new_root, old_face) = found.unwrap();
        proof {
            let j = choose|j: int| 0 <= j < i && #[trigger] v@[j].face == old_face;
            assert(reachable(self.model, self.edges@, Policy::Island, island.root.id() as int, v@[j].face.id() as int));
        }
        let new_island = Island { root: new_root, place };
        let ghost m0 = self.view_islands();
        proof {
            assert(m0 == old(self).view_islands());
            assert(pre == old(self).edges@);
            assert(m0.contains_key(ki) && m0[ki] == island);
            assert forall|g: int| 0 <= g < self.model.faces@.len() implies #[trigger] covered_by(self.model, pre, m0, g) by {
                assert(old(self).covered(g));
            }
            assert(disjoint_by(self.model, pre, m0));
        }
        if self.contains_face(&island, new_root) {
            proof {
                lemma_cut_covers(self.model, pre, ie as int, m0, ki, ki, old_face, new_root, place, false);
                lemma_cut_disjoint(self.model, pre, ie as int, m0, ki, ki, new_root, place, false);
                assert forall|g: int| 0 <= g < self.model.faces@.len() implies #[trigger] self.covered(g) by {
                    assert(covered_by(self.model, self.edges@, cut_map(m0, ki, new_island, false), g));
                }
                assert(self.view_islands() == cut_map(m0, ki, new_island, false));
            }
            return Some(CutResult { old_island: ki, new_island: None, new_root, old_face, move_old: false });
        }
        let move_old = self.compare_islands(&island, &new_island, None);
        let nk = islands_insert(&mut self.islands, new_island);
        proof {
            lemma_cut_covers(self.model, pre, ie as int, m0, ki, nk, old_face, new_root, place, true);
            lemma_cut_disjoint(self.model, pre, ie as int, m0, ki, nk, new_root, place, true);
            assert(self.view_islands() == cut_map(m0, nk, new_island, true));
            assert forall|g: int| 0 <= g < self.model.faces@.len() implies #[trigger] self.covered(g) by {
                assert(covered_by(self.model, self.edges@, cut_map(m0, nk, new_island, true), g));
            }
            assert(move_old == self.yields(island, new_island, None));
        }
        Some(CutResult { old_island: ki, new_island: Some(nk), new_root, old_face, move_old })
    }

    /// Joins the two faces of a cut edge, and so their islands. Nothing
    /// changes unless the edge is cut, has two faces, and these are not on
    /// one island already. Of the two islands, the one that yields to
    /// the other (with the priority face) goes away; the surviving content
    /// is kept under the key of the island of the first face.
    pub fn edge_join(&mut self, i_edge: EdgeIndex, priority: Option<FaceIndex>) -> (r: Option<
        JoinResult,
    >)
        requires
            old(self).wf(),
            i_edge.id() < old(self).model.edges@.len(),
        ensures
            final(self).wf(),
            final(self).model == old(self).model,
            slot_count(final(self).islands) == slot_count(old(self).islands),
            r is None ==> final(self).edges@ == old(self).edges@ && final(self).view_islands()
                == old(self).view_islands(),
            ({
                let e = old(self).model.edges@[i_edge.id() as int];
                r is Some <==> old(self).edges@[i_edge.id() as int] is Cut && e.f1 is Some
                    && !old(self).share_island(e.f0.id() as int, e.f1->0.id() as int)
            }),
            r is Some ==> {
                let j = r->0;
                let e = old(self).model.edges@[i_edge.id() as int];
                let a = old(self).view_islands()[j.i_island];
                let b = old(self).view_islands()[j.removed];
                let swap = old(self).yields(a, b, priority);
                let prev = if swap {
                    a
                } else {
                    b
                };
                &&& old(self).edges@[i_edge.id() as int] is Cut
                &&& e.f1 is Some
                &&& j.i_edge == i_edge
                &&& old(self).view_islands().contains_key(j.i_island)
                &&& old(self).view_islands().contains_key(j.removed)
                &&& j.i_island != j.removed
                &&& old(self).in_island(a.root, e.f0.id() as int)
                &&& old(self).in_island(b.root, e.f1->0.id() as int)
                &&& !old(self).in_island(b.root, e.f0.id() as int)
                &&& final(self).edges@ == old(self).edges@.update(
                    i_edge.id() as int,
                    EdgeStatus::Joined,
                )
                &&& final(self).view_islands() == if swap {
                    old(self).view_islands().remove(j.removed).insert(j.i_island, b)
                } else {
                    old(self).view_islands().remove(j.removed)
                }
                &&& j.prev_root == prev.root
                &&& j.prev_place == prev.place
            },
    {
        let ie = i_edge.0 as usize;
        match self.edges[ie] {
            EdgeStatus::Cut(_) => {},
            _ => {
                return None;
            },
        }
        let edge = self.model.edges[ie];
        let fa = edge.f0;
        let fb = match edge.f1 {
            Some(fb) => fb,
            None => {
                return None;
            },
        };
        let kb = match self.find_island_by_face(fb) {
            Some(k) => k,
            None => {
                return None;
            },
        };
        let island_b = islands_get(&self.islands, kb).unwrap();
        if self.contains_face(&island_b, fa) {
            proof {
                assert(self.view_islands().contains_key(kb) && self.in_island(self.view_islands()[kb].root, fa.id() as int)
                    && self.in_island(self.view_islands()[kb].root, fb.id() as int));
            }
            return None;
        }
        proof {
            assert(!self.share_island(fa.id() as int, fb.id() as int)) by {
                if self.share_island(fa.id() as int, fb.id() as int) {
                    let k = choose|k: IslandKey| #[trigger]
                        self.view_islands().contains_key(k) && self.in_island(self.view_islands()[k].root, fa.id() as int)
                            && self.in_island(self.view_islands()[k].root, fb.id() as int);
                    let m0 = self.view_islands();
                    if k != kb {
                        assert(on(self.model, self.edges@, m0[k], fb.id() as int) && on(self.model, self.edges@, m0[kb], fb.id() as int));
                    }
                }
            }
        }
        let ka = match self.find_island_by_face(fa) {
            Some(k) => k,
            None => {
                return None;
            },
        };
        let island_a = islands_get(&self.islands, ka).unwrap();
        let swap = self.compare_islands(&island_a, &island_b, priority);
        let ghost m0 = self.view_islands();
        islands_remove(&mut self.islands, kb);
        let prev = if swap {
            islands_set(&mut self.islands, ka, island_b);
            island_a
        } else {
            island_b
        };
        let ghost st0 = self.edges@;
        self.edges.set(ie, EdgeStatus::Joined);
        proof {
            assert(forall|g: int| 0 <= g < self.model.faces@.len() ==> #[trigger] old(self).covered(g));
            assert(m0 == old(self).view_islands());
            assert(st0 == old(self).edges@);
            assert(m0[ka] == island_a && m0[kb] == island_b);
            assert(ka != kb);
            assert forall|g: int| 0 <= g < self.model.faces@.len() implies #[trigger] covered_by(self.model, st0, m0, g) by {
                assert(old(self).covered(g));
            }
            lemma_join_covers(self.model, st0, ie as int, m0, ka, kb, swap);
            lemma_join_disjoint(self.model, st0, ie as int, m0, ka, kb, swap);
            assert(self.edges@ == st0.update(ie as int, EdgeStatus::Joined));
            assert(self.view_islands() == joined_map(m0, ka, kb, swap));
            assert forall|g: int| 0 <= g < self.model.faces@.len() implies #[trigger] self.covered(g) by {
                assert(covered_by(self.model, self.edges@, self.view_islands(), g));
            }
        }
        Some(JoinResult {
            i_edge,
            i_island: ka,
            removed: kb,
            prev_root: prev.root,
            prev_place: prev.place,
        })
    }

    /// The non-hidden edges of the faces of the flat polygon of `face`.
    fn flat_edges(&self, face: FaceIndex) -> (r: Vec<EdgeIndex>)
        requires
            self.wf(),
            face.id() < self.model.faces@.len(),
        ensures
            forall|i: int| 0 <= i < r@.len() ==> (#[trigger] r@[i]).id() < self.model.edges@.len()
                && !(self.edges@[r@[i].id() as int] is Hidden),
    {
        let faces = self.get_flat_faces(face);
        proof {
            assert forall|j: int| 0 <= j < faces@.len() implies (#[trigger] faces@[j]).id() < self.model.faces@.len() by {
                let t = faces@.map_values(|f: FaceIndex| f.id() as int);
                assert(t.to_set().contains(t[j]));
                lemma_reachable_in_range(self.model, self.edges@, Policy::Flat, face.id() as int, t[j]);
            }
        }
        let mut r: Vec<EdgeIndex> = Vec::new();
        let mut i: usize = 0;
        while i < faces.len()
            invariant
                self.wf(),
                i <= faces@.len(),
                forall|j: int| 0 <= j < faces@.len() ==> (#[trigger] faces@[j]).id() < self.model.faces@.len(),
                forall|j: int| 0 <= j < r@.len() ==> (#[trigger] r@[j]).id() < self.model.edges@.len()
                    && !(self.edges@[r@[j].id() as int] is Hidden),
            decreases faces@.len() - i,
        {
            let f = &self.model.faces[faces[i].0 as usize];
            let mut k: usize = 0;
            while k < 3
                invariant
                    self.wf(),
                    k <= 3,
                    *f == self.model.faces@[faces@[i as int].id() as int],
                    faces@[i as int].id() < self.model.faces@.len(),
                    forall|j: int| 0 <= j < r@.len() ==> (#[trigger] r@[j]).id() < self.model.edges@.len()
                        && !(self.edges@[r@[j].id() as int] is Hidden),
                decreases 3 - k,
            {
                let e = f.edges[k];
                if !matches!(self.edges[e.0 as usize], EdgeStatus::Hidden) {
                    r.push(e);
                }
                k += 1;
            }
            i += 1;
        }
        r
    }

    /// Whether edges `a` and `b` share a vertex, as their first faces see them.
    fn edges_touch(&self, a: EdgeIndex, b: EdgeIndex) -> (r: bool)
        requires
            self.wf(),
            a.id() < self.model.edges@.len(),
            b.id() < self.model.edges@.len(),
        ensures
            r == ({
                let (a0, a1) = self.model.edge_vertices_spec(a);
                let (b0, b1) = self.model.edge_vertices_spec(b);
                b0 == a0 || b0 == a1 || b1 == a0 || b1 == a1
            }),
    {
        let (a0, a1) = self.model.edge_vertices(a);
        let (b0, b1) = self.model.edge_vertices(b);
        b0 == a0 || b0 == a1 || b1 == a0 || b1 == a1
    }

    /// Joins a strip of quads cut by mistake, starting at the cut edge
    /// `i_edge`: each edge joined between two islands of which one has two
    /// faces leads, for each side that was such a two-face island whose flat
    /// polygon has four visible edges, on to the edge of that polygon that
    /// shares no vertex with it. Returns what each join recorded, in order.
    pub fn try_join_strip(&mut self, i_edge: EdgeIndex) -> (r: Vec<JoinResult>)
        requires
            old(self).wf(),
            i_edge.id() < old(self).model.edges@.len(),
        ensures
            final(self).wf(),
            final(self).model == old(self).model,
            slot_count(final(self).islands) == slot_count(old(self).islands),
            r@.len() <= old(self).view_islands().len(),
            final(self).view_islands().len() + r@.len() == old(self).view_islands().len(),
            r@.len() > 0 ==> r@[0].i_edge == i_edge,
            r@.len() == 0 ==> final(self).edges@ == old(self).edges@ && final(self).view_islands()
                == old(self).view_islands(),
            old(self).joinable(i_edge.id() as int) ==> r@.len() > 0 && final(self).edges@[i_edge.id() as int]
                == EdgeStatus::Joined,
            forall|i: int| 0 <= i < r@.len() ==> final(self).edges@[(#[trigger] r@[i]).i_edge.id() as int] == EdgeStatus::Joined
                && old(self).edges@[r@[i].i_edge.id() as int] is Cut,
            forall|e: int|
                0 <= e < final(self).edges@.len() && #[trigger] final(self).edges@[e] != old(self).edges@[e] ==> exists|i: int|
                    0 <= i < r@.len() && r@[i].i_edge.id() == e,
    {
        let mut res: Vec<JoinResult> = Vec::new();
        let mut todo: Vec<EdgeIndex> = Vec::new();
        todo.push(i_edge);
        while todo.len() > 0
            invariant
                self.wf(),
                self.model == old(self).model,
                slot_count(self.islands) == slot_count(old(self).islands),
                forall|i: int| 0 <= i < todo@.len() ==> (#[trigger] todo@[i]).id() < self.model.edges@.len(),
                res@.len() + self.view_islands().len() == old(self).view_islands().len(),
                res@.len() == 0 ==> (todo@ == seq![i_edge] || (todo@.len() == 0 && !old(self).joinable(
                    i_edge.id() as int,
                )))
                    && self.edges@ == old(self).edges@ && self.view_islands() == old(self).view_islands(),
                self.edges@.len() == old(self).edges@.len(),
                forall|i: int| 0 <= i < res@.len() ==> (#[trigger] res@[i]).i_edge.id() < self.edges@.len(),
                res@.len() > 0 ==> res@[0].i_edge == i_edge,
                forall|i: int| 0 <= i < res@.len() ==> self.edges@[(#[trigger] res@[i]).i_edge.id() as int] == EdgeStatus::Joined
                    && old(self).edges@[res@[i].i_edge.id() as int] is Cut,
                forall|e: int|
                    0 <= e < self.edges@.len() && #[trigger] self.edges@[e] != old(self).edges@[e] ==> exists|i: int|
                        0 <= i < res@.len() && res@[i].i_edge.id() == e,
            decreases 3 * self.view_islands().len() + todo@.len(),
        {
            let e = todo.pop().unwrap();
            let edge = self.model.edges[e.0 as usize];
            let fa = edge.f0;
            let fb = match edge.f1 {
                Some(fb) => fb,
                None => {
                    continue;
                },
            };
            if !matches!(self.edges[e.0 as usize], EdgeStatus::Cut(_)) {
                continue;
            }
            let ka = match self.find_island_by_face(fa) {
                Some(k) => k,
                None => {
                    continue;
                },
            };
            let kb = match self.find_island_by_face(fb) {
                Some(k) => k,
                None => {
                    continue;
                },
            };
            let n_faces_a = self.island_face_count(&islands_get(&self.islands, ka).unwrap());
            let n_faces_b = self.island_face_count(&islands_get(&self.islands, kb).unwrap());
            let ghost before = *self;
            let j = match self.edge_join(e, None) {
                Some(j) => j,
                None => {
                    continue;
                },
            };
            proof {
                let m0 = before.view_islands();
                assert(m0.dom().contains(j.removed));
                assert(m0.remove(j.removed).dom() == m0.dom().remove(j.removed));
                if before.yields(m0[j.i_island], m0[j.removed], None) {
                    assert(m0.remove(j.removed).insert(j.i_island, m0[j.removed]).dom()
                        =~= m0.dom().remove(j.removed));
                }
                assert(self.view_islands().dom() =~= m0.dom().remove(j.removed));
                assert(self.view_islands().len() == m0.len() - 1);
                if res@.len() == 0 {
                    assert(e == i_edge);
                }
                assert(res@.push(j)[res@.len() as int] == j);
                assert forall|e2: int|
                    0 <= e2 < self.edges@.len() && #[trigger] self.edges@[e2] != old(self).edges@[e2] implies exists|i: int|
                    0 <= i < res@.push(j).len() && res@.push(j)[i].i_edge.id() == e2 by {
                    if e2 == e.id() {
                        assert(res@.push(j)[res@.len() as int].i_edge.id() == e2);
                    } else {
                        assert(self.edges@[e2] == before.edges@[e2]);
                        let i = choose|i: int| 0 <= i < res@.len() && res@[i].i_edge.id() == e2;
                        assert(res@.push(j)[i] == res@[i]);
                    }
                }
                assert forall|i: int| 0 <= i < res@.push(j).len() implies self.edges@[(#[trigger] res@.push(j)[i]).i_edge.id() as int] == EdgeStatus::Joined
                    && old(self).edges@[res@.push(j)[i].i_edge.id() as int] is Cut by {
                    if i < res@.len() {
                        assert(res@.push(j)[i] == res@[i]);
                        let ei = res@[i].i_edge.id() as int;
                        if ei != e.id() {
                            assert(self.edges@[ei] == before.edges@[ei]);
                        }
                    } else {
                        if before.edges@[e.id() as int] != old(self).edges@[e.id() as int] {
                            let i2 = choose|i2: int| 0 <= i2 < res@.len() && res@[i2].i_edge.id() == e.id();
                            assert(before.edges@[res@[i2].i_edge.id() as int] == EdgeStatus::Joined);
                        }
                    }
                }
            }
            res.push(j);
            let sides: [(FaceIndex, u32); 2] = [(fa, n_faces_a), (fb, n_faces_b)];
            let ghost snap = *self;
            let ghost todo0 = todo@;
            let mut s: usize = 0;
            while s < 2
                invariant
                    self.wf(),
                    s <= 2,
                    sides@[0].0.id() < self.model.faces@.len(),
                    sides@[1].0.id() < self.model.faces@.len(),
                    e.id() < self.model.edges@.len(),
                    *self == snap,
                    todo@.len() <= todo0.len() + s,
                    forall|i: int| 0 <= i < todo@.len() ==> (#[trigger] todo@[i]).id() < self.model.edges@.len(),
                decreases 2 - s,
            {
                let (face, n_faces) = sides[s];
                let edges = self.flat_edges(face);
                if n_faces == 2 && edges.len() == 4 {
                    let mut t: usize = 0;
                    let mut opposite: Option<EdgeIndex> = None;
                    while t < edges.len()
                        invariant
                            self.wf(),
                            *self == snap,
                            t <= edges@.len(),
                            e.id() < self.model.edges@.len(),
                            forall|i: int| 0 <= i < edges@.len() ==> (#[trigger] edges@[i]).id() < self.model.edges@.len(),
                            opposite is Some ==> opposite->0.id() < self.model.edges@.len(),
                        decreases edges@.len() - t,
                    {
                        let c = edges[t];
                        if c != e && !self.edges_touch(e, c) {
                            opposite = Some(c);
                            break;
                        }
                        t += 1;
                    }
                    if let Some(o) = opposite {
                        todo.push(o);
                    }
                }
                s += 1;
            }
        }
        res
    }

}

/// A walk that does not pass through `fa` or `fb` before its `n`-th face
/// never uses edge `e` between them, so it is still a walk once `e` is cut.
proof fn lemma_walk_until(
    m: Model,
    st: Seq<EdgeStatus>,
    e: int,
    fa: int,
    fb: int,
    p: Seq<int>,
    n: int,
)
    requires
        m.wf(),
        st.len() == m.edges@.len(),
        0 <= e < m.edges@.len(),
        m.edges@[e].f0.id() == fa,
        m.edges@[e].f1 is Some && m.edges@[e].f1->0.id() == fb,
        is_path(m, st, Policy::Island, p),
        0 <= n < p.len(),
        forall|j: int| 0 <= j < n ==> #[trigger] p[j] != fa && p[j] != fb,
    ensures
        reachable(m, st.update(e, EdgeStatus::Cut(false)), Policy::Island, p[0], p[n]),
    decreases n,
{
    let st2 = st.update(e, EdgeStatus::Cut(false));
    if n == 0 {
        let q = seq![p[0]];
        assert(is_path(m, st2, Policy::Island, q));
    } else {
        lemma_walk_until(m, st, e, fa, fb, p, n - 1);
        let j = n - 1;
        assert(step(m, st, Policy::Island, p[j], p[j + 1]));
        let k = choose|k: int| #[trigger] step_by(m, st, Policy::Island, p[j], p[j + 1], k);
        let ek = m.faces@[p[j]].edges@[k].id() as int;
        if ek == e {
            assert(edge_has_face(m.edges@[m.faces@[p[j]].edges@[k].id() as int], p[j] as nat));
            assert(false);
        }
        assert(step_by(m, st2, Policy::Island, p[j], p[j + 1], k));
        lemma_path_extend(m, st2, Policy::Island, p[0], p[j], p[j + 1]);
    }
}

proof fn lemma_first_hit(
    m: Model,
    st: Seq<EdgeStatus>,
    e: int,
    fa: int,
    fb: int,
    p: Seq<int>,
    n: int,
)
    requires
        m.wf(),
        st.len() == m.edges@.len(),
        0 <= e < m.edges@.len(),
        m.edges@[e].f0.id() == fa,
        m.edges@[e].f1 is Some && m.edges@[e].f1->0.id() == fb,
        is_path(m, st, Policy::Island, p),
        p.last() == fa,
        0 <= n < p.len(),
        forall|j: int| 0 <= j < n ==> #[trigger] p[j] != fa && p[j] != fb,
    ensures
        reachable(m, st.update(e, EdgeStatus::Cut(false)), Policy::Island, p[0], fa) || reachable(
            m,
            st.update(e, EdgeStatus::Cut(false)),
            Policy::Island,
            p[0],
            fb,
        ),
    decreases p.len() - n,
{
    if p[n] == fa || p[n] == fb {
        lemma_walk_until(m, st, e, fa, fb, p, n);
    } else {
        lemma_first_hit(m, st, e, fa, fb, p, n + 1);
    }
}

/// Cutting a fold between `fa` and `fb` leaves one of them on the island of
/// a root that reached `fa` before.
pub proof fn lemma_cut_keeps_one_side(m: Model, st: Seq<EdgeStatus>, e: int, root: int)
    requires
        m.wf(),
        st.len() == m.edges@.len(),
        0 <= e < m.edges@.len(),
        m.edges@[e].f1 is Some,
        reachable(m, st, Policy::Island, root, m.edges@[e].f0.id() as int),
    ensures
        reachable(
            m,
            st.update(e, EdgeStatus::Cut(false)),
            Policy::Island,
            root,
            m.edges@[e].f0.id() as int,
        ) || reachable(
            m,
            st.update(e, EdgeStatus::Cut(false)),
            Policy::Island,
            root,
            m.edges@[e].f1->0.id() as int,
        ),
{
    let fa = m.edges@[e].f0.id() as int;
    let p = choose|p: Seq<int>| #[trigger] is_path(m, st, Policy::Island, p) && p[0] == root && p.last() == fa;
    lemma_first_hit(m, st, e, fa, m.edges@[e].f1->0.id() as int, p, 0);
}

/// A walk up to its first pass through `fa` or `fb` survives the cut of the
/// edge between them: the cut leaves the start joined to one of the two, or,
/// if the walk never passes them, to its end.
proof fn lemma_first_hit_or_end(
    m: Model,
    st: Seq<EdgeStatus>,
    e: int,
    fa: int,
    fb: int,
    p: Seq<int>,
    n: int,
)
    requires
        m.wf(),
        st.len() == m.edges@.len(),
        0 <= e < m.edges@.len(),
        m.edges@[e].f0.id() == fa,
        m.edges@[e].f1 is Some && m.edges@[e].f1->0.id() == fb,
        is_path(m, st, Policy::Island, p),
        0 <= n < p.len(),
        forall|j: int| 0 <= j < n ==> #[trigger] p[j] != fa && p[j] != fb,
    ensures
        ({
            let st2 = st.update(e, EdgeStatus::Cut(false));
            reachable(m, st2, Policy::Island, p[0], fa) || reachable(m, st2, Policy::Island, p[0], fb)
                || reachable(m, st2, Policy::Island, p[0], p.last())
        }),
    decreases p.len() - n,
{
    if p[n] == fa || p[n] == fb || n == p.len() - 1 {
        lemma_walk_until(m, st, e, fa, fb, p, n);
    } else {
        lemma_first_hit_or_end(m, st, e, fa, fb, p, n + 1);
    }
}

/// Walks go both ways: every step can be taken back.
pub proof fn lemma_reachable_symmetric(m: Model, st: Seq<EdgeStatus>, pol: Policy, a: int, b: int)
    requires
        m.wf(),
        st.len() == m.edges@.len(),
        reachable(m, st, pol, a, b),
    ensures
        reachable(m, st, pol, b, a),
{
    let p = choose|p: Seq<int>| #[trigger] is_path(m, st, pol, p) && p[0] == a && p.last() == b;
    let n = p.len();
    let q = Seq::new(n, |i: int| p[n - 1 - i]);
    assert forall|i: int| 0 <= i < q.len() - 1 implies #[trigger] step(m, st, pol, q[i], q[i + 1]) by {
        let j = n - 2 - i;
        assert(step(m, st, pol, p[j], p[j + 1]));
        let f = p[j];
        let g = p[j + 1];
        let k = choose|k: int| #[trigger] step_by(m, st, pol, f, g, k);
        let ek = m.faces@[f].edges@[k].id() as int;
        assert(edge_has_face(m.edges@[m.faces@[f].edges@[k].id() as int], f as nat));
        let fg = m.faces@[g];
        assert(crate::model::face_has_edge(fg, ek as nat)) by {
            if m.edges@[ek].f0.id() == g {
                assert(crate::model::face_has_edge(m.faces@[m.edges@[ek].f0.id() as int], ek as nat));
            } else {
                assert(crate::model::face_has_edge(m.faces@[m.edges@[ek].f1->0.id() as int], ek as nat));
            }
        }
        let k2 = choose|k2: int| 0 <= k2 < 3 && #[trigger] fg.edges@[k2].id() == ek;
        assert(step_by(m, st, pol, g, f, k2));
        assert(q[i] == g && q[i + 1] == f);
    }
    if n > 1 {
        let j = n - 2;
        assert(step(m, st, pol, p[j], p[j + 1]));
    }
    assert(is_path(m, st, pol, q));
}

/// Walks chain: from `a` to `b` and from `b` to `c` is from `a` to `c`.
pub proof fn lemma_reachable_transitive(
    m: Model,
    st: Seq<EdgeStatus>,
    pol: Policy,
    a: int,
    b: int,
    c: int,
)
    requires
        reachable(m, st, pol, a, b),
        reachable(m, st, pol, b, c),
    ensures
        reachable(m, st, pol, a, c),
{
    let p = choose|p: Seq<int>| #[trigger] is_path(m, st, pol, p) && p[0] == a && p.last() == b;
    let q = choose|q: Seq<int>| #[trigger] is_path(m, st, pol, q) && q[0] == b && q.last() == c;
    let w = p + q.skip(1);
    assert forall|i: int| 0 <= i < w.len() - 1 implies #[trigger] step(m, st, pol, w[i], w[i + 1]) by {
        if i < p.len() - 1 {
            assert(w[i] == p[i] && w[i + 1] == p[i + 1]);
            assert(step(m, st, pol, p[i], p[i + 1]));
        } else {
            let j = i - (p.len() - 1);
            assert(w[i] == q[j] && w[i + 1] == q[j + 1]);
            assert(step(m, st, pol, q[j], q[j + 1]));
        }
    }
    assert(is_path(m, st, pol, w));
}

/// A cut only takes steps away: what a walk reaches after cutting a fold it
/// reached before.
proof fn lemma_cut_monotone(m: Model, st: Seq<EdgeStatus>, e: int, a: int, b: int)
    requires
        m.wf(),
        st.len() == m.edges@.len(),
        0 <= e < m.edges@.len(),
        reachable(m, st.update(e, EdgeStatus::Cut(false)), Policy::Island, a, b),
    ensures
        reachable(m, st, Policy::Island, a, b),
{
    let st2 = st.update(e, EdgeStatus::Cut(false));
    let p = choose|p: Seq<int>| #[trigger] is_path(m, st2, Policy::Island, p) && p[0] == a && p.last() == b;
    assert forall|i: int| 0 <= i < p.len() - 1 implies #[trigger] step(m, st, Policy::Island, p[i], p[i + 1]) by {
        assert(step(m, st2, Policy::Island, p[i], p[i + 1]));
        let k = choose|k: int| #[trigger] step_by(m, st2, Policy::Island, p[i], p[i + 1], k);
        assert(step_by(m, st, Policy::Island, p[i], p[i + 1], k));
    }
    assert(is_path(m, st, Policy::Island, p));
}

/// The faces that a walk from `root` reaches are faces of the mesh.
proof fn lemma_faces_from_finite(m: Model, st: Seq<EdgeStatus>, root: FaceIndex)
    ensures
        faces_from(m, st, root).finite(),
        faces_from(m, st, root).len() <= m.faces@.len(),
{
    vstd::set_lib::lemma_int_range(0, m.faces@.len() as int);
    assert forall|g: int| faces_from(m, st, root).contains(g) implies vstd::set_lib::set_int_range(
        0,
        m.faces@.len() as int,
    ).contains(g) by {
        lemma_reachable_in_range(m, st, Policy::Island, root.id() as int, g);
    }
    vstd::set_lib::lemma_len_subset(
        faces_from(m, st, root),
        vstd::set_lib::set_int_range(0, m.faces@.len() as int),
    );
}

/// Cutting a fold whose two faces the cut separates, then joining it again:
/// the faces of the island are shared out between the island of the old
/// root and the island of the new root, their counts add up to the count
/// before the cut, and after the join either root holds all of them again.
pub proof fn lemma_cut_join_inverse(
    m: Model,
    st: Seq<EdgeStatus>,
    e: int,
    root: FaceIndex,
    old_face: FaceIndex,
    new_root: FaceIndex,
)
    requires
        m.wf(),
        st.len() == m.edges@.len(),
        0 <= e < m.edges@.len(),
        st[e] == EdgeStatus::Joined,
        m.edges@[e].f1 is Some,
        (old_face == m.edges@[e].f0 && new_root == m.edges@[e].f1->0) || (old_face
            == m.edges@[e].f1->0 && new_root == m.edges@[e].f0),
        reachable(m, st, Policy::Island, root.id() as int, m.edges@[e].f0.id() as int),
        reachable(
            m,
            st.update(e, EdgeStatus::Cut(false)),
            Policy::Island,
            root.id() as int,
            old_face.id() as int,
        ),
        !reachable(
            m,
            st.update(e, EdgeStatus::Cut(false)),
            Policy::Island,
            root.id() as int,
            new_root.id() as int,
        ),
    ensures
        ({
            let cut = st.update(e, EdgeStatus::Cut(false));
            &&& faces_from(m, cut, root).disjoint(faces_from(m, cut, new_root))
            &&& faces_from(m, cut, root) + faces_from(m, cut, new_root) == faces_from(m, st, root)
            &&& faces_from(m, st, root).len() == faces_from(m, cut, root).len() + faces_from(
                m,
                cut,
                new_root,
            ).len()
            &&& cut.update(e, EdgeStatus::Joined) == st
            &&& faces_from(m, cut.update(e, EdgeStatus::Joined), root) == faces_from(m, st, root)
            &&& faces_from(m, cut.update(e, EdgeStatus::Joined), new_root) == faces_from(m, st, root)
        }),
{
    let cut = st.update(e, EdgeStatus::Cut(false));
    let r = root.id() as int;
    let fa = m.edges@[e].f0.id() as int;
    let fb = m.edges@[e].f1->0.id() as int;
    let nr = new_root.id() as int;
    let of = old_face.id() as int;
    let s = faces_from(m, st, root);
    let a = faces_from(m, cut, root);
    let b = faces_from(m, cut, new_root);
    assert(cut.len() == m.edges@.len());
    // fb is one step from fa over the fold
    assert(reachable(m, st, Policy::Island, r, fb)) by {
        assert(crate::model::face_has_edge(m.faces@[fa], e as nat));
        let k = choose|k: int| 0 <= k < 3 && #[trigger] m.faces@[fa].edges@[k].id() == e as nat;
        assert(step_by(m, st, Policy::Island, fa, fb, k));
        lemma_reachable_in_range(m, st, Policy::Island, r, fa);
        assert(m.edges@[e].f1->0.id() < m.faces@.len());
        lemma_path_extend(m, st, Policy::Island, r, fa, fb);
    }
    assert(reachable(m, st, Policy::Island, r, nr));
    assert forall|g: int| a.contains(g) implies s.contains(g) by {
        lemma_cut_monotone(m, st, e, r, g);
    }
    assert forall|g: int| b.contains(g) implies s.contains(g) by {
        lemma_cut_monotone(m, st, e, nr, g);
        lemma_reachable_transitive(m, st, Policy::Island, r, nr, g);
    }
    assert forall|g: int| s.contains(g) implies a.contains(g) || b.contains(g) by {
        lemma_reachable_symmetric(m, st, Policy::Island, r, g);
        let p = choose|p: Seq<int>| #[trigger] is_path(m, st, Policy::Island, p) && p[0] == g && p.last() == r;
        lemma_first_hit_or_end(m, st, e, fa, fb, p, 0);
        if reachable(m, cut, Policy::Island, g, r) {
            lemma_reachable_symmetric(m, cut, Policy::Island, g, r);
        } else {
            let x = if reachable(m, cut, Policy::Island, g, fa) { fa } else { fb };
            lemma_reachable_symmetric(m, cut, Policy::Island, g, x);
            if x == of {
                lemma_reachable_transitive(m, cut, Policy::Island, r, of, g);
            }
        }
    }
    assert forall|g: int| a.contains(g) implies !b.contains(g) by {
        if b.contains(g) {
            lemma_reachable_symmetric(m, cut, Policy::Island, nr, g);
            lemma_reachable_transitive(m, cut, Policy::Island, r, g, nr);
        }
    }
    assert(a + b =~= s);
    lemma_faces_from_finite(m, cut, root);
    lemma_faces_from_finite(m, cut, new_root);
    vstd::set_lib::lemma_set_disjoint_lens(a, b);
    assert(cut.update(e, EdgeStatus::Joined) =~= st);
    assert forall|g: int| faces_from(m, st, new_root).contains(g) <==> s.contains(g) by {
        if faces_from(m, st, new_root).contains(g) {
            lemma_reachable_transitive(m, st, Policy::Island, r, nr, g);
        }
        if s.contains(g) {
            lemma_reachable_symmetric(m, st, Policy::Island, r, nr);
            lemma_reachable_transitive(m, st, Policy::Island, nr, r, g);
        }
    }
    assert(faces_from(m, st, new_root) =~= s);
}

/// More crossings reach more: if every edge that `st1` lets a walk cross
/// `st2` does too, what `st1` reaches `st2` reaches.
pub proof fn lemma_reach_more(
    m: Model,
    st1: Seq<EdgeStatus>,
    st2: Seq<EdgeStatus>,
    pol: Policy,
    a: int,
    b: int,
)
    requires
        st1.len() == m.edges@.len(),
        st2.len() == m.edges@.len(),
        forall|e: int| 0 <= e < st1.len() && crosses(pol, #[trigger] st1[e]) ==> crosses(pol, st2[e]),
        reachable(m, st1, pol, a, b),
        m.wf(),
    ensures
        reachable(m, st2, pol, a, b),
{
    let p = choose|p: Seq<int>| #[trigger] is_path(m, st1, pol, p) && p[0] == a && p.last() == b;
    assert forall|i: int| 0 <= i < p.len() - 1 implies #[trigger] step(m, st2, pol, p[i], p[i + 1]) by {
        assert(step(m, st1, pol, p[i], p[i + 1]));
        let k = choose|k: int| #[trigger] step_by(m, st1, pol, p[i], p[i + 1], k);
        let ek = m.faces@[p[i]].edges@[k].id() as int;
        assert(ek < m.edges@.len());
        assert(crosses(pol, st1[ek]));
        assert(step_by(m, st2, pol, p[i], p[i + 1], k));
    }
    assert(is_path(m, st2, pol, p));
}

/// A face reaches itself.
pub proof fn lemma_reach_self(m: Model, st: Seq<EdgeStatus>, pol: Policy, a: int)
    requires
        0 <= a < m.faces@.len(),
    ensures
        reachable(m, st, pol, a, a),
{
    let p = seq![a];
    assert(is_path(m, st, pol, p));
}

/// Over a fold, each face of the edge reaches the other.
proof fn lemma_fold_links(m: Model, st: Seq<EdgeStatus>, e: int)
    requires
        m.wf(),
        st.len() == m.edges@.len(),
        0 <= e < m.edges@.len(),
        crosses(Policy::Island, st[e]),
        m.edges@[e].f1 is Some,
    ensures
        reachable(m, st, Policy::Island, m.edges@[e].f0.id() as int, m.edges@[e].f1->0.id() as int),
        reachable(m, st, Policy::Island, m.edges@[e].f1->0.id() as int, m.edges@[e].f0.id() as int),
{
    let fa = m.edges@[e].f0.id() as int;
    let fb = m.edges@[e].f1->0.id() as int;
    assert(crate::model::face_has_edge(m.faces@[fa], e as nat));
    let k = choose|k: int| 0 <= k < 3 && #[trigger] m.faces@[fa].edges@[k].id() == e as nat;
    assert(step_by(m, st, Policy::Island, fa, fb, k));
    lemma_reach_self(m, st, Policy::Island, fa);
    lemma_path_extend(m, st, Policy::Island, fa, fa, fb);
    lemma_reachable_symmetric(m, st, Policy::Island, fa, fb);
}

/// After a cut, each face is still on an island: on the old ones, or on the
/// new island rooted at the face that the cut parted from the old root.
/// The islands after a cut: the new island under `nk`, if one is made.
pub open spec fn cut_map(m0: Map<IslandKey, Island>, nk: IslandKey, isl: Island, add: bool) -> Map<IslandKey, Island> {
    if add {
        m0.insert(nk, isl)
    } else {
        m0
    }
}

proof fn lemma_cut_covers(
    m: Model,
    st: Seq<EdgeStatus>,
    e: int,
    m0: Map<IslandKey, Island>,
    ki: IslandKey,
    nk: IslandKey,
    old_face: FaceIndex,
    new_root: FaceIndex,
    place: u32,
    add: bool,
)
    requires
        m.wf(),
        st.len() == m.edges@.len(),
        0 <= e < m.edges@.len(),
        m.edges@[e].f1 is Some,
        (old_face == m.edges@[e].f0 && new_root == m.edges@[e].f1->0) || (old_face
            == m.edges@[e].f1->0 && new_root == m.edges@[e].f0),
        m0.contains_key(ki),
        add ==> !m0.contains_key(nk),
        !add ==> reachable(
            m,
            st.update(e, EdgeStatus::Cut(false)),
            Policy::Island,
            m0[ki].root.id() as int,
            new_root.id() as int,
        ),
        reachable(
            m,
            st.update(e, EdgeStatus::Cut(false)),
            Policy::Island,
            m0[ki].root.id() as int,
            old_face.id() as int,
        ),
        forall|g: int| 0 <= g < m.faces@.len() ==> #[trigger] covered_by(m, st, m0, g),
    ensures
        forall|g: int|
            0 <= g < m.faces@.len() ==> #[trigger] covered_by(
                m,
                st.update(e, EdgeStatus::Cut(false)),
                cut_map(m0, nk, Island { root: new_root, place }, add),
                g,
            ),
{
    let st2 = st.update(e, EdgeStatus::Cut(false));
    let m1 = cut_map(m0, nk, Island { root: new_root, place }, add);
    let fa = m.edges@[e].f0.id() as int;
    let fb = m.edges@[e].f1->0.id() as int;
    assert(st2.len() == m.edges@.len());
    assert forall|g: int| 0 <= g < m.faces@.len() implies #[trigger] covered_by(m, st2, m1, g) by {
        assert(covered_by(m, st, m0, g));
        let k = choose|k: IslandKey| #[trigger] m0.contains_key(k) && reachable(
            m,
            st,
            Policy::Island,
            m0[k].root.id() as int,
            g,
        );
        let rk = m0[k].root.id() as int;
        lemma_reachable_symmetric(m, st, Policy::Island, rk, g);
        let p = choose|p: Seq<int>| #[trigger] is_path(m, st, Policy::Island, p) && p[0] == g && p.last() == rk;
        lemma_first_hit_or_end(m, st, e, fa, fb, p, 0);
        if reachable(m, st2, Policy::Island, g, rk) {
            lemma_reachable_symmetric(m, st2, Policy::Island, g, rk);
            if add && k == nk {
                assert(false);
            }
            assert(m1.contains_key(k) && m1[k] == m0[k]);
            assert(m1.contains_key(k) && reachable(m, st2, Policy::Island, m1[k].root.id() as int, g));
        } else {
            let x = if reachable(m, st2, Policy::Island, g, fa) {
                fa
            } else {
                fb
            };
            lemma_reachable_symmetric(m, st2, Policy::Island, g, x);
            if x == old_face.id() as int {
                let r0 = m0[ki].root.id() as int;
                lemma_reachable_transitive(m, st2, Policy::Island, r0, x, g);
                if add && ki == nk {
                    assert(false);
                }
                assert(m1.contains_key(ki) && m1[ki] == m0[ki]);
                assert(m1.contains_key(ki) && reachable(m, st2, Policy::Island, m1[ki].root.id() as int, g));
            } else if add {
                assert(x == new_root.id() as int);
                assert(m1.contains_key(nk) && reachable(m, st2, Policy::Island, m1[nk].root.id() as int, g));
            } else {
                let r0 = m0[ki].root.id() as int;
                lemma_reachable_transitive(m, st2, Policy::Island, r0, x, g);
                assert(m1.contains_key(ki) && reachable(m, st2, Policy::Island, m1[ki].root.id() as int, g));
            }
        }
    }
}

/// The islands after a join: `kb` goes; with `swap`, its island takes the
/// place of the one under `ka`.
pub open spec fn joined_map(
    m0: Map<IslandKey, Island>,
    ka: IslandKey,
    kb: IslandKey,
    swap: bool,
) -> Map<IslandKey, Island> {
    if swap {
        m0.remove(kb).insert(ka, m0[kb])
    } else {
        m0.remove(kb)
    }
}

/// After a join, each face is still on an island: the faces of the island
/// that went away are reached from the one that stays, over the new fold.
proof fn lemma_join_covers(
    m: Model,
    st: Seq<EdgeStatus>,
    e: int,
    m0: Map<IslandKey, Island>,
    ka: IslandKey,
    kb: IslandKey,
    swap: bool,
)
    requires
        m.wf(),
        st.len() == m.edges@.len(),
        0 <= e < m.edges@.len(),
        st[e] is Cut,
        m.edges@[e].f1 is Some,
        m0.contains_key(ka),
        m0.contains_key(kb),
        ka != kb,
        reachable(m, st, Policy::Island, m0[ka].root.id() as int, m.edges@[e].f0.id() as int),
        reachable(m, st, Policy::Island, m0[kb].root.id() as int, m.edges@[e].f1->0.id() as int),
        forall|g: int| 0 <= g < m.faces@.len() ==> #[trigger] covered_by(m, st, m0, g),
    ensures
        forall|g: int|
            0 <= g < m.faces@.len() ==> #[trigger] covered_by(
                m,
                st.update(e, EdgeStatus::Joined),
                joined_map(m0, ka, kb, swap),
                g,
            ),
{
    let st2 = st.update(e, EdgeStatus::Joined);
    let m1 = joined_map(m0, ka, kb, swap);
    let fa = m.edges@[e].f0.id() as int;
    let fb = m.edges@[e].f1->0.id() as int;
    let ra = m0[ka].root.id() as int;
    let rb = m0[kb].root.id() as int;
    assert(st2.len() == m.edges@.len());
    assert forall|x: int| 0 <= x < st.len() && crosses(Policy::Island, #[trigger] st[x]) implies crosses(
        Policy::Island,
        st2[x],
    ) by {
        if x == e {
        }
    }
    lemma_fold_links(m, st2, e);
    lemma_reach_more(m, st, st2, Policy::Island, ra, fa);
    lemma_reach_more(m, st, st2, Policy::Island, rb, fb);
    // the root that stays at `ka` reaches both old roots
    let rs = if swap {
        rb
    } else {
        ra
    };
    assert(reachable(m, st2, Policy::Island, rs, ra) && reachable(m, st2, Policy::Island, rs, rb)) by {
        lemma_reachable_in_range(m, st, Policy::Island, ra, fa);
        lemma_reachable_in_range(m, st, Policy::Island, rb, fb);
        lemma_reach_self(m, st2, Policy::Island, ra);
        lemma_reach_self(m, st2, Policy::Island, rb);
        lemma_reachable_symmetric(m, st2, Policy::Island, ra, fa);
        lemma_reachable_symmetric(m, st2, Policy::Island, rb, fb);
        if swap {
            lemma_reachable_transitive(m, st2, Policy::Island, rb, fb, fa);
            lemma_reachable_transitive(m, st2, Policy::Island, rb, fa, ra);
        } else {
            lemma_reachable_transitive(m, st2, Policy::Island, ra, fa, fb);
            lemma_reachable_transitive(m, st2, Policy::Island, ra, fb, rb);
        }
    }
    assert(m1.contains_key(ka));
    assert(m1[ka].root.id() as int == rs);
    assert forall|g: int| 0 <= g < m.faces@.len() implies #[trigger] covered_by(m, st2, m1, g) by {
        assert(covered_by(m, st, m0, g));
        let k = choose|k: IslandKey| #[trigger] m0.contains_key(k) && reachable(
            m,
            st,
            Policy::Island,
            m0[k].root.id() as int,
            g,
        );
        let rk = m0[k].root.id() as int;
        lemma_reach_more(m, st, st2, Policy::Island, rk, g);
        if k == ka || k == kb {
            lemma_reachable_transitive(m, st2, Policy::Island, rs, rk, g);
            assert(m1.contains_key(ka) && reachable(m, st2, Policy::Island, m1[ka].root.id() as int, g));
        } else {
            assert(m1.contains_key(k) && m1[k] == m0[k]);
            assert(m1.contains_key(k) && reachable(m, st2, Policy::Island, m1[k].root.id() as int, g));
        }
    }
}

/// Statuses that let walks cross the same edges give the same islands.
proof fn lemma_disjoint_same_crossings(
    m: Model,
    st1: Seq<EdgeStatus>,
    st2: Seq<EdgeStatus>,
    isl: Map<IslandKey, Island>,
)
    requires
        m.wf(),
        st1.len() == m.edges@.len(),
        st2.len() == m.edges@.len(),
        forall|e: int| 0 <= e < st1.len() ==> crosses(Policy::Island, #[trigger] st1[e]) == crosses(Policy::Island, st2[e]),
        disjoint_by(m, st1, isl),
    ensures
        disjoint_by(m, st2, isl),
{
    assert forall|k1: IslandKey, k2: IslandKey, g: int|
        isl.contains_key(k1) && isl.contains_key(k2) && k1 != k2 && on(m, st2, isl[k1], g)
        implies !on(m, st2, isl[k2], g) by {
        assert forall|e: int| 0 <= e < st2.len() && crosses(Policy::Island, #[trigger] st2[e]) implies crosses(Policy::Island, st1[e]) by {
            assert(crosses(Policy::Island, st1[e]) == crosses(Policy::Island, st2[e]));
        }
        lemma_reach_more(m, st2, st1, Policy::Island, isl[k1].root.id() as int, g);
        if on(m, st2, isl[k2], g) {
            lemma_reach_more(m, st2, st1, Policy::Island, isl[k2].root.id() as int, g);
            assert(on(m, st1, isl[k1], g) && on(m, st1, isl[k2], g));
        }
    }
}

/// Giving an island another root on it keeps the islands apart.
proof fn lemma_disjoint_reroot(
    m: Model,
    st: Seq<EdgeStatus>,
    m0: Map<IslandKey, Island>,
    key: IslandKey,
    isl: Island,
)
    requires
        m.wf(),
        st.len() == m.edges@.len(),
        disjoint_by(m, st, m0),
        m0.contains_key(key),
        reachable(m, st, Policy::Island, m0[key].root.id() as int, isl.root.id() as int),
    ensures
        disjoint_by(m, st, m0.insert(key, isl)),
{
    let m1 = m0.insert(key, isl);
    let r0 = m0[key].root.id() as int;
    let r1 = isl.root.id() as int;
    lemma_reachable_symmetric(m, st, Policy::Island, r0, r1);
    assert forall|k1: IslandKey, k2: IslandKey, g: int|
        m1.contains_key(k1) && m1.contains_key(k2) && k1 != k2 && on(m, st, m1[k1], g)
        implies !on(m, st, m1[k2], g) by {
        if on(m, st, m1[k2], g) {
            if k1 == key {
                lemma_reachable_transitive(m, st, Policy::Island, r0, r1, g);
                assert(on(m, st, m0[k1], g) && on(m, st, m0[k2], g));
            } else if k2 == key {
                lemma_reachable_transitive(m, st, Policy::Island, r0, r1, g);
                assert(on(m, st, m0[k1], g) && on(m, st, m0[k2], g));
            } else {
                assert(on(m, st, m0[k1], g) && on(m, st, m0[k2], g));
            }
        }
    }
}

/// A cut only shrinks islands, so islands that were apart stay apart; and
/// a new island rooted at the face that the cut parted from the old root
/// shares no face with any.
proof fn lemma_cut_disjoint(
    m: Model,
    st: Seq<EdgeStatus>,
    e: int,
    m0: Map<IslandKey, Island>,
    ki: IslandKey,
    nk: IslandKey,
    new_root: FaceIndex,
    place: u32,
    add: bool,
)
    requires
        m.wf(),
        st.len() == m.edges@.len(),
        0 <= e < m.edges@.len(),
        m.edges@[e].f1 is Some,
        new_root == m.edges@[e].f0 || new_root == m.edges@[e].f1->0,
        st[e] == EdgeStatus::Joined,
        disjoint_by(m, st, m0),
        m0.contains_key(ki),
        add ==> !m0.contains_key(nk),
        reachable(m, st, Policy::Island, m0[ki].root.id() as int, m.edges@[e].f0.id() as int),
        add ==> !reachable(
            m,
            st.update(e, EdgeStatus::Cut(false)),
            Policy::Island,
            m0[ki].root.id() as int,
            new_root.id() as int,
        ),
    ensures
        disjoint_by(
            m,
            st.update(e, EdgeStatus::Cut(false)),
            cut_map(m0, nk, Island { root: new_root, place }, add),
        ),
{
    let st2 = st.update(e, EdgeStatus::Cut(false));
    let nw = Island { root: new_root, place };
    let m1 = cut_map(m0, nk, nw, add);
    let ri = m0[ki].root.id() as int;
    let nr = new_root.id() as int;
    let fa = m.edges@[e].f0.id() as int;
    let fb = m.edges@[e].f1->0.id() as int;
    assert(st2.len() == m.edges@.len());
    // the new root was on the cut island before the cut
    assert(reachable(m, st, Policy::Island, ri, nr)) by {
        assert(crate::model::face_has_edge(m.faces@[fa], e as nat));
        let k = choose|k: int| 0 <= k < 3 && #[trigger] m.faces@[fa].edges@[k].id() == e as nat;
        lemma_reachable_in_range(m, st, Policy::Island, ri, fa);
        if nr == fb {
            assert(step_by(m, st, Policy::Island, fa, fb, k));
            lemma_path_extend(m, st, Policy::Island, ri, fa, fb);
        }
    }
    assert forall|k1: IslandKey, k2: IslandKey, g: int|
        m1.contains_key(k1) && m1.contains_key(k2) && k1 != k2 && on(m, st2, m1[k1], g)
        implies !on(m, st2, m1[k2], g) by {
        if on(m, st2, m1[k2], g) {
            lemma_cut_monotone(m, st, e, m1[k1].root.id() as int, g);
            lemma_cut_monotone(m, st, e, m1[k2].root.id() as int, g);
            if add && (k1 == nk || k2 == nk) {
                let ko = if k1 == nk {
                    k2
                } else {
                    k1
                };
                assert(m1[ko] == m0[ko]);
                lemma_reachable_transitive(m, st, Policy::Island, ri, nr, g);
                if ko == ki {
                    lemma_reachable_symmetric(m, st2, Policy::Island, nr, g);
                    lemma_reachable_transitive(m, st2, Policy::Island, ri, g, nr);
                } else {
                    assert(on(m, st, m0[ki], g) && on(m, st, m0[ko], g));
                }
            } else {
                assert(m1[k1] == m0[k1] && m1[k2] == m0[k2]);
                assert(on(m, st, m0[k1], g) && on(m, st, m0[k2], g));
            }
        }
    }
}

/// A join merges two islands that were apart into one, and the other
/// islands, holding neither face of the edge, do not grow.
proof fn lemma_join_disjoint(
    m: Model,
    st: Seq<EdgeStatus>,
    e: int,
    m0: Map<IslandKey, Island>,
    ka: IslandKey,
    kb: IslandKey,
    swap: bool,
)
    requires
        m.wf(),
        st.len() == m.edges@.len(),
        0 <= e < m.edges@.len(),
        st[e] is Cut,
        m.edges@[e].f1 is Some,
        m0.contains_key(ka),
        m0.contains_key(kb),
        ka != kb,
        reachable(m, st, Policy::Island, m0[ka].root.id() as int, m.edges@[e].f0.id() as int),
        reachable(m, st, Policy::Island, m0[kb].root.id() as int, m.edges@[e].f1->0.id() as int),
        disjoint_by(m, st, m0),
    ensures
        disjoint_by(m, st.update(e, EdgeStatus::Joined), joined_map(m0, ka, kb, swap)),
{
    let st2 = st.update(e, EdgeStatus::Joined);
    let st3 = st2.update(e, EdgeStatus::Cut(false));
    let m1 = joined_map(m0, ka, kb, swap);
    let fa = m.edges@[e].f0.id() as int;
    let fb = m.edges@[e].f1->0.id() as int;
    let ra = m0[ka].root.id() as int;
    let rb = m0[kb].root.id() as int;
    assert(st2.len() == m.edges@.len());
    assert(st3.len() == m.edges@.len());
    assert forall|x: int| 0 <= x < st3.len() && crosses(Policy::Island, #[trigger] st3[x]) implies crosses(
        Policy::Island,
        st[x],
    ) by {
        if x == e {
        }
    }
    // what a walk reaches after the join, it reached before, or it passes
    // through a face of the edge
    assert forall|a: int, g: int| #[trigger] reachable(m, st2, Policy::Island, a, g) implies reachable(m, st, Policy::Island, a, g)
        || reachable(m, st, Policy::Island, a, fa) || reachable(m, st, Policy::Island, a, fb) by {
        let p = choose|p: Seq<int>| #[trigger] is_path(m, st2, Policy::Island, p) && p[0] == a && p.last() == g;
        assert(st2[e] == EdgeStatus::Joined);
        lemma_first_hit_or_end(m, st2, e, fa, fb, p, 0);
        if reachable(m, st3, Policy::Island, a, fa) {
            lemma_reach_more(m, st3, st, Policy::Island, a, fa);
        } else if reachable(m, st3, Policy::Island, a, fb) {
            lemma_reach_more(m, st3, st, Policy::Island, a, fb);
        } else {
            lemma_reach_more(m, st3, st, Policy::Island, a, g);
        }
    }
    let rs = if swap {
        rb
    } else {
        ra
    };
    assert(m1.contains_key(ka) && m1[ka].root.id() as int == rs);
    assert forall|k1: IslandKey, k2: IslandKey, g: int|
        m1.contains_key(k1) && m1.contains_key(k2) && k1 != k2 && on(m, st2, m1[k1], g)
        implies !on(m, st2, m1[k2], g) by {
        if on(m, st2, m1[k2], g) {
            // an island other than the merged one stays as it was
            assert forall|k: IslandKey| m1.contains_key(k) && k != ka && on(m, st2, m1[k], g) implies #[trigger] on(
                m,
                st,
                m0[k],
                g,
            ) by {
                assert(m1[k] == m0[k] && k != kb);
                let rk = m0[k].root.id() as int;
                if reachable(m, st, Policy::Island, rk, fa) {
                    assert(on(m, st, m0[k], fa) && on(m, st, m0[ka], fa));
                } else if reachable(m, st, Policy::Island, rk, fb) {
                    assert(on(m, st, m0[k], fb) && on(m, st, m0[kb], fb));
                }
            }
            let ko = if k1 == ka {
                k2
            } else {
                k1
            };
            if k1 != ka && k2 != ka {
                assert(on(m, st, m0[k1], g) && on(m, st, m0[k2], g));
            } else {
                assert(on(m, st, m0[ko], g));
                assert(ko != kb);
                // the merged island reached g through one of the two old roots
                lemma_reachable_symmetric(m, st2, Policy::Island, rs, g);
                assert(reachable(m, st2, Policy::Island, g, rs));
                lemma_reachable_in_range(m, st, Policy::Island, ra, fa);
                lemma_reachable_in_range(m, st, Policy::Island, rb, fb);
                if reachable(m, st, Policy::Island, g, fa) {
                    lemma_reachable_symmetric(m, st, Policy::Island, g, fa);
                    lemma_reachable_transitive(m, st, Policy::Island, ra, fa, g);
                    assert(on(m, st, m0[ka], g) && on(m, st, m0[ko], g));
                } else if reachable(m, st, Policy::Island, g, fb) {
                    lemma_reachable_symmetric(m, st, Policy::Island, g, fb);
                    lemma_reachable_transitive(m, st, Policy::Island, rb, fb, g);
                    assert(on(m, st, m0[kb], g) && on(m, st, m0[ko], g));
                } else {
                    assert(reachable(m, st, Policy::Island, g, rs));
                    lemma_reachable_symmetric(m, st, Policy::Island, g, rs);
                    if swap {
                        assert(on(m, st, m0[kb], g) && on(m, st, m0[ko], g));
                    } else {
                        assert(on(m, st, m0[ka], g) && on(m, st, m0[ko], g));
                    }
                }
            }
        }
    }
}

} // verus!
