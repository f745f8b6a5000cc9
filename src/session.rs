//! The editing session: edits as the user makes them, each recorded so that
//! it can be undone, and what the views must rebuild after each.
use vstd::prelude::*;

use crate::craft::{CutResult, JoinResult, Papercraft, toggled};
use crate::index::{EdgeIndex, FaceIndex};
use crate::islands::{Island, IslandKey, slot_count};
use crate::status::EdgeStatus;

verus! {

/// Rebuild the page outlines.
pub const REBUILD_PAGES: u32 = 1;
/// Rebuild the paper geometry.
pub const REBUILD_PAPER: u32 = 2;
/// Rebuild the edge lines of the 3D view.
pub const REBUILD_SCENE_EDGE: u32 = 4;
/// Rebuild the selection highlights.
pub const REBUILD_SELECTION: u32 = 8;
/// Redraw the paper view.
pub const REBUILD_PAPER_REDRAW: u32 = 16;
/// Redraw the 3D view.
pub const REBUILD_SCENE_REDRAW: u32 = 32;
/// Everything that makes the paper view draw again.
pub const REBUILD_ANY_REDRAW_PAPER: u32 = REBUILD_PAGES | REBUILD_PAPER | REBUILD_SELECTION
    | REBUILD_PAPER_REDRAW;
/// Everything that makes the 3D view draw again.
pub const REBUILD_ANY_REDRAW_SCENE: u32 = REBUILD_SCENE_EDGE | REBUILD_SELECTION
    | REBUILD_SCENE_REDRAW;

/// What a click does.
#[derive(Debug, Clone, Copy, PartialEq, Eq, Structural)]
pub enum MouseMode {
    Face,
    Edge,
    Tab,
    ReadOnly,
}

/// What a click hit.
#[derive(Debug, Clone, Copy, PartialEq, Eq, Structural)]
pub enum ClickResult {
    Nothing,
    Face(FaceIndex),
    Edge(EdgeIndex, Option<FaceIndex>),
}

/// One recorded edit. Islands are named by their root face, since keys do
/// not outlive joins and cuts.
#[derive(Debug, Clone, Copy)]
pub enum UndoAction {
    IslandMove { i_root: FaceIndex, prev_place: u32 },
    TabToggle { i_edge: EdgeIndex },
    EdgeCut { i_edge: EdgeIndex },
    EdgeJoin { join_result: JoinResult },
    /// An options change: `prev_options` names the previous options in the
    /// caller's table; the islands' previous placements are recorded beside
    /// it as island moves.
    DocConfig { prev_options: u32 },
    Modified,
}

#[derive(Debug, Clone, Copy, PartialEq, Eq, Structural)]
pub enum UndoResult {
    False,
    Model,
    ModelAndOptions,
}

pub struct EditSession {
    pub papercraft: Papercraft,
    pub undo_stack: Vec<Vec<UndoAction>>,
    pub modified: bool,
    pub grabbing: bool,
}

/// Whether a group of actions holds the sentinel of the first change.
pub open spec fn has_modified(a: Seq<UndoAction>) -> bool {
    exists|i: int| 0 <= i < a.len() && #[trigger] a[i] is Modified
}

/// A group that records one tab toggle of edge `e` and nothing else but,
/// maybe, the sentinel.
pub open spec fn only_tab_toggle(a: Seq<UndoAction>, e: EdgeIndex) -> bool {
    single(a, UndoAction::TabToggle { i_edge: e })
}

/// Whether a group of actions changed the options.
pub open spec fn has_config(a: Seq<UndoAction>) -> bool {
    exists|i: int| 0 <= i < a.len() && #[trigger] a[i] is DocConfig
}

/// A group that records the one action `act` and nothing else but, maybe,
/// the sentinel.
pub open spec fn single(a: Seq<UndoAction>, act: UndoAction) -> bool {
    &&& 1 <= a.len() <= 2
    &&& a[0] == act
    &&& a.len() == 2 ==> a[1] is Modified
}

/// What undoing `act` on document `p0` leaves in `p`, where the action
/// fits the document.
pub open spec fn undone(p0: Papercraft, p: Papercraft, act: UndoAction) -> bool {
    match act {
        UndoAction::TabToggle { i_edge } => i_edge.id() < p0.model.edges@.len() ==> p.edges@
            == toggled(p0.model, p0.edges@, i_edge.id() as int) && p.view_islands() == p0.view_islands(),
        UndoAction::EdgeCut { i_edge } => (i_edge.id() < p0.model.edges@.len() && p0.joinable(
            i_edge.id() as int,
        )) ==> p.edges@ == p0.edges@.update(i_edge.id() as int, EdgeStatus::Joined)
            && p.view_islands().len() + 1 == p0.view_islands().len(),
        UndoAction::EdgeJoin { join_result: jr } => (jr.i_edge.id() < p0.model.edges@.len()
            && jr.prev_root.id() < p0.model.faces@.len() && p0.edges@[jr.i_edge.id() as int]
            == EdgeStatus::Joined && p0.model.edges@[jr.i_edge.id() as int].f1 is Some) ==> p.edges@
            == p0.edges@.update(jr.i_edge.id() as int, EdgeStatus::Cut(false)) && exists|k: IslandKey|
            #[trigger] p.view_islands().contains_key(k) && p.view_islands()[k] == (Island {
                root: jr.prev_root,
                place: jr.prev_place,
            }),
        UndoAction::IslandMove { i_root, prev_place } => (i_root.id() < p0.model.faces@.len()
            && exists|k: IslandKey| #[trigger]
            p0.view_islands().contains_key(k) && p0.view_islands()[k].root == i_root) ==> p.edges@
            == p0.edges@ && exists|k: IslandKey| #[trigger]
            p.view_islands().contains_key(k) && p.view_islands()[k] == (Island {
                root: i_root,
                place: prev_place,
            }),
        UndoAction::DocConfig { .. } => p == p0,
        UndoAction::Modified => true,
    }
}

impl EditSession {
    pub open spec fn wf(&self) -> bool {
        self.papercraft.wf()
    }

    pub fn new(papercraft: Papercraft) -> (r: EditSession)
        requires
            papercraft.wf(),
        ensures
            r.wf(),
            r.papercraft == papercraft,
            r.undo_stack@.len() == 0,
            !r.modified,
            !r.grabbing,
    {
        EditSession { papercraft, undo_stack: Vec::new(), modified: false, grabbing: false }
    }

    pub fn can_undo(&self) -> (r: bool)
        ensures
            r == (self.undo_stack@.len() > 0),
    {
        self.undo_stack.len() > 0
    }

    /// Records one gesture's actions; the first change after a save also
    /// records the sentinel, so that undoing it clears the modified flag.
    pub fn push_undo_action(&mut self, action: Vec<UndoAction>)
        ensures
            final(self).papercraft == old(self).papercraft,
            final(self).grabbing == old(self).grabbing,
            action@.len() == 0 ==> final(self).undo_stack@ == old(self).undo_stack@
                && final(self).modified == old(self).modified,
            action@.len() > 0 ==> final(self).undo_stack@.len() == old(self).undo_stack@.len() + 1
                && final(self).undo_stack@.drop_last() == old(self).undo_stack@ && final(self).modified,
            action@.len() > 0 && !old(self).modified ==> final(self).undo_stack@.last()@ == action@.push(
                UndoAction::Modified,
            ),
            action@.len() > 0 && old(self).modified ==> final(self).undo_stack@.last()@ == action@,
    {
        if action.len() == 0 {
            return;
        }
        let mut action = action;
        if !self.modified {
            action.push(UndoAction::Modified);
            self.modified = true;
        }
        self.undo_stack.push(action);
    }

    /// Cuts a fold or joins a cut, as a click in edge mode does. Hidden edges
    /// are left alone. A new island from a cut gets placement `place`.
    /// Returns the actions to record and, for a cut, what it did.
    pub fn edge_toggle_cut(
        &mut self,
        i_edge: EdgeIndex,
        priority: Option<FaceIndex>,
        place: u32,
    ) -> (r: (Option<Vec<UndoAction>>, Option<CutResult>))
        requires
            old(self).wf(),
            i_edge.id() < old(self).papercraft.model.edges@.len(),
            slot_count(old(self).papercraft.islands) < u32::MAX,
        ensures
            final(self).wf(),
            final(self).papercraft.model == old(self).papercraft.model,
            final(self).undo_stack@ == old(self).undo_stack@,
            final(self).modified == old(self).modified,
            slot_count(final(self).papercraft.islands) <= slot_count(old(self).papercraft.islands) + 1,
            r.0 is None ==> final(self).papercraft.edges@ == old(self).papercraft.edges@
                && final(self).papercraft.view_islands() == old(self).papercraft.view_islands(),
            old(self).papercraft.edges@[i_edge.id() as int] is Hidden ==> r.0 is None,
            r.1 is Some ==> r.0 is Some && r.0->0@ == seq![UndoAction::EdgeCut { i_edge }]
                && old(self).papercraft.edges@[i_edge.id() as int] == EdgeStatus::Joined
                && final(self).papercraft.edges@ == old(self).papercraft.edges@.update(
                i_edge.id() as int,
                EdgeStatus::Cut(false),
            ),
            r.0 is Some && r.1 is None ==> old(self).papercraft.edges@[i_edge.id() as int] is Cut
                && final(self).papercraft.edges@ == old(self).papercraft.edges@.update(
                i_edge.id() as int,
                EdgeStatus::Joined,
            ) && r.0->0@.len() == 1 && r.0->0@[0] is EdgeJoin,
            old(self).papercraft.edges@[i_edge.id() as int] == EdgeStatus::Joined
                && old(self).papercraft.model.edges@[i_edge.id() as int].f1 is Some ==> r.1 is Some,
            old(self).papercraft.joinable(i_edge.id() as int) ==> r.0 is Some && r.1 is None,
            r.0 is None <==> !(old(self).papercraft.edges@[i_edge.id() as int] == EdgeStatus::Joined
                && old(self).papercraft.model.edges@[i_edge.id() as int].f1 is Some)
                && !old(self).papercraft.joinable(i_edge.id() as int),
    {
        match self.papercraft.edge_status(i_edge) {
            EdgeStatus::Hidden => (None, None),
            EdgeStatus::Joined => {
                match self.papercraft.edge_cut(i_edge, place) {
                    Some(c) => {
                        let mut v: Vec<UndoAction> = Vec::new();
                        v.push(UndoAction::EdgeCut { i_edge });
                        (Some(v), Some(c))
                    },
                    None => (None, None),
                }
            },
            EdgeStatus::Cut(_) => {
                match self.papercraft.edge_join(i_edge, priority) {
                    Some(j) => {
                        let mut v: Vec<UndoAction> = Vec::new();
                        v.push(UndoAction::EdgeJoin { join_result: j });
                        (Some(v), None)
                    },
                    None => (None, None),
                }
            },
        }
    }

    /// A click on an edge in edge mode: with shift, joins the strip of
    /// quads from there; else toggles cut and fold. Records what changed.
    pub fn do_edge_action(
        &mut self,
        i_edge: EdgeIndex,
        priority: Option<FaceIndex>,
        shift_action: bool,
        place: u32,
    ) -> (r: (u32, Option<CutResult>))
        requires
            old(self).wf(),
            i_edge.id() < old(self).papercraft.model.edges@.len(),
            slot_count(old(self).papercraft.islands) < u32::MAX,
        ensures
            final(self).wf(),
            final(self).papercraft.model == old(self).papercraft.model,
            slot_count(final(self).papercraft.islands) <= slot_count(old(self).papercraft.islands) + 1,
            r.0 == REBUILD_PAPER | REBUILD_SCENE_EDGE | REBUILD_SELECTION,
            final(self).undo_stack@.len() == old(self).undo_stack@.len() || (final(self).undo_stack@.len()
                == old(self).undo_stack@.len() + 1 && final(self).undo_stack@.drop_last() == old(self).undo_stack@),
            final(self).undo_stack@.len() == old(self).undo_stack@.len() ==> final(self).undo_stack@
                == old(self).undo_stack@ && final(self).papercraft.edges@ == old(self).papercraft.edges@
                && final(self).papercraft.view_islands() == old(self).papercraft.view_islands(),
            final(self).undo_stack@.len() > old(self).undo_stack@.len() ==> final(self).papercraft.edges@
                != old(self).papercraft.edges@,
            !shift_action && old(self).papercraft.edges@[i_edge.id() as int] == EdgeStatus::Joined
                && old(self).papercraft.model.edges@[i_edge.id() as int].f1 is Some ==> {
                &&& r.1 is Some
                &&& final(self).papercraft.edges@ == old(self).papercraft.edges@.update(
                    i_edge.id() as int,
                    EdgeStatus::Cut(false),
                )
                &&& final(self).undo_stack@.len() == old(self).undo_stack@.len() + 1
                &&& final(self).undo_stack@.last()@[0] == UndoAction::EdgeCut { i_edge }
            },
            !shift_action && old(self).papercraft.joinable(i_edge.id() as int) ==> {
                &&& final(self).papercraft.edges@ == old(self).papercraft.edges@.update(
                    i_edge.id() as int,
                    EdgeStatus::Joined,
                )
                &&& final(self).undo_stack@.len() == old(self).undo_stack@.len() + 1
                &&& final(self).undo_stack@.last()@[0] is EdgeJoin
            },
            shift_action && old(self).papercraft.joinable(i_edge.id() as int) ==> final(self).papercraft.edges@[i_edge.id() as int] == EdgeStatus::Joined
                && final(self).undo_stack@.len() == old(self).undo_stack@.len() + 1,
            shift_action ==> (final(self).undo_stack@.len() - old(self).undo_stack@.len())
                + final(self).papercraft.view_islands().len() <= old(self).papercraft.view_islands().len(),
    {
        let (undo, cut) = if shift_action {
            let joins = self.papercraft.try_join_strip(i_edge);
            let mut v: Vec<UndoAction> = Vec::new();
            let mut i: usize = 0;
            while i < joins.len()
                invariant
                    i <= joins@.len(),
                    v@.len() == i,
                decreases joins@.len() - i,
            {
                v.push(UndoAction::EdgeJoin { join_result: joins[i] });
                i += 1;
            }
            (Some(v), None)
        } else {
            self.edge_toggle_cut(i_edge, priority, place)
        };
        if let Some(undo) = undo {
            self.push_undo_action(undo);
        }
        (REBUILD_PAPER | REBUILD_SCENE_EDGE | REBUILD_SELECTION, cut)
    }

    /// A click on an edge in tab mode: moves the tab to the other side and
    /// records it, if the edge has another side.
    pub fn do_tab_action(&mut self, i_edge: EdgeIndex) -> (r: u32)
        requires
            old(self).wf(),
            i_edge.id() < old(self).papercraft.model.edges@.len(),
        ensures
            final(self).wf(),
            final(self).papercraft.model == old(self).papercraft.model,
            final(self).papercraft.islands == old(self).papercraft.islands,
            final(self).papercraft.edges@ == toggled(
                old(self).papercraft.model,
                old(self).papercraft.edges@,
                i_edge.id() as int,
            ),
            final(self).papercraft.edges@ == old(self).papercraft.edges@ ==> r == 0
                && final(self).undo_stack@ == old(self).undo_stack@,
            final(self).papercraft.edges@ != old(self).papercraft.edges@ ==> r == REBUILD_PAPER
                | REBUILD_SCENE_EDGE | REBUILD_SELECTION && final(self).undo_stack@.len()
                == old(self).undo_stack@.len() + 1 && only_tab_toggle(
                final(self).undo_stack@.last()@,
                i_edge,
            ),
    {
        let before = self.papercraft.edge_status(i_edge);
        self.papercraft.edge_toggle_tab(i_edge);
        let after = self.papercraft.edge_status(i_edge);
        if before == after {
            proof {
                assert(self.papercraft.edges@ =~= old(self).papercraft.edges@);
            }
            return 0;
        }
        let mut v: Vec<UndoAction> = Vec::new();
        v.push(UndoAction::TabToggle { i_edge });
        proof {
            assert(self.papercraft.edges@[i_edge.id() as int] != old(self).papercraft.edges@[i_edge.id() as int]);
        }
        self.push_undo_action(v);
        REBUILD_PAPER | REBUILD_SCENE_EDGE | REBUILD_SELECTION
    }

    /// Undoes the last recorded gesture, its actions last first. Refused
    /// while an island is being dragged.
    pub fn undo_action(&mut self) -> (r: UndoResult)
        requires
            old(self).wf(),
            old(self).undo_stack@.len() > 0 ==> slot_count(old(self).papercraft.islands)
                + old(self).undo_stack@.last()@.len() < u32::MAX,
        ensures
            final(self).wf(),
            final(self).papercraft.model == old(self).papercraft.model,
            final(self).grabbing == old(self).grabbing,
            (r == UndoResult::False) == (old(self).grabbing || old(self).undo_stack@.len() == 0),
            r == UndoResult::False ==> final(self).papercraft == old(self).papercraft
                && final(self).undo_stack@ == old(self).undo_stack@ && final(self).modified == old(self).modified,
            r != UndoResult::False ==> {
                &&& (r == UndoResult::ModelAndOptions <==> has_config(old(self).undo_stack@.last()@))
                &&& (r == UndoResult::Model <==> !has_config(old(self).undo_stack@.last()@))
                &&& final(self).undo_stack@ == old(self).undo_stack@.drop_last()
                &&& final(self).modified == (old(self).modified && !has_modified(
                    old(self).undo_stack@.last()@,
                ))
            },
            forall|act: UndoAction|
                r != UndoResult::False && #[trigger] single(old(self).undo_stack@.last()@, act)
                    ==> undone(old(self).papercraft, final(self).papercraft, act),
    {
        if self.grabbing {
            return UndoResult::False;
        }
        let pack = match self.undo_stack.pop() {
            None => {
                return UndoResult::False;
            },
            Some(a) => a,
        };
        let ghost p0 = self.papercraft;
        let mut i: usize = pack.len();
        let mut saw_modified = false;
        let mut saw_config = false;
        while i > 0
            invariant
                self.wf(),
                self.papercraft.model == old(self).papercraft.model,
                self.grabbing == old(self).grabbing,
                old(self).undo_stack@.len() > 0,
                self.undo_stack@ == old(self).undo_stack@.drop_last(),
                pack@ == old(self).undo_stack@.last()@,
                i <= pack@.len(),
                slot_count(self.papercraft.islands) + i < u32::MAX,
                self.modified == old(self).modified,
                saw_modified == exists|j: int| i <= j < pack@.len() && #[trigger] pack@[j] is Modified,
                saw_config == exists|j: int| i <= j < pack@.len() && #[trigger] pack@[j] is DocConfig,
                i == pack@.len() ==> self.papercraft == p0,
                forall|act: UndoAction| #[trigger] single(pack@, act) && i == 0 ==> undone(p0, self.papercraft, act),
                forall|act: UndoAction| #[trigger] single(pack@, act) && i == 1 ==> self.papercraft == p0,
            decreases i,
        {
            i -= 1;
            let ghost before = self.papercraft;
            match pack[i] {
                UndoAction::IslandMove { i_root, prev_place } => {
                    if (i_root.0 as usize) < self.papercraft.model.faces.len() {
                        if let Some(k) = self.papercraft.island_by_root(i_root) {
                            proof {
                                crate::craft::lemma_reach_self(
                                    self.papercraft.model,
                                    self.papercraft.edges@,
                                    crate::traverse::Policy::Island,
                                    i_root.id() as int,
                                );
                            }
                            self.papercraft.set_island(k, Island { root: i_root, place: prev_place });
                            proof {
                                assert(self.papercraft.view_islands().contains_key(k) && self.papercraft.view_islands()[k]
                                    == (Island { root: i_root, place: prev_place }));
                            }
                        }
                    }
                },
                UndoAction::TabToggle { i_edge } => {
                    if (i_edge.0 as usize) < self.papercraft.model.edges.len() {
                        self.papercraft.edge_toggle_tab(i_edge);
                    }
                },
                UndoAction::EdgeCut { i_edge } => {
                    if (i_edge.0 as usize) < self.papercraft.model.edges.len() {
                        let j = self.papercraft.edge_join(i_edge, None);
                        proof {
                            if j is Some {
                                let jr = j->0;
                                let m0 = before.view_islands();
                                assert(m0.dom().contains(jr.removed));
                                if before.yields(m0[jr.i_island], m0[jr.removed], None) {
                                    assert(m0.remove(jr.removed).insert(jr.i_island, m0[jr.removed]).dom()
                                        =~= m0.dom().remove(jr.removed));
                                }
                                assert(self.papercraft.view_islands().dom() =~= m0.dom().remove(jr.removed));
                            }
                        }
                    }
                },
                UndoAction::EdgeJoin { join_result } => {
                    if (join_result.i_edge.0 as usize) < self.papercraft.model.edges.len()
                        && (join_result.prev_root.0 as usize) < self.papercraft.model.faces.len() {
                        self.papercraft.edge_cut(join_result.i_edge, join_result.prev_place);
                        if let Some(k) = self.papercraft.find_island_by_face(join_result.prev_root) {
                            self.papercraft.set_island(
                                k,
                                Island { root: join_result.prev_root, place: join_result.prev_place },
                            );
                            proof {
                                assert(self.papercraft.view_islands().contains_key(k) && self.papercraft.view_islands()[k]
                                    == (Island { root: join_result.prev_root, place: join_result.prev_place }));
                            }
                        }
                    }
                },
                UndoAction::DocConfig { .. } => {
                    saw_config = true;
                },
                UndoAction::Modified => {
                    saw_modified = true;
                },
            }
            proof {
                assert(undone(before, self.papercraft, pack@[i as int]));
                assert forall|act: UndoAction| #[trigger] single(pack@, act) && i == 1 implies self.papercraft == p0 by {
                    assert(pack@[1] is Modified);
                }
                assert forall|act: UndoAction| #[trigger] single(pack@, act) && i == 0 implies undone(p0, self.papercraft, act) by {
                    assert(before == p0);
                    assert(pack@[0] == act);
                }
            }
        }
        if saw_modified {
            self.modified = false;
        }
        proof {
            assert(saw_modified == has_modified(pack@));
            assert(saw_config == has_config(pack@));
        }
        if saw_config {
            UndoResult::ModelAndOptions
        } else {
            UndoResult::Model
        }
    }
}

} // verus!
