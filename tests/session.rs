use papercraft::builder::MeshBuilder;
use papercraft::craft::{initial_edge_status, Papercraft};
use papercraft::index::{EdgeIndex, FaceIndex, MaterialIndex, VertexIndex};
use papercraft::model::Model;
use papercraft::session::{
    EditSession, UndoAction, UndoResult, REBUILD_ANY_REDRAW_PAPER, REBUILD_ANY_REDRAW_SCENE, REBUILD_PAPER,
    REBUILD_SCENE_EDGE, REBUILD_SELECTION,
};
use papercraft::status::EdgeStatus;

const QUADS: [[u32; 4]; 6] = [
    [0, 3, 2, 1],
    [4, 5, 6, 7],
    [0, 1, 5, 4],
    [2, 3, 7, 6],
    [0, 4, 7, 3],
    [1, 2, 6, 5],
];

fn session() -> (EditSession, Vec<((u32, u32), (u32, u32))>) {
    let mut b = MeshBuilder::new(8);
    for (q, quad) in QUADS.iter().enumerate() {
        for tri in [[0usize, 1, 2], [0, 2, 3]] {
            b.add_triangle(tri.map(|i| VertexIndex(quad[i])), tri.map(|i| (0u32, quad[i])), MaterialIndex(0), q as u32);
        }
    }
    let model = Model { faces: b.model.faces.clone(), edges: b.model.edges.clone(), num_vertices: 8 };
    let st = initial_edge_status(&model, &b.facemap);
    (EditSession::new(Papercraft::new(model, st)), b.idx_edges.clone())
}

fn edge(idx: &[((u32, u32), (u32, u32))], x: u32, y: u32) -> EdgeIndex {
    let i = idx.iter().position(|&p| p == ((0, x), (0, y)) || p == ((0, y), (0, x))).unwrap();
    EdgeIndex(i as u32)
}

fn snapshot(s: &EditSession) -> (Vec<EdgeStatus>, Vec<(u32, u32)>) {
    let p = &s.papercraft;
    let mut islands: Vec<(u32, u32)> = p
        .island_keys()
        .into_iter()
        .map(|k| p.island_by_key(k).unwrap())
        .map(|i| (i.root.0, i.place))
        .collect();
    islands.sort();
    (p.edges.clone(), islands)
}

#[test]
fn tab_toggle_then_undo_restores() {
    let (mut s, idx) = session();
    let before = snapshot(&s);
    let e = edge(&idx, 0, 1);
    assert_eq!(s.do_tab_action(e), REBUILD_PAPER | REBUILD_SCENE_EDGE | REBUILD_SELECTION);
    assert_eq!(s.papercraft.edge_status(e), EdgeStatus::Cut(true));
    assert!(s.modified);
    assert_eq!(s.undo_action(), UndoResult::Model);
    assert_eq!(snapshot(&s), before);
    assert!(!s.modified);
    assert_eq!(s.undo_action(), UndoResult::False);
}

#[test]
fn tab_action_on_hidden_edge_records_nothing() {
    let (mut s, idx) = session();
    assert_eq!(s.do_tab_action(edge(&idx, 0, 2)), 0);
    assert!(!s.can_undo());
}

#[test]
fn join_then_undo_restores() {
    let (mut s, idx) = session();
    let before = snapshot(&s);
    let e = edge(&idx, 1, 5);
    let (undo, cut) = s.edge_toggle_cut(e, Some(FaceIndex(4)), 50);
    assert!(cut.is_none());
    s.push_undo_action(undo.unwrap());
    assert_eq!(s.papercraft.num_islands(), 5);
    assert_eq!(s.undo_action(), UndoResult::Model);
    assert_eq!(snapshot(&s), before);
}

#[test]
fn cut_then_undo_restores_statuses() {
    let (mut s, idx) = session();
    let e = edge(&idx, 1, 5);
    let (undo, _) = s.edge_toggle_cut(e, None, 50);
    s.push_undo_action(undo.unwrap());
    let joined = snapshot(&s);
    let (undo, cut) = s.edge_toggle_cut(e, None, 51);
    assert!(cut.is_some());
    s.push_undo_action(undo.unwrap());
    assert_eq!(s.papercraft.num_islands(), 6);
    assert_eq!(s.undo_action(), UndoResult::Model);
    assert_eq!(snapshot(&s).0, joined.0);
    assert_eq!(s.papercraft.num_islands(), 5);
}

#[test]
fn strip_action_records_every_join() {
    let (mut s, idx) = session();
    let (flags, cut) = s.do_edge_action(edge(&idx, 1, 5), None, true, 0);
    assert_eq!(flags, REBUILD_PAPER | REBUILD_SCENE_EDGE | REBUILD_SELECTION);
    assert!(cut.is_none());
    assert_eq!(s.undo_stack.len(), 1);
    assert_eq!(s.undo_stack[0].len(), 4);
    assert!(matches!(s.undo_stack[0][3], UndoAction::Modified));
    assert_eq!(s.papercraft.num_islands(), 3);
}

#[test]
fn undo_refused_while_dragging() {
    let (mut s, idx) = session();
    s.do_tab_action(edge(&idx, 0, 1));
    s.grabbing = true;
    assert_eq!(s.undo_action(), UndoResult::False);
    assert!(s.can_undo());
}

#[test]
fn empty_action_group_is_not_recorded() {
    let (mut s, _) = session();
    s.push_undo_action(Vec::new());
    assert!(!s.can_undo());
    assert!(!s.modified);
    s.push_undo_action(vec![UndoAction::IslandMove { i_root: FaceIndex(0), prev_place: 3 }]);
    s.push_undo_action(vec![UndoAction::IslandMove { i_root: FaceIndex(2), prev_place: 4 }]);
    assert_eq!(s.undo_stack[0].len(), 2);
    assert_eq!(s.undo_stack[1].len(), 1);
    assert_eq!(s.undo_action(), UndoResult::Model);
    let k = s.papercraft.island_by_root(FaceIndex(2)).unwrap();
    assert_eq!(s.papercraft.island_by_key(k).unwrap().place, 4);
}

#[test]
fn redraw_flag_unions() {
    assert_eq!(REBUILD_ANY_REDRAW_PAPER, 1 | 2 | 8 | 16);
    assert_eq!(REBUILD_ANY_REDRAW_SCENE, 4 | 8 | 32);
}

fn island_sizes(s: &EditSession) -> Vec<u32> {
    let p = &s.papercraft;
    let mut v: Vec<u32> =
        p.island_keys().into_iter().map(|k| p.island_face_count(&p.island_by_key(k).unwrap())).collect();
    v.sort();
    v
}

#[test]
fn edge_toggle_double_click_keeps_partition() {
    let (mut s, idx) = session();
    let e = edge(&idx, 2, 6);
    let before = island_sizes(&s);
    let (u1, c1) = s.edge_toggle_cut(e, None, 40);
    assert!(u1.is_some() && c1.is_none());
    assert_eq!(s.papercraft.edge_status(e), EdgeStatus::Joined);
    let (u2, c2) = s.edge_toggle_cut(e, None, 41);
    assert!(u2.is_some() && c2.is_some());
    assert_eq!(s.papercraft.edge_status(e), EdgeStatus::Cut(false));
    assert_eq!(island_sizes(&s), before);
}

#[test]
fn toggling_a_hidden_edge_does_nothing() {
    let (mut s, idx) = session();
    let (u, c) = s.edge_toggle_cut(edge(&idx, 0, 2), None, 0);
    assert!(u.is_none() && c.is_none());
}

#[test]
fn move_then_undo_restores_placement() {
    let (mut s, _) = session();
    let k = s.papercraft.island_by_root(FaceIndex(4)).unwrap();
    let island = s.papercraft.island_by_key(k).unwrap();
    s.push_undo_action(vec![UndoAction::IslandMove { i_root: FaceIndex(4), prev_place: island.place }]);
    let mut moved = island;
    moved.place = 77;
    assert!(s.papercraft.set_island(k, moved));
    assert_eq!(s.undo_action(), UndoResult::Model);
    assert_eq!(s.papercraft.island_by_key(k).unwrap().place, island.place);
}

#[test]
fn options_change_undo_reports_options() {
    let (mut s, _) = session();
    let k = s.papercraft.island_by_root(FaceIndex(2)).unwrap();
    let island = s.papercraft.island_by_key(k).unwrap();
    s.push_undo_action(vec![
        UndoAction::DocConfig { prev_options: 0 },
        UndoAction::IslandMove { i_root: FaceIndex(2), prev_place: island.place },
    ]);
    let mut moved = island;
    moved.place = 60;
    s.papercraft.set_island(k, moved);
    assert_eq!(s.undo_action(), UndoResult::ModelAndOptions);
    assert_eq!(s.papercraft.island_by_key(k).unwrap().place, island.place);
    assert!(!s.modified);
}
