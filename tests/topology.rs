use papercraft::builder::MeshBuilder;
use papercraft::craft::{initial_edge_status, Papercraft};
use papercraft::index::{EdgeIndex, FaceIndex, MaterialIndex, VertexIndex};
use papercraft::model::Model;
use papercraft::status::EdgeStatus;

const QUADS: [[u32; 4]; 6] = [
    [0, 3, 2, 1],
    [4, 5, 6, 7],
    [0, 1, 5, 4],
    [2, 3, 7, 6],
    [0, 4, 7, 3],
    [1, 2, 6, 5],
];

fn cube_builder() -> MeshBuilder {
    let mut b = MeshBuilder::new(8);
    for (q, quad) in QUADS.iter().enumerate() {
        for tri in [[0usize, 1, 2], [0, 2, 3]] {
            let verts = tri.map(|i| VertexIndex(quad[i]));
            let orig = tri.map(|i| (0u32, quad[i]));
            assert!(b.add_triangle(verts, orig, MaterialIndex(0), q as u32));
        }
    }
    b
}

fn find_edge(b: &MeshBuilder, x: u32, y: u32) -> EdgeIndex {
    let i = b
        .idx_edges
        .iter()
        .position(|&(p0, p1)| (p0, p1) == ((0, x), (0, y)) || (p0, p1) == ((0, y), (0, x)))
        .unwrap();
    EdgeIndex(i as u32)
}

fn cube() -> (Papercraft, MeshBuilder) {
    let b = cube_builder();
    let model = Model {
        faces: b.model.faces.clone(),
        edges: b.model.edges.clone(),
        num_vertices: b.model.num_vertices,
    };
    let st = initial_edge_status(&model, &b.facemap);
    (Papercraft::new(model, st), b)
}

fn island_counts(p: &Papercraft) -> Vec<u32> {
    let mut v: Vec<u32> = p
        .island_keys()
        .into_iter()
        .map(|k| p.island_face_count(&p.island_by_key(k).unwrap()))
        .collect();
    v.sort();
    v
}

#[test]
fn cube_assembly_shares_every_edge() {
    let b = cube_builder();
    assert_eq!(b.model.faces.len(), 12);
    assert_eq!(b.model.edges.len(), 18);
    for e in &b.model.edges {
        assert!(e.f1.is_some());
        assert_ne!(Some(e.f0), e.f1);
    }
    for f in &b.model.faces {
        assert_ne!(f.edges[0], f.edges[1]);
        assert_ne!(f.edges[1], f.edges[2]);
        assert_ne!(f.edges[0], f.edges[2]);
    }
    assert_eq!(b.facemap, vec![0, 0, 1, 1, 2, 2, 3, 3, 4, 4, 5, 5]);
}

#[test]
fn cube_initial_status_hides_diagonals() {
    let (p, b) = cube();
    let hidden = p.edges.iter().filter(|s| **s == EdgeStatus::Hidden).count();
    let cut = p.edges.iter().filter(|s| **s == EdgeStatus::Cut(false)).count();
    assert_eq!(hidden, 6);
    assert_eq!(cut, 12);
    assert_eq!(p.edge_status(find_edge(&b, 0, 2)), EdgeStatus::Hidden);
    assert_eq!(p.edge_status(find_edge(&b, 0, 1)), EdgeStatus::Cut(false));
}

#[test]
fn cube_import_gives_six_islands() {
    let (p, _) = cube();
    assert_eq!(p.num_islands(), 6);
    assert_eq!(island_counts(&p), vec![2, 2, 2, 2, 2, 2]);
    for f in 0..12u32 {
        let k = p.island_by_face(FaceIndex(f));
        let island = p.island_by_key(k).unwrap();
        assert!(p.contains_face(&island, FaceIndex(f)));
        assert_eq!(island.root_face().0, f - f % 2);
        assert!(p.island_by_root(FaceIndex(f - f % 2)).is_some());
    }
    assert!(p.island_by_root(FaceIndex(1)).is_none());
}

#[test]
fn edge_toggle_twice_keeps_partition() {
    let (mut p, b) = cube();
    let e = find_edge(&b, 0, 1);
    let before = island_counts(&p);
    let j = p.edge_join(e, None).unwrap();
    assert_eq!(p.edge_status(e), EdgeStatus::Joined);
    assert_eq!(p.num_islands(), 5);
    assert_eq!(j.i_edge, e);
    let c = p.edge_cut(e, 99).unwrap();
    assert_eq!(p.edge_status(e), EdgeStatus::Cut(false));
    assert_eq!(p.num_islands(), 6);
    assert_eq!(island_counts(&p), before);
    assert_eq!(p.island_by_key(c.new_island.unwrap()).unwrap().place, 99);
    assert!(!c.move_old || island_counts(&p) == before);
}

#[test]
fn cut_then_join_restores_membership() {
    let (mut p, b) = cube();
    let e = find_edge(&b, 1, 5);
    p.edge_join(e, None).unwrap();
    let k = p.island_by_face(FaceIndex(4));
    let whole = p.island_face_count(&p.island_by_key(k).unwrap());
    assert_eq!(whole, 4);
    let c = p.edge_cut(e, 7).unwrap();
    let a = p.island_face_count(&p.island_by_key(c.old_island).unwrap());
    let n = p.island_face_count(&p.island_by_key(c.new_island.unwrap()).unwrap());
    assert_eq!(a + n, whole);
    assert_eq!((a, n), (2, 2));
    let root = p.island_by_key(c.old_island).unwrap().root;
    let prio = if p.model.edges[e.0 as usize].f0 == c.new_root {
        p.model.edges[e.0 as usize].f1
    } else {
        Some(p.model.edges[e.0 as usize].f0)
    };
    let j = p.edge_join(e, prio).unwrap();
    let k = p.island_by_face(root);
    assert_eq!(p.island_face_count(&p.island_by_key(k).unwrap()), whole);
    assert_eq!(p.num_islands(), 5);
    assert_eq!(j.i_edge, e);
}

#[test]
fn join_of_same_island_does_nothing() {
    let (mut p, b) = cube();
    assert!(p.edge_join(find_edge(&b, 0, 2), None).is_none());
    assert!(p.edge_cut(find_edge(&b, 0, 1), 0).is_none());
    assert_eq!(p.num_islands(), 6);
}

#[test]
fn tab_toggle_twice_is_identity() {
    let (mut p, b) = cube();
    let e = find_edge(&b, 0, 1);
    p.edge_toggle_tab(e);
    assert_eq!(p.edge_status(e), EdgeStatus::Cut(true));
    p.edge_toggle_tab(e);
    assert_eq!(p.edge_status(e), EdgeStatus::Cut(false));
    let h = find_edge(&b, 0, 2);
    p.edge_toggle_tab(h);
    assert_eq!(p.edge_status(h), EdgeStatus::Hidden);
}

#[test]
fn flat_faces_of_a_quad() {
    let (p, _) = cube();
    let mut v: Vec<u32> = p.get_flat_faces(FaceIndex(4)).iter().map(|f| f.0).collect();
    v.sort();
    assert_eq!(v, vec![4, 5]);
}

#[test]
fn strip_join_closes_the_side_ring() {
    let (mut p, b) = cube();
    let e = find_edge(&b, 1, 5);
    let r = p.try_join_strip(e);
    assert_eq!(r[0].i_edge, e);
    assert_eq!(r.len(), 3);
    assert_eq!(p.num_islands(), 3);
    assert_eq!(island_counts(&p), vec![2, 2, 8]);
    for j in &r {
        assert_eq!(p.edge_status(j.i_edge), EdgeStatus::Joined);
    }
}

#[test]
fn strip_join_on_rim_or_fold_does_nothing() {
    let (mut p, b) = cube();
    let r = p.try_join_strip(find_edge(&b, 0, 2));
    assert!(r.is_empty());
    assert_eq!(p.num_islands(), 6);
}

#[test]
fn degenerate_triangle_is_dropped() {
    let mut b = MeshBuilder::new(3);
    let v = [VertexIndex(0), VertexIndex(1), VertexIndex(2)];
    assert!(b.add_triangle(v, [(0, 0), (0, 1), (0, 2)], MaterialIndex(0), 0));
    assert!(!b.add_triangle(v, [(0, 0), (0, 1), (0, 0)], MaterialIndex(0), 1));
    assert_eq!(b.model.faces.len(), 1);
    assert_eq!(b.model.edges.len(), 3);
    assert_eq!(b.facemap, vec![0]);
}

#[test]
fn three_faced_edge_is_cloned() {
    let mut b = MeshBuilder::new(5);
    let v = |a: u32, c: u32, d: u32| [VertexIndex(a), VertexIndex(c), VertexIndex(d)];
    assert!(b.add_triangle(v(0, 1, 2), [(0, 0), (0, 1), (0, 2)], MaterialIndex(0), 0));
    assert!(b.add_triangle(v(1, 0, 3), [(0, 1), (0, 0), (0, 3)], MaterialIndex(0), 1));
    assert!(b.add_triangle(v(0, 1, 4), [(0, 0), (0, 1), (0, 4)], MaterialIndex(0), 2));
    assert_eq!(b.model.edges.len(), 3 + 2 + 3);
    assert_eq!(b.model.edges[0].f1, Some(FaceIndex(1)));
    assert_eq!(b.model.faces[2].edges[0], EdgeIndex(5));
    assert_eq!(b.model.edges[5].f1, None);
}

#[test]
fn face_and_edge_accessors() {
    let b = cube_builder();
    let f = &b.model.faces[0];
    assert_eq!(f.index_vertices(), [VertexIndex(0), VertexIndex(3), VertexIndex(2)]);
    assert_eq!(f.material(), MaterialIndex(0));
    let sides = f.vertices_with_edges();
    assert_eq!(sides[2], (VertexIndex(2), VertexIndex(0), f.index_edges()[2]));
    assert_eq!(f.opposite_edge(f.index_edges()[0]), VertexIndex(2));
    let e = &b.model.edges[f.index_edges()[0].0 as usize];
    assert!(!e.face_sign(FaceIndex(0)));
    assert!(e.face_sign(e.faces().1.unwrap()));
    assert_eq!(b.model.edge_vertices(f.index_edges()[1]), (VertexIndex(3), VertexIndex(2)));
    assert_eq!(usize::from(FaceIndex::from(7usize)), 7);
}

#[test]
fn cut_inside_a_ring_of_folds_keeps_one_island() {
    let b = cube_builder();
    let model = Model {
        faces: b.model.faces.clone(),
        edges: b.model.edges.clone(),
        num_vertices: b.model.num_vertices,
    };
    let mut st = initial_edge_status(&model, &b.facemap);
    for (x, y) in [(1, 5), (2, 6), (3, 7), (0, 4)] {
        st[find_edge(&b, x, y).0 as usize] = EdgeStatus::Joined;
    }
    let mut p = Papercraft::new(model, st);
    assert_eq!(island_counts(&p), vec![2, 2, 8]);
    let e = find_edge(&b, 1, 5);
    let c = p.edge_cut(e, 9).unwrap();
    assert!(c.new_island.is_none());
    assert!(!c.move_old);
    assert_eq!(p.edge_status(e), EdgeStatus::Cut(false));
    assert_eq!(island_counts(&p), vec![2, 2, 8]);
    let c = p.edge_cut(find_edge(&b, 3, 7), 10).unwrap();
    assert!(c.new_island.is_some());
    assert_eq!(island_counts(&p), vec![2, 2, 4, 4]);
}

#[test]
fn strip_join_joins_seed_between_large_islands() {
    let (mut p, b) = cube();
    p.edge_join(find_edge(&b, 1, 5), None).unwrap();
    p.edge_join(find_edge(&b, 3, 7), None).unwrap();
    let before = p.num_islands();
    let r = p.try_join_strip(find_edge(&b, 2, 6));
    assert!(!r.is_empty());
    assert_eq!(r[0].i_edge, find_edge(&b, 2, 6));
    assert_eq!(p.edge_status(find_edge(&b, 2, 6)), EdgeStatus::Joined);
    assert_eq!(p.num_islands() + r.len(), before);
}
