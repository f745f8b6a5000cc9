use papercraft::status::{EdgeStatus, FoldStyle, TabStyle};
use papercraft::tessellate::tessellate;
use papercraft::text_filter::{allow_float, allow_int, invalid_float, invalid_int};

#[test]
fn edge_status_codes() {
    let all = [EdgeStatus::Hidden, EdgeStatus::Joined, EdgeStatus::Cut(false), EdgeStatus::Cut(true)];
    for (i, s) in all.iter().enumerate() {
        assert_eq!(s.code(), i as u32);
        assert_eq!(EdgeStatus::from_code(i as u32), Some(*s));
    }
    assert!(EdgeStatus::from_code(4).is_none());
}

#[test]
fn style_codes() {
    let tabs = [TabStyle::Textured, TabStyle::HalfTextured, TabStyle::White, TabStyle::NoTab];
    for (i, s) in tabs.iter().enumerate() {
        assert_eq!(s.code(), i as u32);
        assert_eq!(TabStyle::from_code(i as u32), Some(*s));
    }
    assert!(TabStyle::from_code(4).is_none());
    let folds = [
        FoldStyle::Full,
        FoldStyle::FullAndOut,
        FoldStyle::Out,
        FoldStyle::In,
        FoldStyle::InAndOut,
        FoldStyle::NoFold,
    ];
    for (i, s) in folds.iter().enumerate() {
        assert_eq!(s.code(), i as u32);
        assert_eq!(FoldStyle::from_code(i as u32), Some(*s));
    }
    assert!(FoldStyle::from_code(6).is_none());
    assert_eq!(TabStyle::default_style(), TabStyle::Textured);
    assert_eq!(FoldStyle::default_style(), FoldStyle::Full);
}

#[test]
fn tessellate_degenerate_inputs() {
    for n in 0..3 {
        assert!(tessellate(n, |_: &Vec<usize>| Some(0)).is_empty());
    }
    assert_eq!(tessellate(3, |_: &Vec<usize>| None), vec![(0, 1, 2)]);
}

#[test]
fn tessellate_counts_triangles() {
    for n in 4..10usize {
        let r = tessellate(n, |ring: &Vec<usize>| Some(ring.len() - 1));
        assert_eq!(r.len(), n - 2);
        for &(a, b, c) in &r {
            assert!(a < n && b < n && c < n);
            assert!(a != b && b != c && a != c);
        }
    }
}

#[test]
fn tessellate_square_fan() {
    assert_eq!(tessellate(4, |_: &Vec<usize>| Some(0)), vec![(0, 1, 2), (0, 2, 3)]);
    assert_eq!(tessellate(4, |_: &Vec<usize>| Some(17)), vec![(0, 1, 2), (0, 2, 3)]);
    assert_eq!(tessellate(5, |_: &Vec<usize>| Some(1)), vec![(1, 2, 3), (1, 3, 4), (1, 4, 0)]);
}

#[test]
fn numeric_field_filters() {
    let t: Vec<char> = "1,5a.2".chars().collect();
    assert_eq!(allow_float(&t).into_iter().collect::<String>(), "1.5.2");
    let t: Vec<char> = "12a-3".chars().collect();
    assert_eq!(allow_int(&t).into_iter().collect::<String>(), "123");
    assert!(invalid_float('x'));
    assert!(!invalid_float('.'));
    assert!(invalid_int('.'));
    assert!(!invalid_int('7'));
}

use papercraft::pepakura::{compute_edge_status, page_grid, ProjectCorner, ProjectEdge};

fn corners(list: &[(u32, bool)]) -> Vec<ProjectCorner> {
    list.iter().map(|&(i_v, flap)| ProjectCorner { i_v, flap }).collect()
}

#[test]
fn project_edge_status() {
    let edges = vec![
        ProjectEdge { i_f1: 0, i_v1: 1, i_v2: 2, connected: false },
        ProjectEdge { i_f1: 1, i_v1: 2, i_v2: 3, connected: true },
        ProjectEdge { i_f1: 1, i_v1: 3, i_v2: 4, connected: false },
    ];
    let faces = vec![corners(&[(0, false), (1, true), (2, false)]), corners(&[(2, false), (3, false), (4, true)])];
    assert_eq!(compute_edge_status(&edges, &faces, 2, 1), Some(EdgeStatus::Cut(true)));
    assert_eq!(compute_edge_status(&edges, &faces, 1, 2), Some(EdgeStatus::Cut(true)));
    assert_eq!(compute_edge_status(&edges, &faces, 3, 2), Some(EdgeStatus::Joined));
    assert_eq!(compute_edge_status(&edges, &faces, 4, 3), None);
    assert_eq!(compute_edge_status(&edges, &faces, 0, 4), None);
}

#[test]
fn project_page_grid() {
    assert_eq!(page_grid(&vec![(0, 0), (1, 0), (0, 1), (-1, 3)]), (2, 3));
    assert_eq!(page_grid(&vec![]), (1, 1));
    assert_eq!(page_grid(&vec![(2, 0), (0, 0)]), (3, 3));
    assert_eq!(page_grid(&vec![(0, -2), (-4, 0)]), (1, 1));
}

use papercraft::corners::{index_corners, Corner};

#[test]
fn corners_split_by_texture_and_normal() {
    let c = |v: u32, t: Option<u32>, n: Option<u32>| Corner { v, t, n };
    let list = vec![c(1, Some(1), None), c(2, None, None), c(1, Some(1), None), c(1, Some(2), None), c(1, Some(1), Some(3))];
    let (unique, map) = index_corners(&list);
    assert_eq!(unique.len(), 4);
    assert_eq!(map, vec![0, 1, 0, 2, 3]);
    for (i, m) in map.iter().enumerate() {
        assert_eq!(unique[*m as usize], list[i]);
    }
    let (u, m) = index_corners(&Vec::new());
    assert!(u.is_empty() && m.is_empty());
}
