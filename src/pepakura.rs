//! What a Pepakura project says of the topology: the fold state of an edge
//! and the grid of pages that its parts are laid out on.
use vstd::prelude::*;

use crate::status::EdgeStatus;

verus! {

/// An edge record of a project object: its first face, its two vertices
/// (object numbering) and whether the faces are connected there.
#[derive(Debug, Clone, Copy)]
pub struct ProjectEdge {
    pub i_f1: u32,
    pub i_v1: u32,
    pub i_v2: u32,
    pub connected: bool,
}

/// A corner of a project face: its vertex and whether a flap hangs there.
#[derive(Debug, Clone, Copy)]
pub struct ProjectCorner {
    pub i_v: u32,
    pub flap: bool,
}

/// The first edge record between `v0` and `v1`, in either order.
pub open spec fn first_edge(edges: Seq<ProjectEdge>, v0: u32, v1: u32, i: int) -> bool {
    &&& 0 <= i < edges.len()
    &&& ((edges[i].i_v1, edges[i].i_v2) == (v0, v1) || (edges[i].i_v1, edges[i].i_v2) == (v1, v0))
    &&& forall|j: int|
        0 <= j < i ==> !((#[trigger] edges[j].i_v1, edges[j].i_v2) == (v0, v1) || (
        edges[j].i_v1,
        edges[j].i_v2,
    ) == (v1, v0))
}

/// The first corner of `corners` at vertex `v`.
pub open spec fn first_corner(corners: Seq<ProjectCorner>, v: u32, i: int) -> bool {
    &&& 0 <= i < corners.len()
    &&& corners[i].i_v == v
    &&& forall|j: int| 0 <= j < i ==> (#[trigger] corners[j]).i_v != v
}

/// The status that the project gives the edge from `v0` to `v1`: joined if
/// its record says connected; else cut with the tab on the side of its first
/// face if that face has a flap at the record's first vertex; else none
/// (also when there is no record, or the record's face or corner is missing).
pub open spec fn project_status(
    edges: Seq<ProjectEdge>,
    faces: Seq<Vec<ProjectCorner>>,
    v0: u32,
    v1: u32,
) -> Option<EdgeStatus> {
    if exists|i: int| first_edge(edges, v0, v1, i) {
        let e = edges[choose|i: int| first_edge(edges, v0, v1, i)];
        if e.connected {
            Some(EdgeStatus::Joined)
        } else if e.i_f1 < faces.len() && exists|c: int| first_corner(faces[e.i_f1 as int]@, e.i_v1, c) {
            let corners = faces[e.i_f1 as int]@;
            if corners[choose|c: int| first_corner(corners, e.i_v1, c)].flap {
                Some(EdgeStatus::Cut(true))
            } else {
                None
            }
        } else {
            None
        }
    } else {
        None
    }
}

/// Whether the first corner at vertex `v` has a flap; `None` if no corner is.
fn find_corner_flap(corners: &Vec<ProjectCorner>, v: u32) -> (r: Option<bool>)
    ensures
        r is Some <==> exists|c: int| first_corner(corners@, v, c),
        r is Some ==> r->0 == corners@[choose|c: int| first_corner(corners@, v, c)].flap,
{
    let mut k: usize = 0;
    while k < corners.len()
        invariant
            k <= corners@.len(),
            forall|j: int| 0 <= j < k ==> (#[trigger] corners@[j]).i_v != v,
        decreases corners@.len() - k,
    {
        if corners[k].i_v == v {
            proof {
                assert(first_corner(corners@, v, k as int));
                let c = choose|c: int| first_corner(corners@, v, c);
                if c > k {
                    assert(corners@[k as int].i_v != v);
                }
            }
            return Some(corners[k].flap);
        }
        k += 1;
    }
    proof {
        assert forall|c: int| !first_corner(corners@, v, c) by {
            if 0 <= c < corners@.len() {
                assert(corners@[c].i_v != v);
            }
        }
    }
    None
}

pub fn compute_edge_status(
    edges: &Vec<ProjectEdge>,
    faces: &Vec<Vec<ProjectCorner>>,
    v0: u32,
    v1: u32,
) -> (r: Option<EdgeStatus>)
    ensures
        r == project_status(edges@, faces@, v0, v1),
{
    let mut i: usize = 0;
    while i < edges.len()
        invariant
            i <= edges@.len(),
            forall|j: int|
                0 <= j < i ==> !((#[trigger] edges@[j].i_v1, edges@[j].i_v2) == (v0, v1) || (
                edges@[j].i_v1,
                edges@[j].i_v2,
            ) == (v1, v0)),
        decreases edges@.len() - i,
    {
        let e = edges[i];
        if (e.i_v1 == v0 && e.i_v2 == v1) || (e.i_v1 == v1 && e.i_v2 == v0) {
            proof {
                assert(first_edge(edges@, v0, v1, i as int));
                let c = choose|c: int| first_edge(edges@, v0, v1, c);
                if c < i {
                } else if c > i {
                    assert(!((edges@[i as int].i_v1, edges@[i as int].i_v2) == (v0, v1) || (
                    edges@[i as int].i_v1,
                    edges@[i as int].i_v2,
                    ) == (v1, v0)));
                }
            }
            if e.connected {
                return Some(EdgeStatus::Joined);
            }
            if e.i_f1 as usize >= faces.len() {
                return None;
            }
            let corners = &faces[e.i_f1 as usize];
            return match find_corner_flap(corners, e.i_v1) {
                Some(true) => Some(EdgeStatus::Cut(true)),
                _ => None,
            };
        }
        i += 1;
    }
    None
}

/// The largest column among the cells on the canvas (both indices at
/// least zero); zero if none.
pub open spec fn max_col(cells: Seq<(i32, i32)>) -> int
    decreases cells.len(),
{
    if cells.len() == 0 {
        0
    } else {
        let rest = max_col(cells.drop_last());
        let (col, row) = cells.last();
        if col >= 0 && row >= 0 && col > rest {
            col as int
        } else {
            rest
        }
    }
}

/// The last page cell on the canvas, as (row, column), in reading order;
/// (0, 0) if none.
pub open spec fn last_cell(cells: Seq<(i32, i32)>) -> (int, int)
    decreases cells.len(),
{
    if cells.len() == 0 {
        (0, 0)
    } else {
        let rest = last_cell(cells.drop_last());
        let (col, row) = cells.last();
        if col >= 0 && row >= 0 && (row > rest.0 || (row == rest.0 && col > rest.1)) {
            (row as int, col as int)
        } else {
            rest
        }
    }
}

proof fn lemma_grid_bounds(cells: Seq<(i32, i32)>)
    ensures
        0 <= max_col(cells) <= i32::MAX,
        0 <= last_cell(cells).0 <= i32::MAX,
        0 <= last_cell(cells).1 <= max_col(cells),
    decreases cells.len(),
{
    if cells.len() > 0 {
        lemma_grid_bounds(cells.drop_last());
    }
}

/// The page grid that parts at page cells `cells` (column, row) need:
/// one column more than the largest column, and pages up to the last cell
/// in reading order. Cells with a negative index are off the canvas and
/// count for nothing. Returns (columns, pages).
pub fn page_grid(cells: &Vec<(i32, i32)>) -> (r: (u64, u64))
    ensures
        r.0 == max_col(cells@) + 1,
        r.1 == last_cell(cells@).0 * (max_col(cells@) + 1) + last_cell(cells@).1 + 1,
{
    let mut n_cols: i32 = 0;
    let mut max_row: i32 = 0;
    let mut max_col_in_row: i32 = 0;
    let mut i: usize = 0;
    while i < cells.len()
        invariant
            i <= cells@.len(),
            n_cols == max_col(cells@.take(i as int)),
            (max_row as int, max_col_in_row as int) == last_cell(cells@.take(i as int)),
        decreases cells@.len() - i,
    {
        let (col, row) = cells[i];
        if col >= 0 && row >= 0 {
            if col > n_cols {
                n_cols = col;
            }
            if row > max_row || (row == max_row && col > max_col_in_row) {
                max_row = row;
                max_col_in_row = col;
            }
        }
        proof {
            assert(cells@.take(i + 1).drop_last() == cells@.take(i as int));
        }
        i += 1;
    }
    proof {
        assert(cells@.take(cells@.len() as int) == cells@);
        lemma_grid_bounds(cells@);
    }
    let page_cols = n_cols as u64 + 1;
    proof {
        assert(max_row as u64 * page_cols <= 0x7fff_ffff * 0x8000_0000) by (nonlinear_arith)
            requires
                0 <= max_row <= 0x7fff_ffff,
                1 <= page_cols <= 0x8000_0000,
        ;
    }
    let pages = max_row as u64 * page_cols + max_col_in_row as u64 + 1;
    (page_cols, pages)
}

} // verus!
