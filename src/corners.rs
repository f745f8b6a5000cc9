//! The vertices of an imported mesh: one for each distinct corner of the
//! source faces, a corner being a position index with optional texture and
//! normal indices, so that faces that share a position but not its texture
//! coordinates or normal get vertices of their own.
use vstd::prelude::*;

verus! {

/// A face corner of the source file: position, texture and normal indices.
#[derive(Debug, Clone, Copy, PartialEq, Eq)]
pub struct Corner {
    pub v: u32,
    pub t: Option<u32>,
    pub n: Option<u32>,
}

fn same_opt(a: Option<u32>, b: Option<u32>) -> (r: bool)
    ensures
        r == (a == b),
{
    match (a, b) {
        (Some(x), Some(y)) => x == y,
        (None, None) => true,
        _ => false,
    }
}

fn same_corner(a: &Corner, b: &Corner) -> (r: bool)
    ensures
        r == (*a == *b),
{
    a.v == b.v && same_opt(a.t, b.t) && same_opt(a.n, b.n)
}

/// Corner `c` is among the first `n` of `s`.
pub open spec fn seen(s: Seq<Corner>, n: int, c: Corner) -> bool {
    exists|x: int| 0 <= x < n && s[x] == c
}

/// The distinct corners of `s`, each where it first appears.
pub open spec fn firsts(s: Seq<Corner>) -> Seq<Corner>
    decreases s.len(),
{
    if s.len() == 0 {
        Seq::empty()
    } else {
        let r = firsts(s.drop_last());
        if r.contains(s.last()) {
            r
        } else {
            r.push(s.last())
        }
    }
}

/// Gives each distinct corner one vertex, in order of first appearance.
/// Returns the distinct corners and, for each input corner, its vertex.
pub fn index_corners(corners: &Vec<Corner>) -> (r: (Vec<Corner>, Vec<u32>))
    requires
        corners@.len() <= u32::MAX,
    ensures
        r.0@ == firsts(corners@),
        r.0@.no_duplicates(),
        r.1@.len() == corners@.len(),
        forall|i: int| 0 <= i < corners@.len() ==> (#[trigger] r.1@[i]) < r.0@.len() && r.0@[r.1@[i] as int] == corners@[i],
        forall|j: int| 0 <= j < r.0@.len() ==> seen(corners@, corners@.len() as int, #[trigger] r.0@[j]),
{
    let mut unique: Vec<Corner> = Vec::new();
    let mut map: Vec<u32> = Vec::new();
    let mut i: usize = 0;
    while i < corners.len()
        invariant
            corners@.len() <= u32::MAX,
            i <= corners@.len(),
            unique@.len() <= i,
            unique@.no_duplicates(),
            unique@ == firsts(corners@.take(i as int)),
            map@.len() == i,
            forall|x: int| 0 <= x < i ==> (#[trigger] map@[x]) < unique@.len() && unique@[map@[x] as int] == corners@[x],
            forall|j: int| 0 <= j < unique@.len() ==> seen(corners@, i as int, #[trigger] unique@[j]),
        decreases corners@.len() - i,
    {
        let c = corners[i];
        let mut j: usize = 0;
        let mut found: Option<usize> = None;
        while j < unique.len() && found.is_none()
            invariant
                j <= unique@.len(),
                found is Some ==> found->0 < unique@.len() && unique@[found->0 as int] == c,
                found is None ==> forall|l: int| 0 <= l < j ==> #[trigger] unique@[l] != c,
            decreases unique@.len() - j + if found is None { 1int } else { 0 },
        {
            if same_corner(&unique[j], &c) {
                found = Some(j);
            } else {
                j += 1;
            }
        }
        match found {
            Some(k) => {
                proof {
                    assert(unique@.contains(c));
                }
                map.push(k as u32);
            },
            None => {
                let ghost u0 = unique@;
                proof {
                    assert(!u0.contains(c));
                }
                map.push(unique.len() as u32);
                unique.push(c);
                proof {
                    assert forall|a: int, b: int| 0 <= a < b < unique@.len() implies unique@[a] != unique@[b] by {
                        if b == u0.len() {
                            assert(u0[a] != c);
                        } else {
                            assert(u0[a] != u0[b]);
                        }
                    }
                    assert forall|jj: int| 0 <= jj < unique@.len() implies seen(corners@, i + 1, #[trigger] unique@[jj]) by {
                        if jj == u0.len() {
                            assert(corners@[i as int] == unique@[jj]);
                        } else {
                            assert(seen(corners@, i as int, u0[jj]));
                            let x = choose|x: int| 0 <= x < i && corners@[x] == u0[jj];
                            assert(corners@[x] == unique@[jj]);
                        }
                    }
                }
            },
        }
        proof {
            assert(corners@.take(i + 1).drop_last() == corners@.take(i as int));
            assert(corners@.take(i + 1).last() == c);
            assert forall|x: int| 0 <= x < i + 1 implies (#[trigger] map@[x]) < unique@.len() && unique@[map@[x] as int] == corners@[x] by {
                if x < i {
                }
            }
            assert forall|jj: int| 0 <= jj < unique@.len() implies seen(corners@, i + 1, #[trigger] unique@[jj]) by {
                if seen(corners@, i as int, unique@[jj]) {
                    let x = choose|x: int| 0 <= x < i && corners@[x] == unique@[jj];
                    assert(0 <= x < i + 1 && corners@[x] == unique@[jj]);
                }
            }
        }
        i += 1;
    }
    proof {
        assert(corners@.take(corners@.len() as int) == corners@);
    }
    (unique, map)
}

} // verus!
