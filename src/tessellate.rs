//! Ear clipping of a polygon given by its vertex count. Which ear to clip
//! is a geometric choice, made by the caller on the remaining vertices; the
//! bookkeeping of the ring of vertices and of the triangles is done here.
use vstd::prelude::*;

verus! {

/// A triangle as three indices into the polygon's vertices.
pub type Tri = (usize, usize, usize);

/// The three indices are distinct and below `n`.
pub open spec fn valid_tri(t: Tri, n: nat) -> bool {
    &&& t.0 < n
    &&& t.1 < n
    &&& t.2 < n
    &&& t.0 != t.1
    &&& t.1 != t.2
    &&& t.0 != t.2
}

/// Index `x` is a corner of triangle `t`.
pub open spec fn in_tri(t: Tri, x: int) -> bool {
    t.0 == x || t.1 == x || t.2 == x
}

/// Index `x` is a corner of some triangle of `s`.
pub open spec fn tri_has(s: Seq<Tri>, x: int) -> bool {
    exists|t: int| 0 <= t < s.len() && #[trigger] in_tri(s[t], x)
}

/// Splits a polygon of `n` vertices into triangles. For a ring of remaining
/// vertices (polygon indices, in order) `pick_ear` gives the position `i`
/// of the best ear, whose tip is the vertex after it; `None`, or a position
/// out of range, clips the ear at position 0.
pub fn tessellate<F: Fn(&Vec<usize>) -> Option<usize>>(n: usize, pick_ear: F) -> (r: Vec<Tri>)
    requires
        forall|ring: &Vec<usize>| pick_ear.requires((ring,)),
    ensures
        n < 3 ==> r@.len() == 0,
        n == 3 ==> r@ == seq![(0usize, 1usize, 2usize)],
        n >= 3 ==> r@.len() == n - 2,
        forall|t: int| 0 <= t < r@.len() ==> valid_tri(#[trigger] r@[t], n as nat),
        n >= 3 ==> forall|x: int| 0 <= x < n ==> #[trigger] tri_has(r@, x),
{
    if n < 3 {
        return Vec::new();
    }
    if n == 3 {
        let mut r: Vec<Tri> = Vec::new();
        r.push((0, 1, 2));
        proof {
            assert forall|x: int| 0 <= x < n implies #[trigger] tri_has(r@, x) by {
                assert(in_tri(r@[0], x));
            }
        }
        return r;
    }
    let mut ring: Vec<usize> = Vec::new();
    let mut k: usize = 0;
    while k < n
        invariant
            k <= n,
            ring@.len() == k,
            forall|j: int| 0 <= j < k ==> #[trigger] ring@[j] == j,
        decreases n - k,
    {
        ring.push(k);
        k += 1;
    }
    let mut res: Vec<Tri> = Vec::new();
    proof {
        assert forall|x: int| 0 <= x < n implies ring@.contains(x as usize) || #[trigger] tri_has(res@, x) by {
            assert(ring@[x] == x);
        }
    }
    while ring.len() >= 3
        invariant
            forall|ring: &Vec<usize>| pick_ear.requires((ring,)),
            n > 3,
            ring@.len() >= 2,
            ring@.len() + res@.len() == n,
            forall|x: int| 0 <= x < n ==> ring@.contains(x as usize) || #[trigger] tri_has(res@, x),
            ring@.len() == 2 ==> res@.len() > 0 && in_tri(res@.last(), ring@[0] as int) && in_tri(
                res@.last(),
                ring@[1] as int,
            ),
            forall|j: int| 0 <= j < ring@.len() ==> #[trigger] ring@[j] < n,
            forall|j: int, l: int|
                0 <= j < l < ring@.len() ==> #[trigger] ring@[j] != #[trigger] ring@[l],
            forall|t: int| 0 <= t < res@.len() ==> valid_tri(#[trigger] res@[t], n as nat),
        decreases ring@.len(),
    {
        let len = ring.len();
        let i: usize = match pick_ear(&ring) {
            Some(i) if i < len => i,
            _ => 0,
        };
        let i1 = if i + 1 < len {
            i + 1
        } else {
            0
        };
        let i2 = if i1 + 1 < len {
            i1 + 1
        } else {
            0
        };
        let tri = (ring[i], ring[i1], ring[i2]);
        proof {
            assert(i != i1 && i1 != i2 && i != i2);
            let (a, b) = if i < i1 { (i as int, i1 as int) } else { (i1 as int, i as int) };
            assert(ring@[a] != ring@[b]);
            let (a, b) = if i1 < i2 { (i1 as int, i2 as int) } else { (i2 as int, i1 as int) };
            assert(ring@[a] != ring@[b]);
            let (a, b) = if i < i2 { (i as int, i2 as int) } else { (i2 as int, i as int) };
            assert(ring@[a] != ring@[b]);
        }
        let ghost res0 = res@;
        res.push(tri);
        let ghost before = ring@;
        ring.remove(i1);
        proof {
            before.remove_ensures(i1 as int);
            assert forall|j: int, l: int|
                0 <= j < l < ring@.len() implies #[trigger] ring@[j] != #[trigger] ring@[l] by {
                let jj = if j < i1 { j } else { j + 1 };
                let ll = if l < i1 { l } else { l + 1 };
                assert(ring@[j] == before[jj]);
                assert(ring@[l] == before[ll]);
            }
            assert forall|j: int| 0 <= j < ring@.len() implies #[trigger] ring@[j] < n by {
                let jj = if j < i1 { j } else { j + 1 };
                assert(ring@[j] == before[jj]);
            }
            let last = res@.len() - 1;
            assert(res@[last] == tri);
            assert forall|x: int| 0 <= x < n implies ring@.contains(x as usize) || #[trigger] tri_has(res@, x) by {
                if tri_has(res0, x) {
                    let t = choose|t: int| 0 <= t < res0.len() && #[trigger] in_tri(res0[t], x);
                    assert(res@[t] == res0[t]);
                } else {
                    assert(before.contains(x as usize));
                    let p = choose|p: int| 0 <= p < before.len() && before[p] == x as usize;
                    if p == i1 {
                        assert(in_tri(res@[last], x));
                    } else {
                        let q = if p < i1 { p } else { p - 1 };
                        assert(ring@[q] == before[p]);
                    }
                }
            }
            if ring@.len() == 2 {
                assert(before.len() == 3);
                assert forall|j: int| 0 <= j < 2 implies in_tri(res@.last(), #[trigger] ring@[j] as int) by {
                    let jj = if j < i1 { j } else { j + 1 };
                    assert(ring@[j] == before[jj]);
                    assert(jj == i as int || jj == i2 as int);
                }
            }
        }
    }
    proof {
        assert forall|x: int| 0 <= x < n implies #[trigger] tri_has(res@, x) by {
            if ring@.contains(x as usize) {
                let p = choose|p: int| 0 <= p < ring@.len() && ring@[p] == x as usize;
                let last = res@.len() - 1;
                assert(in_tri(res@[last], x));
            }
        }
    }
    res
}

} // verus!
