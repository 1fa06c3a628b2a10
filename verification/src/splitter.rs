//! The hemisphere path splitter: a 3-D polyline is cut into "front" pieces
//! (depth `z >= 0`, facing the viewer) and "back" pieces (`z <= 0`), with an
//! interpolated seam point inserted wherever the depth changes sign, so that
//! no emitted piece ever joins two samples from opposite hemispheres. The
//! contract pins the output exactly: it is the left-to-right scan that
//! `split_state` describes, so every input sample appears, in order, in a
//! segment of its own side, and each sign change closes one segment and
//! opens the other with the same seam point.

use crate::fixed::{rdiv, rdiv_i64, wide_mul};
use crate::vec3::Vec3;
use vstd::math::abs;
use vstd::prelude::*;

verus! {

/// Every point of every front segment lies on or before the `z = 0` plane.
pub open spec fn all_front(segs: Seq<Vec<Vec3>>) -> bool {
    forall|i: int, j: int|
        0 <= i < segs.len() && 0 <= j < segs[i]@.len() ==> (#[trigger] segs[i]@[j]).z >= 0
}

/// Every point of every back segment lies on or behind the `z = 0` plane.
pub open spec fn all_back(segs: Seq<Vec<Vec3>>) -> bool {
    forall|i: int, j: int|
        0 <= i < segs.len() && 0 <= j < segs[i]@.len() ==> (#[trigger] segs[i]@[j]).z <= 0
}

/// No segment is empty.
pub open spec fn none_empty(segs: Seq<Vec<Vec3>>) -> bool {
    forall|i: int| 0 <= i < segs.len() ==> (#[trigger] segs[i])@.len() > 0
}

/// The seam point where the segment from `p` to `q` crosses `z == 0`, as a
/// spec value: linear interpolation from `p`, with the quotient written over
/// a positive divisor on either side.
pub open spec fn crossing_spec(p: Vec3, q: Vec3) -> Vec3 {
    if p.z >= 0 {
        Vec3 {
            x: (p.x + rdiv(p.z * (q.x - p.x), p.z - q.z)) as i64,
            y: (p.y + rdiv(p.z * (q.y - p.y), p.z - q.z)) as i64,
            z: 0,
        }
    } else {
        Vec3 {
            x: (p.x + rdiv((-p.z) * (q.x - p.x), q.z - p.z)) as i64,
            y: (p.y + rdiv((-p.z) * (q.y - p.y), q.z - p.z)) as i64,
            z: 0,
        }
    }
}

/// The seam point where the segment from `p` to `q` crosses `z == 0`,
/// linearly interpolated in 3-space; its depth is zero by construction.
pub fn crossing_point(p: Vec3, q: Vec3) -> (r: Vec3)
    requires
        p.bounded(150_000_000),
        q.bounded(150_000_000),
        (p.z >= 0 && q.z < 0) || (p.z < 0 && q.z >= 0),
    ensures
        r == crossing_spec(p, q),
        r.z == 0,
        r.bounded(600_000_000),
{
    if p.z >= 0 {
        // q.z < 0, so the divisor dominates p.z and the fraction is at most 1
        let d = p.z - q.z;
        proof {
            crate::fixed::lemma_mul_abs_bound(p.z as int, (q.x - p.x) as int, d as int, 300_000_000);
            crate::fixed::lemma_mul_abs_bound(p.z as int, (q.y - p.y) as int, d as int, 300_000_000);
        }
        let dx = rdiv_i64(wide_mul(p.z, q.x - p.x), d as i128, 300_000_000);
        let dy = rdiv_i64(wide_mul(p.z, q.y - p.y), d as i128, 300_000_000);
        Vec3 { x: p.x + dx, y: p.y + dy, z: 0 }
    } else {
        let d = q.z - p.z;
        proof {
            crate::fixed::lemma_mul_abs_bound(
                (-p.z) as int,
                (q.x - p.x) as int,
                d as int,
                300_000_000,
            );
            crate::fixed::lemma_mul_abs_bound(
                (-p.z) as int,
                (q.y - p.y) as int,
                d as int,
                300_000_000,
            );
        }
        let dx = rdiv_i64(wide_mul(-p.z, q.x - p.x), d as i128, 300_000_000);
        let dy = rdiv_i64(wide_mul(-p.z, q.y - p.y), d as i128, 300_000_000);
        Vec3 { x: p.x + dx, y: p.y + dy, z: 0 }
    }
}

/// The splitter's state after consuming the first `n` samples: the closed
/// front segments, the closed back segments, and the two still-open
/// segments. Each sample goes to the open segment of its side; a sign
/// change between consecutive samples first appends the seam point to the
/// closing segment, emits it, and starts the other side's segment anew from
/// the same seam point.
pub open spec fn split_state(points: Seq<Vec3>, n: int) -> (
    Seq<Seq<Vec3>>,
    Seq<Seq<Vec3>>,
    Seq<Vec3>,
    Seq<Vec3>,
)
    decreases n,
{
    if n <= 0 {
        (Seq::empty(), Seq::empty(), Seq::empty(), Seq::empty())
    } else {
        let st = split_state(points, n - 1);
        let p = points[n - 1];
        let st2 = if n >= 2 && ((points[n - 2].z >= 0) != (p.z >= 0)) {
            let seam = crossing_spec(points[n - 2], p);
            if points[n - 2].z >= 0 {
                (st.0.push(st.2.push(seam)), st.1, Seq::<Vec3>::empty(), st.3.push(seam))
            } else {
                (st.0, st.1.push(st.3.push(seam)), st.2.push(seam), Seq::<Vec3>::empty())
            }
        } else {
            st
        };
        if p.z >= 0 {
            (st2.0, st2.1, st2.2.push(p), st2.3)
        } else {
            (st2.0, st2.1, st2.2, st2.3.push(p))
        }
    }
}

/// The full split: the state after every sample, with a non-empty open
/// segment appended as the last piece of its side.
pub open spec fn split_spec(points: Seq<Vec3>) -> (Seq<Seq<Vec3>>, Seq<Seq<Vec3>>) {
    let st = split_state(points, points.len() as int);
    (
        if st.2.len() > 0 {
            st.0.push(st.2)
        } else {
            st.0
        },
        if st.3.len() > 0 {
            st.1.push(st.3)
        } else {
            st.1
        },
    )
}

/// Split a polyline by the sign of the depth coordinate. The result is
/// exactly the scan `split_spec` describes: front segments hold the samples
/// with `z >= 0` and back segments those with `z <= 0`, in input order, and
/// every sign change is resolved by the interpolated seam point that closes
/// one segment and opens the other. No emitted segment is empty or joins
/// two samples of opposite sign.
pub fn split_hemispheres(points: &Vec<Vec3>) -> (r: (Vec<Vec<Vec3>>, Vec<Vec<Vec3>>))
    requires
        forall|k: int| 0 <= k < points@.len() ==> (#[trigger] points@[k]).bounded(150_000_000),
    ensures
        r.0@.map_values(|seg: Vec<Vec3>| seg@) == split_spec(points@).0,
        r.1@.map_values(|seg: Vec<Vec3>| seg@) == split_spec(points@).1,
        all_front(r.0@),
        all_back(r.1@),
        none_empty(r.0@),
        none_empty(r.1@),
{
    let mut front_segments: Vec<Vec<Vec3>> = Vec::new();
    let mut back_segments: Vec<Vec<Vec3>> = Vec::new();
    let mut current_front: Vec<Vec3> = Vec::new();
    let mut current_back: Vec<Vec3> = Vec::new();
    let mut i: usize = 0;
    proof {
        assert(front_segments@.map_values(|seg: Vec<Vec3>| seg@) =~= Seq::<Seq<Vec3>>::empty());
        assert(back_segments@.map_values(|seg: Vec<Vec3>| seg@) =~= Seq::<Seq<Vec3>>::empty());
    }
    while i < points.len()
        invariant
            i <= points@.len(),
            forall|k: int| 0 <= k < points@.len() ==> (#[trigger] points@[k]).bounded(150_000_000),
            front_segments@.map_values(|seg: Vec<Vec3>| seg@) == split_state(points@, i as int).0,
            back_segments@.map_values(|seg: Vec<Vec3>| seg@) == split_state(points@, i as int).1,
            current_front@ == split_state(points@, i as int).2,
            current_back@ == split_state(points@, i as int).3,
            all_front(front_segments@),
            all_back(back_segments@),
            none_empty(front_segments@),
            none_empty(back_segments@),
            forall|j: int| 0 <= j < current_front@.len() ==> current_front@[j].z >= 0,
            forall|j: int| 0 <= j < current_back@.len() ==> current_back@[j].z <= 0,
        decreases points@.len() - i,
    {
        let ghost pre_f = front_segments@.map_values(|seg: Vec<Vec3>| seg@);
        let ghost pre_b = back_segments@.map_values(|seg: Vec<Vec3>| seg@);
        let p = points[i];
        if i > 0 {
            let prev = points[i - 1];
            let was_positive = prev.z >= 0;
            let is_positive = p.z >= 0;
            if was_positive != is_positive {
                let seam = crossing_point(prev, p);
                if was_positive {
                    current_front.push(seam);
                    let ghost closed = current_front@;
                    front_segments.push(current_front);
                    current_front = Vec::new();
                    current_back.push(seam);
                    proof {
                        assert(front_segments@.map_values(|seg: Vec<Vec3>| seg@) =~= pre_f.push(
                            closed,
                        ));
                    }
                } else {
                    current_back.push(seam);
                    let ghost closed = current_back@;
                    back_segments.push(current_back);
                    current_back = Vec::new();
                    current_front.push(seam);
                    proof {
                        assert(back_segments@.map_values(|seg: Vec<Vec3>| seg@) =~= pre_b.push(
                            closed,
                        ));
                    }
                }
            }
        }
        if p.z >= 0 {
            current_front.push(p);
        } else {
            current_back.push(p);
        }
        i += 1;
    }
    let ghost end_f = front_segments@.map_values(|seg: Vec<Vec3>| seg@);
    let ghost end_b = back_segments@.map_values(|seg: Vec<Vec3>| seg@);
    let ghost open_f = current_front@;
    let ghost open_b = current_back@;
    if current_front.len() > 0 {
        front_segments.push(current_front);
        proof {
            assert(front_segments@.map_values(|seg: Vec<Vec3>| seg@) =~= end_f.push(open_f));
        }
    }
    if current_back.len() > 0 {
        back_segments.push(current_back);
        proof {
            assert(back_segments@.map_values(|seg: Vec<Vec3>| seg@) =~= end_b.push(open_b));
        }
    }
    (front_segments, back_segments)
}

/// The orthographic screen mapping: `x` and `y` scaled by `radius` around
/// the centre `(cx, cy)`, exactly, still in fixed-point units.
pub fn to_screen(p: Vec3, radius: i64, cx: i64, cy: i64) -> (r: (i64, i64))
    requires
        p.bounded(600_000_000),
        0 < radius <= 250,
        abs(cx as int) <= 1_000_000_000,
        abs(cy as int) <= 1_000_000_000,
    ensures
        r.0 == p.x * radius + cx,
        r.1 == p.y * radius + cy,
{
    proof {
        crate::fixed::lemma_mul_abs_bound(p.x as int, radius as int, 600_000_000, 250);
        crate::fixed::lemma_mul_abs_bound(p.y as int, radius as int, 600_000_000, 250);
    }
    (p.x * radius + cx, p.y * radius + cy)
}

} // verus!
