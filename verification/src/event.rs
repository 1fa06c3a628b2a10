//! The interaction decisions: picking a point near a click, lifting a
//! viewport position onto the sphere, constructing a great-circle pole from
//! two selected points, zooming, and the transactional point deletion that
//! renumbers every structure holding point indices.

use crate::circle::{GreatCircle, SmallCircle};
use crate::quaternion::Quaternion;
use crate::fixed::{
    clamp_i64, isqrt, lemma_mul_abs_bound, lemma_rdiv_bound, rdiv, rdiv_i64, sqrt_floor, wide_mul,
    SCALE,
};
use crate::point::Point;
use crate::state::{renum_seq, State};
use crate::trig::clamp_spec;
use crate::vec3::Vec3;
use vstd::math::abs;
use vstd::prelude::*;

verus! {

/// A unit direction orthogonal to `p`, chosen against its smallest
/// coordinate: the stable fallback axis for degenerate cross products.
pub open spec fn perp_spec(p: Vec3) -> Vec3 {
    let raw = if abs(p.x as int) < abs(p.y as int) && abs(p.x as int) < abs(p.z as int) {
        Vec3 { x: 0, y: (-(p.z as int)) as i64, z: p.y }
    } else if abs(p.y as int) < abs(p.z as int) {
        Vec3 { x: p.z, y: 0, z: (-(p.x as int)) as i64 }
    } else {
        Vec3 { x: (-(p.y as int)) as i64, y: p.x, z: 0 }
    };
    raw.normalize_spec()
}

/// The pole of the great circle through two points: their normalized cross
/// product, or, when the points are nearly parallel or antipodal and the
/// cross product nearly vanishes, the perpendicular-axis fallback.
pub open spec fn pole_from_two_spec(p1: Vec3, p2: Vec3) -> Vec3 {
    let cr = p1.cross_spec(p2);
    if cr.norm2() < 100 {
        perp_spec(p1)
    } else {
        cr.normalize_spec()
    }
}

/// Construct the pole of the great circle through `p1` and `p2`, exactly as
/// `pole_from_two_spec` says: antipodal or coincident inputs fall back to a
/// perpendicular axis instead of a vanishing pole.
pub fn pole_from_two(p1: Vec3, p2: Vec3) -> (r: Vec3)
    requires
        p1.bounded(2_000_000),
        p2.bounded(2_000_000),
    ensures
        r == pole_from_two_spec(p1, p2),
        r.bounded(SCALE as int),
{
    proof {
        lemma_mul_abs_bound(p1.y as int, p2.z as int, 2_000_000, 2_000_000);
        lemma_mul_abs_bound(p1.z as int, p2.y as int, 2_000_000, 2_000_000);
        lemma_mul_abs_bound(p1.z as int, p2.x as int, 2_000_000, 2_000_000);
        lemma_mul_abs_bound(p1.x as int, p2.z as int, 2_000_000, 2_000_000);
        lemma_mul_abs_bound(p1.x as int, p2.y as int, 2_000_000, 2_000_000);
        lemma_mul_abs_bound(p1.y as int, p2.x as int, 2_000_000, 2_000_000);
        lemma_rdiv_bound(p1.cross_x(p2), SCALE as int, 8_000_000);
        lemma_rdiv_bound(p1.cross_y(p2), SCALE as int, 8_000_000);
        lemma_rdiv_bound(p1.cross_z(p2), SCALE as int, 8_000_000);
    }
    let cr = p1.cross(p2);
    let n2 = cr.norm2_exec();
    if n2 < 100 {
        let ax = if p1.x >= 0 {
            p1.x
        } else {
            -p1.x
        };
        let ay = if p1.y >= 0 {
            p1.y
        } else {
            -p1.y
        };
        let az = if p1.z >= 0 {
            p1.z
        } else {
            -p1.z
        };
        let raw = if ax < ay && ax < az {
            Vec3 { x: 0, y: -p1.z, z: p1.y }
        } else if ay < az {
            Vec3 { x: p1.z, y: 0, z: -p1.x }
        } else {
            Vec3 { x: -p1.y, y: p1.x, z: 0 }
        };
        raw.normalize()
    } else {
        cr.normalize()
    }
}

/// Whether the point lies on the front hemisphere within the squared
/// screen-distance threshold of the pick position.
pub open spec fn pick_hit(px: i64, py: i64, p: Point) -> bool {
    &&& p.rotated.z >= 0
    &&& (px - p.rotated.x) * (px - p.rotated.x) + (py - p.rotated.y) * (py - p.rotated.y)
        <= 2_000_000_000
}

/// The id of the first front-hemisphere point within the pick threshold of
/// the view-space position `(px, py)`, scanning in storage order.
pub fn pick_point(px: i64, py: i64, points: &Vec<Point>) -> (r: Option<usize>)
    requires
        abs(px as int) <= 2_000_000,
        abs(py as int) <= 2_000_000,
        forall|k: int|
            0 <= k < points@.len() ==> (#[trigger] points@[k]).rotated.bounded(2_000_000),
    ensures
        match r {
            Some(id) => exists|j: int|
                0 <= j < points@.len() && #[trigger] pick_hit(px, py, points@[j]) && id
                    == points@[j].id && forall|k: int| 0 <= k < j ==> !pick_hit(
                    px,
                    py,
                    #[trigger] points@[k],
                ),
            None => forall|j: int|
                0 <= j < points@.len() ==> !pick_hit(px, py, #[trigger] points@[j]),
        },
{
    let mut i: usize = 0;
    while i < points.len()
        invariant
            i <= points@.len(),
            abs(px as int) <= 2_000_000,
            abs(py as int) <= 2_000_000,
            forall|k: int|
                0 <= k < points@.len() ==> (#[trigger] points@[k]).rotated.bounded(2_000_000),
            forall|k: int| 0 <= k < i ==> !pick_hit(px, py, #[trigger] points@[k]),
        decreases points@.len() - i,
    {
        let p = &points[i];
        if p.rotated.z >= 0 {
            let dx = px - p.rotated.x;
            let dy = py - p.rotated.y;
            proof {
                lemma_mul_abs_bound(dx as int, dx as int, 4_000_000, 4_000_000);
                lemma_mul_abs_bound(dy as int, dy as int, 4_000_000, 4_000_000);
                assert(dx as int * dx >= 0 && dy as int * dy >= 0) by (nonlinear_arith);
            }
            let d2 = wide_mul(dx, dx) + wide_mul(dy, dy);
            if d2 <= 2_000_000_000 {
                proof {
                    assert(pick_hit(px, py, points@[i as int]));
                }
                return Some(p.id);
            }
        }
        i += 1;
    }
    None
}

/// Where a viewport position lands on the unit sphere: the position is
/// normalized into the circle of the bounding rectangle, and lifted to the
/// front hemisphere when it falls inside the silhouette; a position outside
/// returns nothing, replacing the original sentinel value.
pub open spec fn viewport_to_sphere_spec(
    vx: int,
    vy: int,
    left: int,
    top: int,
    width: int,
    height: int,
) -> Option<Vec3> {
    let cx = rdiv((2 * (vx - left) - width) * SCALE, width);
    let cy = rdiv((2 * (vy - top) - height) * SCALE, height);
    if cx * cx + cy * cy <= SCALE * SCALE {
        Some(
            Vec3 {
                x: cx as i64,
                y: cy as i64,
                z: sqrt_floor((SCALE * SCALE - cx * cx - cy * cy) as nat) as i64,
            },
        )
    } else {
        None
    }
}

/// Lift a viewport position onto the sphere through the bounding rectangle
/// of the rendered circle, exactly as `viewport_to_sphere_spec` says.
pub fn transform_viewport_to_sphere(
    vx: i64,
    vy: i64,
    left: i64,
    top: i64,
    width: i64,
    height: i64,
) -> (r: Option<Vec3>)
    requires
        0 < width <= 1_000_000,
        0 < height <= 1_000_000,
        abs(vx as int) <= 1_000_000_000,
        abs(vy as int) <= 1_000_000_000,
        abs(left as int) <= 1_000_000_000,
        abs(top as int) <= 1_000_000_000,
    ensures
        r == viewport_to_sphere_spec(
            vx as int,
            vy as int,
            left as int,
            top as int,
            width as int,
            height as int,
        ),
        r matches Some(v) ==> v.bounded(SCALE as int) && v.z >= 0,
{
    proof {
        lemma_mul_abs_bound(
            2 * (vx - left) - width,
            SCALE as int,
            4_001_000_000,
            SCALE as int,
        );
        lemma_mul_abs_bound(
            2 * (vy - top) - height,
            SCALE as int,
            4_001_000_000,
            SCALE as int,
        );
    }
    let cx = rdiv_i64(
        wide_mul(2 * (vx - left) - width, SCALE),
        width as i128,
        4_001_000_000_000_000,
    );
    let cy = rdiv_i64(
        wide_mul(2 * (vy - top) - height, SCALE),
        height as i128,
        4_001_000_000_000_000,
    );
    proof {
        lemma_mul_abs_bound(cx as int, cx as int, 4_001_000_000_000_000, 4_001_000_000_000_000);
        lemma_mul_abs_bound(cy as int, cy as int, 4_001_000_000_000_000, 4_001_000_000_000_000);
        assert(cx as int * cx >= 0 && cy as int * cy >= 0) by (nonlinear_arith);
    }
    let r2 = wide_mul(cx, cx) + wide_mul(cy, cy);
    let ss = wide_mul(SCALE, SCALE);
    if r2 <= ss {
        proof {
            assert(abs(cx as int) <= SCALE && abs(cy as int) <= SCALE) by (nonlinear_arith)
                requires
                    cx as int * cx + cy as int * cy <= SCALE * SCALE,
                    cx as int * cx >= 0,
                    cy as int * cy >= 0,
                    SCALE == 1_000_000,
            ;
            crate::fixed::lemma_sqrt_floor((SCALE * SCALE - cx as int * cx - cy as int * cy) as nat);
            let z0 = sqrt_floor((SCALE * SCALE - cx as int * cx - cy as int * cy) as nat) as int;
            assert(z0 <= SCALE) by (nonlinear_arith)
                requires
                    z0 * z0 <= SCALE * SCALE - cx as int * cx - cy as int * cy,
                    cx as int * cx >= 0,
                    cy as int * cy >= 0,
                    z0 >= 0,
                    SCALE == 1_000_000,
            ;
        }
        let z = isqrt((ss - r2) as u64);
        Some(Vec3 { x: cx, y: cy, z: z as i64 })
    } else {
        None
    }
}

/// The zoom after one wheel step of `delta` thousandths: the factor
/// `1 - delta/1000` applied and clamped into the half-to-double range.
pub open spec fn zoom_spec(zoom: int, delta: int) -> int {
    clamp_spec(rdiv(zoom * (1000 - delta), 1000), SCALE as int / 2, 2 * SCALE as int)
}

/// Apply one scroll step to the zoom scalar, exactly as `zoom_spec` says.
pub fn apply_zoom(zoom: i64, delta: i64) -> (r: i64)
    requires
        0 <= zoom <= 2 * SCALE,
        abs(delta as int) <= 1_000_000,
    ensures
        r == zoom_spec(zoom as int, delta as int),
        SCALE / 2 <= r <= 2 * SCALE,
{
    proof {
        lemma_mul_abs_bound(zoom as int, 1000 - delta, 2 * SCALE as int, 1_001_000);
    }
    let scaled = rdiv_i64(wide_mul(zoom, 1000 - delta), 1000, 3_000_000_000);
    clamp_i64(scaled, SCALE / 2, 2 * SCALE)
}



/// The incremental rotation that a drag from `orig` to `new_pos` asks for:
/// the axis is the (unnormalized) cross product, the angle the modelled arc
/// distance; a drag below the movement threshold, or one whose cross product
/// degenerates, asks for none.
pub open spec fn drag_rotation_spec(orig: Vec3, new_pos: Vec3) -> Option<Quaternion> {
    let pq = crate::circle::arc_dot(orig, new_pos);
    if pq >= SCALE - 1 {
        None
    } else {
        let cr = orig.cross_spec(new_pos);
        if cr.norm2() < 100 {
            None
        } else {
            Some(
                crate::quaternion::from_axis_angle_spec(
                    cr,
                    crate::trig::acos_spec(pq) as i64,
                ),
            )
        }
    }
}

/// Derive the incremental rotation of a point drag, exactly as
/// `drag_rotation_spec` says: nothing for an insignificant movement or a
/// degenerate cross product, else the axis-angle rotation carrying `orig`
/// toward `new_pos`.
pub fn drag_rotation(orig: Vec3, new_pos: Vec3) -> (r: Option<Quaternion>)
    requires
        orig.bounded(2_000_000),
        new_pos.bounded(2_000_000),
    ensures
        r == drag_rotation_spec(orig, new_pos),
{
    proof {
        lemma_mul_abs_bound(orig.x as int, new_pos.x as int, 2_000_000, 2_000_000);
        lemma_mul_abs_bound(orig.y as int, new_pos.y as int, 2_000_000, 2_000_000);
        lemma_mul_abs_bound(orig.z as int, new_pos.z as int, 2_000_000, 2_000_000);
        lemma_rdiv_bound(orig.dot_spec(new_pos), SCALE as int, 12_000_000);
    }
    let dot = orig.dot(new_pos);
    let pq = clamp_i64(rdiv_i64(dot as i128, SCALE as i128, 12_000_000), -SCALE, SCALE);
    if pq >= SCALE - 1 {
        return None;
    }
    proof {
        lemma_mul_abs_bound(orig.y as int, new_pos.z as int, 2_000_000, 2_000_000);
        lemma_mul_abs_bound(orig.z as int, new_pos.y as int, 2_000_000, 2_000_000);
        lemma_mul_abs_bound(orig.z as int, new_pos.x as int, 2_000_000, 2_000_000);
        lemma_mul_abs_bound(orig.x as int, new_pos.z as int, 2_000_000, 2_000_000);
        lemma_mul_abs_bound(orig.x as int, new_pos.y as int, 2_000_000, 2_000_000);
        lemma_mul_abs_bound(orig.y as int, new_pos.x as int, 2_000_000, 2_000_000);
        lemma_rdiv_bound(orig.cross_x(new_pos), SCALE as int, 8_000_000);
        lemma_rdiv_bound(orig.cross_y(new_pos), SCALE as int, 8_000_000);
        lemma_rdiv_bound(orig.cross_z(new_pos), SCALE as int, 8_000_000);
    }
    let cr = orig.cross(new_pos);
    let m2 = cr.norm2_exec();
    if m2 < 100 {
        return None;
    }
    let angle = crate::trig::acos_udeg(pq);
    Some(Quaternion::from_axis_angle(cr, angle))
}

/// An index after the swap-with-last renumbering: the old last index now
/// names the slot of the removed point.
pub open spec fn ren_idx(x: usize, removed: usize, last: usize) -> usize {
    if x == last {
        removed
    } else {
        x
    }
}

/// The arcs that survive deleting the point at `removed`: arcs touching it
/// are dropped, endpoint references to `last` are renamed to `removed`.
pub open spec fn arcs_renum(arcs: Seq<(usize, usize)>, removed: usize, last: usize) -> Seq<
    (usize, usize),
>
    decreases arcs.len(),
{
    if arcs.len() == 0 {
        Seq::empty()
    } else {
        let rest = arcs_renum(arcs.drop_last(), removed, last);
        let a = arcs.last();
        if a.0 == removed || a.1 == removed {
            rest
        } else {
            rest.push((ren_idx(a.0, removed, last), ren_idx(a.1, removed, last)))
        }
    }
}

proof fn lemma_arcs_renum_push(arcs: Seq<(usize, usize)>, removed: usize, last: usize, a: (usize, usize))
    ensures
        (a.0 == removed || a.1 == removed) ==> arcs_renum(arcs.push(a), removed, last)
            == arcs_renum(arcs, removed, last),
        !(a.0 == removed || a.1 == removed) ==> arcs_renum(arcs.push(a), removed, last)
            == arcs_renum(arcs, removed, last).push(
            (ren_idx(a.0, removed, last), ren_idx(a.1, removed, last)),
        ),
{
    assert(arcs.push(a).drop_last() =~= arcs);
    assert(arcs.push(a).last() == a);
}

/// The great circles that survive deleting the point at `removed`: circles
/// whose pole was the point are dropped, poles at `last` are renamed.
pub open spec fn gcs_renum(gs: Seq<GreatCircle>, removed: usize, last: usize) -> Seq<GreatCircle>
    decreases gs.len(),
{
    if gs.len() == 0 {
        Seq::empty()
    } else {
        let rest = gcs_renum(gs.drop_last(), removed, last);
        let g = gs.last();
        if g.pole == removed {
            rest
        } else {
            rest.push(GreatCircle { pole: ren_idx(g.pole, removed, last), name: g.name })
        }
    }
}

/// The small circles that survive deleting the point at `removed`.
pub open spec fn scs_renum(gs: Seq<SmallCircle>, removed: usize, last: usize) -> Seq<SmallCircle>
    decreases gs.len(),
{
    if gs.len() == 0 {
        Seq::empty()
    } else {
        let rest = scs_renum(gs.drop_last(), removed, last);
        let g = gs.last();
        if g.pole == removed {
            rest
        } else {
            rest.push(
                SmallCircle {
                    pole: ren_idx(g.pole, removed, last),
                    plane_distance: g.plane_distance,
                    name: g.name,
                },
            )
        }
    }
}

/// Rebuild the arc list under the swap-with-last renumbering; every
/// surviving endpoint stays strictly below the shrunken point count.
fn renum_arcs(v: &Vec<(usize, usize)>, removed: usize, last: usize, bound: usize) -> (r: Vec<
    (usize, usize),
>)
    requires
        forall|k: int|
            0 <= k < v@.len() ==> (#[trigger] v@[k]).0 < bound && v@[k].1 < bound,
        removed < bound,
        last == bound - 1,
    ensures
        r@ == arcs_renum(v@, removed, last),
        forall|k: int|
            0 <= k < r@.len() ==> (#[trigger] r@[k]).0 < bound - 1 && r@[k].1 < bound - 1,
{
    let mut out: Vec<(usize, usize)> = Vec::new();
    let mut i: usize = 0;
    proof {
        assert(out@ =~= arcs_renum(v@.subrange(0, 0), removed, last));
    }
    while i < v.len()
        invariant
            i <= v@.len(),
            forall|k: int|
                0 <= k < v@.len() ==> (#[trigger] v@[k]).0 < bound && v@[k].1 < bound,
            removed < bound,
            last == bound - 1,
            out@ == arcs_renum(v@.subrange(0, i as int), removed, last),
            forall|k: int|
                0 <= k < out@.len() ==> (#[trigger] out@[k]).0 < bound - 1 && out@[k].1 < bound
                    - 1,
        decreases v@.len() - i,
    {
        let ghost pre = v@.subrange(0, i as int);
        let a = v[i];
        proof {
            assert(v@.subrange(0, i as int + 1) =~= pre.push(a));
            lemma_arcs_renum_push(pre, removed, last, a);
        }
        if a.0 != removed && a.1 != removed {
            let b0 = if a.0 == last {
                removed
            } else {
                a.0
            };
            let b1 = if a.1 == last {
                removed
            } else {
                a.1
            };
            out.push((b0, b1));
        }
        i += 1;
    }
    proof {
        assert(v@.subrange(0, v@.len() as int) =~= v@);
    }
    out
}

proof fn lemma_gcs_renum_push(gs: Seq<GreatCircle>, removed: usize, last: usize, g: GreatCircle)
    ensures
        g.pole == removed ==> gcs_renum(gs.push(g), removed, last) == gcs_renum(gs, removed, last),
        g.pole != removed ==> gcs_renum(gs.push(g), removed, last) == gcs_renum(
            gs,
            removed,
            last,
        ).push(GreatCircle { pole: ren_idx(g.pole, removed, last), name: g.name }),
{
    assert(gs.push(g).drop_last() =~= gs);
    assert(gs.push(g).last() == g);
}

proof fn lemma_scs_renum_push(gs: Seq<SmallCircle>, removed: usize, last: usize, g: SmallCircle)
    ensures
        g.pole == removed ==> scs_renum(gs.push(g), removed, last) == scs_renum(gs, removed, last),
        g.pole != removed ==> scs_renum(gs.push(g), removed, last) == scs_renum(
            gs,
            removed,
            last,
        ).push(
            SmallCircle {
                pole: ren_idx(g.pole, removed, last),
                plane_distance: g.plane_distance,
                name: g.name,
            },
        ),
{
    assert(gs.push(g).drop_last() =~= gs);
    assert(gs.push(g).last() == g);
}

/// Renumber the great circles in place under the swap-with-last protocol.
fn renum_gcs(v: &mut Vec<GreatCircle>, removed: usize, last: usize, bound: usize)
    requires
        forall|k: int| 0 <= k < old(v)@.len() ==> (#[trigger] old(v)@[k]).pole < bound,
        removed < bound,
        last == bound - 1,
    ensures
        final(v)@ == gcs_renum(old(v)@, removed, last),
        forall|k: int| 0 <= k < final(v)@.len() ==> (#[trigger] final(v)@[k]).pole < bound - 1,
{
    let ghost og = old(v)@;
    let mut j: usize = 0;
    let ghost mut k: int = 0;
    proof {
        assert(og.subrange(0, 0) =~= Seq::<GreatCircle>::empty());
        assert(v@ =~= gcs_renum(og.subrange(0, 0), removed, last) + og.subrange(0, og.len() as int));
        assert(og.subrange(0, og.len() as int) =~= og);
    }
    while j < v.len()
        invariant
            0 <= k <= og.len(),
            j == gcs_renum(og.subrange(0, k), removed, last).len(),
            j <= v@.len(),
            v@ == gcs_renum(og.subrange(0, k), removed, last) + og.subrange(k, og.len() as int),
            forall|k2: int| 0 <= k2 < og.len() ==> (#[trigger] og[k2]).pole < bound,
            removed < bound,
            last == bound - 1,
            forall|k2: int| 0 <= k2 < j ==> (#[trigger] v@[k2]).pole < bound - 1,
        decreases v@.len() - j,
    {
        let ghost pre = og.subrange(0, k);
        let ghost done = gcs_renum(pre, removed, last);
        proof {
            assert(og.len() - k == v@.len() - j);
            assert(v@[j as int] == og.subrange(k, og.len() as int)[0]);
            assert(og.subrange(k, og.len() as int)[0] == og[k]);
            assert(og.subrange(0, k + 1) =~= pre.push(og[k]));
            lemma_gcs_renum_push(pre, removed, last, og[k]);
        }
        let pole = v[j].pole;
        if pole == removed {
            let dropped = v.remove(j);
            proof {
                assert(v@ =~= done + og.subrange(k + 1, og.len() as int));
            }
        } else if pole == last {
            let mut g = v.remove(j);
            g.pole = removed;
            v.insert(j, g);
            proof {
                assert(g == (GreatCircle { pole: ren_idx(og[k].pole, removed, last), name: og[k].name }));
                assert(v@ =~= done.push(g) + og.subrange(k + 1, og.len() as int));
            }
            j += 1;
        } else {
            proof {
                assert(v@ =~= done.push(og[k]) + og.subrange(k + 1, og.len() as int));
                assert(og[k] == (GreatCircle { pole: ren_idx(og[k].pole, removed, last), name: og[k].name }));
            }
            j += 1;
        }
        proof {
            k = k + 1;
        }
    }
    proof {
        assert(k == og.len());
        assert(og.subrange(0, og.len() as int) =~= og);
        assert(og.subrange(og.len() as int, og.len() as int) =~= Seq::<GreatCircle>::empty());
        assert(v@ =~= gcs_renum(og, removed, last));
    }
}

/// Renumber the small circles in place under the swap-with-last protocol.
fn renum_scs(v: &mut Vec<SmallCircle>, removed: usize, last: usize, bound: usize)
    requires
        forall|k: int| 0 <= k < old(v)@.len() ==> (#[trigger] old(v)@[k]).pole < bound,
        removed < bound,
        last == bound - 1,
    ensures
        final(v)@ == scs_renum(old(v)@, removed, last),
        forall|k: int| 0 <= k < final(v)@.len() ==> (#[trigger] final(v)@[k]).pole < bound - 1,
{
    let ghost og = old(v)@;
    let mut j: usize = 0;
    let ghost mut k: int = 0;
    proof {
        assert(og.subrange(0, 0) =~= Seq::<SmallCircle>::empty());
        assert(v@ =~= scs_renum(og.subrange(0, 0), removed, last) + og.subrange(0, og.len() as int));
        assert(og.subrange(0, og.len() as int) =~= og);
    }
    while j < v.len()
        invariant
            0 <= k <= og.len(),
            j == scs_renum(og.subrange(0, k), removed, last).len(),
            j <= v@.len(),
            v@ == scs_renum(og.subrange(0, k), removed, last) + og.subrange(k, og.len() as int),
            forall|k2: int| 0 <= k2 < og.len() ==> (#[trigger] og[k2]).pole < bound,
            removed < bound,
            last == bound - 1,
            forall|k2: int| 0 <= k2 < j ==> (#[trigger] v@[k2]).pole < bound - 1,
        decreases v@.len() - j,
    {
        let ghost pre = og.subrange(0, k);
        let ghost done = scs_renum(pre, removed, last);
        proof {
            assert(og.len() - k == v@.len() - j);
            assert(v@[j as int] == og.subrange(k, og.len() as int)[0]);
            assert(og.subrange(k, og.len() as int)[0] == og[k]);
            assert(og.subrange(0, k + 1) =~= pre.push(og[k]));
            lemma_scs_renum_push(pre, removed, last, og[k]);
        }
        let pole = v[j].pole;
        if pole == removed {
            let dropped = v.remove(j);
            proof {
                assert(v@ =~= done + og.subrange(k + 1, og.len() as int));
            }
        } else if pole == last {
            let mut g = v.remove(j);
            g.pole = removed;
            v.insert(j, g);
            proof {
                assert(g == (SmallCircle {
                    pole: ren_idx(og[k].pole, removed, last),
                    plane_distance: og[k].plane_distance,
                    name: og[k].name,
                }));
                assert(v@ =~= done.push(g) + og.subrange(k + 1, og.len() as int));
            }
            j += 1;
        } else {
            proof {
                assert(v@ =~= done.push(og[k]) + og.subrange(k + 1, og.len() as int));
                assert(og[k] == (SmallCircle {
                    pole: ren_idx(og[k].pole, removed, last),
                    plane_distance: og[k].plane_distance,
                    name: og[k].name,
                }));
            }
            j += 1;
        }
        proof {
            k = k + 1;
        }
    }
    proof {
        assert(k == og.len());
        assert(og.subrange(0, og.len() as int) =~= og);
        assert(og.subrange(og.len() as int, og.len() as int) =~= Seq::<SmallCircle>::empty());
        assert(v@ =~= scs_renum(og, removed, last));
    }
}

/// The point with its id rewritten: the identity a point gets when it is
/// swapped into a freed slot.
pub open spec fn with_id(p: Point, id: usize) -> Point {
    Point { id, ..p }
}

/// Delete the point at index `i` by the swap-with-last protocol, updating
/// every structure that stores point indices in the same step: the last
/// point takes slot `i` (its id rewritten), arcs and circles referencing the
/// deleted point are dropped, every reference to the old last index is
/// rewritten to `i`, the groups are renumbered and undersized ones
/// dissolved, and the selection is renumbered. No reference dangles: every
/// surviving index is strictly below the new point count.
pub fn delete_point(
    points: &mut Vec<Point>,
    arcs: &mut Vec<(usize, usize)>,
    great_circles: &mut Vec<GreatCircle>,
    small_circles: &mut Vec<SmallCircle>,
    st: &mut State,
    i: usize,
)
    requires
        i < old(points)@.len(),
        old(st).wf(),
        forall|k: int|
            0 <= k < old(arcs)@.len() ==> (#[trigger] old(arcs)@[k]).0 < old(points)@.len()
                && old(arcs)@[k].1 < old(points)@.len(),
        forall|k: int|
            0 <= k < old(great_circles)@.len() ==> (#[trigger] old(great_circles)@[k]).pole < old(points)@.len(),
        forall|k: int|
            0 <= k < old(small_circles)@.len() ==> (#[trigger] old(small_circles)@[k]).pole < old(points)@.len(),
    ensures
        final(points)@.len() == old(points)@.len() - 1,
        i + 1 < old(points)@.len() ==> final(points)@ == old(points)@.drop_last().update(
            i as int,
            with_id(old(points)@[old(points)@.len() - 1], i),
        ),
        i + 1 == old(points)@.len() ==> final(points)@ == old(points)@.drop_last(),
        final(arcs)@ == arcs_renum(old(arcs)@, i, (old(points)@.len() - 1) as usize),
        final(great_circles)@ == gcs_renum(
            old(great_circles)@,
            i,
            (old(points)@.len() - 1) as usize,
        ),
        final(small_circles)@ == scs_renum(
            old(small_circles)@,
            i,
            (old(points)@.len() - 1) as usize,
        ),
        final(st).selected@ == renum_seq(
            old(st).selected@,
            i,
            (old(points)@.len() - 1) as usize,
        ),
        final(st).groups@.map_values(|g: Vec<usize>| g@) == crate::state::groups_renum_n(
            old(st).groups@.map_values(|g: Vec<usize>| g@),
            i,
            (old(points)@.len() - 1) as usize,
            old(st).groups@.len() as int,
        ),
        final(st).wf(),
        final(st).zoom == old(st).zoom && final(st).rotation == old(st).rotation && final(st).quaternion == old(st).quaternion && final(st).show_grid == old(st).show_grid && final(st).show_hidden == old(st).show_hidden && final(st).show_center == old(st).show_center,
        forall|k: int|
            0 <= k < final(arcs)@.len() ==> (#[trigger] final(arcs)@[k]).0 < final(points)@.len()
                && final(arcs)@[k].1 < final(points)@.len(),
        forall|k: int|
            0 <= k < final(great_circles)@.len() ==> (#[trigger] final(great_circles)@[k]).pole
                < final(points)@.len(),
        forall|k: int|
            0 <= k < final(small_circles)@.len() ==> (#[trigger] final(small_circles)@[k]).pole
                < final(points)@.len(),
{
    let last = points.len() - 1;
    let new_arcs = renum_arcs(arcs, i, last, points.len());
    *arcs = new_arcs;
    renum_gcs(great_circles, i, last, points.len());
    renum_scs(small_circles, i, last, points.len());
    st.update_group_indices(i, last);
    let new_sel = crate::state::renum_group(&st.selected, i, last);
    proof {
        assert(crate::state::nodup(new_sel@));
    }
    st.selected = new_sel;
    let moved = points.swap_remove(i);
    if i < points.len() {
        let mut p = points.remove(i);
        p.id = i;
        points.insert(i, p);
        proof {
            let ol = old(points)@;
            let n = ol.len() as int;
            assert(points@ =~= ol.update(i as int, ol[n - 1]).drop_last().update(
                i as int,
                with_id(ol[n - 1], i),
            ));
            assert(points@ =~= ol.drop_last().update(i as int, with_id(ol[n - 1], i)));
        }
    } else {
        proof {
            let ol = old(points)@;
            let n = ol.len() as int;
            assert(points@ =~= ol.drop_last());
        }
    }
}

} // verus!
