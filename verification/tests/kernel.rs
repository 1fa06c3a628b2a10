use celestialsphere::circle::{
    arc_points, great_circle_points, grid_line_points, small_circle_points, GreatCircle,
    SmallCircle,
};
use celestialsphere::event::{
    apply_zoom, delete_point, pick_point, pole_from_two, transform_viewport_to_sphere,
};
use celestialsphere::fixed::{isqrt, SCALE};
use celestialsphere::point::{arc_distance, calculate_angle, snap_to_great_circle, Point};
use celestialsphere::quaternion::Quaternion;
use celestialsphere::splitter::split_hemispheres;
use celestialsphere::state::State;
use celestialsphere::trig::{acos_udeg, sin_cos_udeg};
use celestialsphere::vec3::Vec3;

const S: i64 = SCALE;

#[test]
fn isqrt_exact() {
    assert_eq!(isqrt(0), 0);
    assert_eq!(isqrt(1), 1);
    assert_eq!(isqrt(999_999), 999);
    assert_eq!(isqrt(1_000_000_000_000), 1_000_000);
}

#[test]
fn trig_special_values() {
    assert_eq!(sin_cos_udeg(0), (0, S));
    assert_eq!(sin_cos_udeg(90_000_000), (S, 0));
    assert_eq!(sin_cos_udeg(180_000_000), (0, -S));
    assert_eq!(sin_cos_udeg(270_000_000), (-S, 0));
    assert_eq!(sin_cos_udeg(360_000_000), (0, S));
    let (s45, c45) = sin_cos_udeg(45_000_000);
    assert!((s45 - 707_107).abs() <= 2);
    assert!((c45 - 707_107).abs() <= 2);
    let a = acos_udeg(0);
    assert!((a - 90_000_000).abs() <= 100);
}

#[test]
fn identity_rotation_is_exact() {
    let q = Quaternion::identity();
    let p = Vec3::new(S, 0, 0);
    assert_eq!(q.rotate_point_active(p), p);
    assert_eq!(q.rotate_point_passive(p), p);
}

#[test]
fn rotation_round_trip() {
    // a quaternion that is exactly unit in fixed point: 0.36 + 0.64 == 1
    let q = Quaternion { w: 600_000, x: 800_000, y: 0, z: 0 };
    for p in [
        Vec3::new(S, 0, 0),
        Vec3::new(0, S, 0),
        Vec3::new(0, 0, S),
        Vec3::new(577_350, 577_350, 577_350),
    ] {
        let there = q.rotate_point_active(p);
        let back = q.rotate_point_passive(there);
        assert!((back.x - p.x).abs() <= 20, "x came back as {}", back.x);
        assert!((back.y - p.y).abs() <= 20, "y came back as {}", back.y);
        assert!((back.z - p.z).abs() <= 20, "z came back as {}", back.z);
    }
}

fn dot(a: Vec3, b: Vec3) -> i64 {
    a.x * b.x + a.y * b.y + a.z * b.z
}

#[test]
fn great_circle_closes_and_stays_on_plane() {
    let pole = Vec3::new(577_350, 577_350, 577_350);
    let pts = great_circle_points(pole);
    assert_eq!(pts.len(), 201);
    assert_eq!(pts[0], pts[200]);
    for p in &pts {
        // the plane distance is zero up to rounding, at scale SCALE^2
        assert!(dot(*p, pole).abs() <= 10_000_000, "off plane by {}", dot(*p, pole));
        let n2 = dot(*p, *p);
        assert!((n2 - S * S).abs() <= 20_000_000_000, "norm2 {}", n2);
    }
}

#[test]
fn small_circle_closes_and_keeps_plane_distance() {
    let pole = Vec3::new(0, 0, S);
    let d = 500_000;
    let pts = small_circle_points(pole, d);
    assert_eq!(pts.len(), 201);
    assert_eq!(pts[0], pts[200]);
    for p in &pts {
        // point . pole is d, at scale SCALE^2
        assert!((dot(*p, pole) - d * S).abs() <= 10_000_000);
    }
}

#[test]
fn arc_endpoints_and_angle() {
    let p1 = Vec3::new(S, 0, 0);
    let p2 = Vec3::new(0, S, 0);
    let pts = arc_points(p1, p2);
    assert_eq!(pts.len(), 201);
    assert_eq!(pts[0], p1);
    let last = pts[200];
    assert!((last.x - p2.x).abs() <= 20);
    assert!((last.y - p2.y).abs() <= 20);
    assert!((last.z - p2.z).abs() <= 20);
    let t = arc_distance(p1, p2);
    assert!((t - 90_000_000).abs() <= 100);
}

#[test]
fn splitter_never_mixes_hemispheres() {
    // a meridian-like polyline that dips behind the sphere and comes back
    let pts = vec![
        Vec3::new(0, 0, S),
        Vec3::new(707_107, 0, 707_107),
        Vec3::new(S, 0, 0),
        Vec3::new(707_107, 0, -707_107),
        Vec3::new(0, 0, -S),
        Vec3::new(-707_107, 0, -707_107),
        Vec3::new(-S, 0, 0),
        Vec3::new(-707_107, 0, 707_107),
        Vec3::new(0, 0, S),
    ];
    let (front, back) = split_hemispheres(&pts);
    assert!(!front.is_empty());
    assert!(!back.is_empty());
    for seg in &front {
        assert!(!seg.is_empty());
        for p in seg {
            assert!(p.z >= 0);
        }
        for w in seg.windows(2) {
            assert!(!(w[0].z > 0 && w[1].z < 0) && !(w[0].z < 0 && w[1].z > 0));
        }
    }
    for seg in &back {
        assert!(!seg.is_empty());
        for p in seg {
            assert!(p.z <= 0);
        }
        for w in seg.windows(2) {
            assert!(!(w[0].z > 0 && w[1].z < 0) && !(w[0].z < 0 && w[1].z > 0));
        }
    }
}

#[test]
fn snap_keeps_point_already_on_circle() {
    // the great circle around the z axis: the equator; (1,0,0) lies on it
    let pole = Point::from_vec3(0, Vec3::new(0, 0, S));
    let points = vec![pole];
    let gcs = vec![GreatCircle::new(0)];
    let p = Vec3::new(S, 0, 0);
    let snapped = snap_to_great_circle(p, &gcs, &points, 50_000_000_000);
    assert_eq!(snapped, p);
}

#[test]
fn snap_projects_nearby_point() {
    let pole = Point::from_vec3(0, Vec3::new(0, 0, S));
    let points = vec![pole];
    let gcs = vec![GreatCircle::new(0)];
    // a point slightly off the equator snaps back onto it
    let p = Vec3::new(999_800, 0, 20_000);
    let snapped = snap_to_great_circle(p, &gcs, &points, 50_000_000_000);
    assert_eq!(snapped.z, 0);
    assert!((snapped.x - S).abs() <= 2);
    // a point outside the threshold is returned unchanged
    let far = Vec3::new(900_000, 0, 435_890);
    let kept = snap_to_great_circle(far, &gcs, &points, 50_000_000_000);
    assert_eq!(kept, far);
}

#[test]
fn octant_triangle_has_right_angles_and_excess() {
    let a_pos = Vec3::new(S, 0, 0);
    let b_pos = Vec3::new(0, S, 0);
    let c_pos = Vec3::new(0, 0, S);
    let side_a = arc_distance(b_pos, c_pos);
    let side_b = arc_distance(a_pos, c_pos);
    let side_c = arc_distance(a_pos, b_pos);
    assert!((side_a - 90_000_000).abs() <= 100);
    assert!((side_b - 90_000_000).abs() <= 100);
    assert!((side_c - 90_000_000).abs() <= 100);
    let angles = calculate_angle(side_a, side_b, side_c);
    for angle in angles {
        assert!((angle - 90_000_000).abs() <= 500, "angle {}", angle);
    }
    let excess = angles[0] + angles[1] + angles[2] - 180_000_000;
    assert!((excess - 90_000_000).abs() <= 1500, "excess {}", excess);
}

#[test]
fn toggle_select_single_mode() {
    let mut st = State::initialize();
    assert!(st.toggle_select(false, 3));
    assert_eq!(st.selected().as_slice(), &[3]);
    // clicking the sole selected point clears the selection
    assert!(!st.toggle_select(false, 3));
    assert!(st.selected().is_empty());
    assert!(st.toggle_select(false, 1));
    assert!(st.toggle_select(false, 2));
    assert_eq!(st.selected().as_slice(), &[2]);
}

#[test]
fn toggle_select_multi_mode() {
    let mut st = State::initialize();
    assert!(st.toggle_select(true, 1));
    assert!(st.toggle_select(true, 2));
    assert!(st.toggle_select(true, 3));
    assert_eq!(st.selected().as_slice(), &[1, 2, 3]);
    assert!(!st.toggle_select(true, 2));
    assert_eq!(st.selected().as_slice(), &[1, 3]);
}

#[test]
fn select_is_idempotent() {
    let mut st = State::initialize();
    assert!(st.select(7));
    assert!(!st.select(7));
    assert_eq!(st.selected().as_slice(), &[7]);
}

#[test]
fn group_selection_selects_whole_group() {
    let mut st = State::initialize();
    st.groups.push(vec![1, 2]);
    st.groups.push(vec![4, 5]);
    assert_eq!(st.find_group_containing(2), Some(0));
    assert_eq!(st.find_group_containing(4), Some(1));
    assert_eq!(st.find_group_containing(3), None);
    let members = st.get_group_members(1);
    assert_eq!(members, vec![1, 2]);
    let solo = st.get_group_members(3);
    assert_eq!(solo, vec![3]);
    // selecting a grouped point selects its whole group
    assert!(st.toggle_select_group(true, 1));
    assert!(st.selected().contains(&1) && st.selected().contains(&2));
    assert!(!st.selected().contains(&4));
    // toggling again deselects the whole group
    assert!(!st.toggle_select_group(true, 1));
    assert!(st.selected().is_empty());
    // single mode replaces the selection by the group
    assert!(st.toggle_select_group(false, 4));
    assert_eq!(st.selected().as_slice(), &[4, 5]);
}

#[test]
fn pop_and_clear_selection() {
    let mut st = State::initialize();
    st.toggle_select(true, 1);
    st.toggle_select(true, 2);
    assert_eq!(st.pop_selected(), Some(2));
    st.clear_selection();
    assert_eq!(st.pop_selected(), None);
}

#[test]
fn point_frames_follow_orientation() {
    let q = Quaternion { w: 600_000, x: 800_000, y: 0, z: 0 };
    let v = Vec3::new(0, S, 0);
    let p = Point::from_vec3_absolute(0, v, q);
    assert_eq!(p.absolute, v);
    assert_eq!(p.rotated, q.rotate_point_active(v));
    let mut p2 = Point::from_vec3_rotated(1, v, q);
    assert_eq!(p2.rotated, v);
    assert_eq!(p2.absolute, q.rotate_point_passive(v));
    // an unmovable point ignores move_to
    p2.movable = false;
    let before = p2.rotated;
    p2.move_to(Vec3::new(S, 0, 0), q);
    assert_eq!(p2.rotated, before);
    // the antipode negates both frames
    let inv = p2.new_inverted(2);
    assert_eq!(inv.absolute.x, -p2.absolute.x);
    assert_eq!(inv.rotated.y, -p2.rotated.y);
}

#[test]
fn vector_normalization() {
    let v = Vec3::new(2 * S, 0, 0);
    assert_eq!(v.normalize(), Vec3::new(S, 0, 0));
    assert_eq!(Vec3::new(0, 0, 0).normalize(), Vec3::new(0, 0, 0));
    let w = Vec3::new(600_000, 800_000, 0);
    assert_eq!(w.normalize(), w);
}

#[test]
fn grouping_and_renumbering() {
    let mut st = State::initialize();
    st.toggle_select(true, 1);
    st.toggle_select(true, 2);
    st.create_group_from_selected();
    assert_eq!(st.groups, vec![vec![1, 2]]);
    assert_eq!(st.find_group_containing(1), Some(0));

    // deleting point 1 with point 5 swapped into its slot: the reference to
    // 1 is dropped, leaving a singleton group that dissolves
    let mut st2 = State::initialize();
    st2.groups.push(vec![1, 2]);
    st2.update_group_indices(1, 5);
    assert!(st2.groups.is_empty());

    // deleting point 1 from a group that references the old last index 5:
    // the 5 is renamed to 1 and the group survives
    let mut st3 = State::initialize();
    st3.groups.push(vec![2, 5]);
    st3.update_group_indices(1, 5);
    assert_eq!(st3.groups, vec![vec![2, 1]]);

    // ungrouping a selected member dissolves a pair group
    let mut st4 = State::initialize();
    st4.groups.push(vec![1, 2]);
    st4.toggle_select(true, 1);
    st4.ungroup_selected();
    assert!(st4.groups.is_empty());

    // removing one member of a triple keeps the other two grouped
    let mut st5 = State::initialize();
    st5.groups.push(vec![1, 2, 3]);
    st5.remove_from_group(2);
    assert_eq!(st5.groups, vec![vec![1, 3]]);
}

#[test]
fn pole_from_antipodal_points_falls_back() {
    // the cross product of antipodal points vanishes; a perpendicular axis
    // replaces it instead of a zero pole
    let pole = pole_from_two(Vec3::new(S, 0, 0), Vec3::new(-S, 0, 0));
    assert_eq!(pole, Vec3::new(0, S, 0));
    // a regular pair gives the normalized cross product
    let pole2 = pole_from_two(Vec3::new(S, 0, 0), Vec3::new(0, S, 0));
    assert_eq!(pole2, Vec3::new(0, 0, S));
}

#[test]
fn axis_angle_and_euler_constructions() {
    let q = Quaternion::from_axis_angle(Vec3::new(0, 0, 7 * S), 90_000_000);
    // cos 45 and sin 45 at the half angle
    assert!((q.w - 707_107).abs() <= 2);
    assert!((q.z - 707_107).abs() <= 2);
    assert_eq!(q.x, 0);
    assert_eq!(q.y, 0);
    // the degenerate axis gives the identity
    let qid = Quaternion::from_axis_angle(Vec3::new(0, 0, 0), 90_000_000);
    assert_eq!(qid, Quaternion::identity());
    // a quarter-turn yaw built from Euler angles agrees with the axis form
    let qe = Quaternion::from_euler_deg([90_000_000, 0, 0]);
    assert!((qe.w - q.w).abs() <= 2 && (qe.z - q.z).abs() <= 2);
    // and converts back to the same angles, up to model resolution
    let e = qe.to_euler_deg();
    assert!((e[0] - 90_000_000).abs() <= 200, "yaw {}", e[0]);
    assert!(e[1] <= 200 || e[1] >= 360_000_000 - 200, "pitch {}", e[1]);
    assert!(e[2] <= 200 || e[2] >= 360_000_000 - 200, "roll {}", e[2]);
}

#[test]
fn grid_lines_follow_the_graticule() {
    let q = Quaternion::identity();
    // the equator as a parallel at latitude zero: all samples have z == 0
    let eq = grid_line_points(false, 0, 60, q);
    assert_eq!(eq.len(), 61);
    for p in &eq {
        assert_eq!(p.z, 0);
    }
    assert_eq!(eq[0], Vec3::new(S, 0, 0));
    // a meridian runs from the south pole to the north pole
    let m = grid_line_points(true, 0, 60, q);
    assert_eq!(m.len(), 61);
    assert_eq!(m[0], Vec3::new(0, 0, -S));
    assert_eq!(m[60], Vec3::new(0, 0, S));
}

#[test]
fn picking_and_viewport_lift() {
    let points = vec![
        Point::from_vec3(0, Vec3::new(S, 0, 0)),
        Point::from_vec3(1, Vec3::new(0, S, 0)),
    ];
    // a click right on the second point finds it
    assert_eq!(pick_point(10, 999_990, &points), Some(1));
    // a click far from every point finds nothing
    assert_eq!(pick_point(-500_000, -500_000, &points), None);
    // the centre of a 100x100 viewport lifts to the front pole
    let v = transform_viewport_to_sphere(50, 50, 0, 0, 100, 100).unwrap();
    assert_eq!(v, Vec3::new(0, 0, S));
    // a position outside the circle lifts to nothing
    assert!(transform_viewport_to_sphere(100, 100, 0, 0, 100, 100).is_none());
}

#[test]
fn zoom_is_clamped() {
    assert_eq!(apply_zoom(S, 0), S);
    // scrolling far out stops at half
    assert_eq!(apply_zoom(S / 2, 1_000_000), S / 2);
    // scrolling far in stops at double
    assert_eq!(apply_zoom(2 * S, -1_000_000), 2 * S);
    assert_eq!(apply_zoom(S, 100), 900_000);
}

#[test]
fn deletion_renumbers_every_reference() {
    // five points; delete index 1; the old index 4 is swapped into slot 1
    let mut points = vec![
        Point::from_vec3(0, Vec3::new(S, 0, 0)),
        Point::from_vec3(1, Vec3::new(0, S, 0)),
        Point::from_vec3(2, Vec3::new(0, 0, S)),
        Point::from_vec3(3, Vec3::new(-S, 0, 0)),
        Point::from_vec3(4, Vec3::new(0, -S, 0)),
    ];
    let mut arcs = vec![(0, 1), (2, 4), (0, 3)];
    let mut gcs = vec![GreatCircle::new(1), GreatCircle::new(4)];
    let mut scs = vec![SmallCircle::new(4, S / 2), SmallCircle::new(1, 0)];
    let mut st = State::initialize();
    st.groups.push(vec![1, 2, 4]);
    st.toggle_select(true, 4);
    st.toggle_select(true, 3);
    delete_point(&mut points, &mut arcs, &mut gcs, &mut scs, &mut st, 1);
    // one point fewer, and the swapped point carries the new index as id
    assert_eq!(points.len(), 4);
    assert_eq!(points[1].id, 1);
    assert_eq!(points[1].absolute, Vec3::new(0, -S, 0));
    // the arc touching the deleted point is gone; references to the old
    // last index 4 now point at 1; everything else is untouched
    assert_eq!(arcs, vec![(2, 1), (0, 3)]);
    // the circle on the deleted pole is gone, the one on the old last
    // index is renumbered
    assert_eq!(gcs.len(), 1);
    assert_eq!(gcs[0].pole, 1);
    assert_eq!(scs.len(), 1);
    assert_eq!(scs[0].pole, 1);
    assert_eq!(scs[0].plane_distance, S / 2);
    // the group lost the deleted member and kept the renumbered one
    assert_eq!(st.groups, vec![vec![2, 1]]);
    // the selection is renumbered the same way
    assert_eq!(st.selected().as_slice(), &[1, 3]);
    // every reference is in range
    for &(a, b) in arcs.iter() {
        assert!(a < points.len() && b < points.len());
    }
    for gc in gcs.iter() {
        assert!(gc.pole < points.len());
    }
}

#[test]
fn arc_distance_is_symmetric_and_zero_on_equal_points() {
    let a = Vec3::new(577_350, 577_350, 577_350);
    let b = Vec3::new(0, 800_000, 600_000);
    assert_eq!(arc_distance(a, b), arc_distance(b, a));
    // two copies of an exactly unit point are at distance exactly zero
    let u = Vec3::new(0, 600_000, 800_000);
    assert_eq!(arc_distance(u, u), 0);
}

#[test]
fn degenerate_triangle_has_zero_angles() {
    // a side of length zero degenerates its flanking sines; the guarded law
    // of cosines defines those angles as exactly zero
    let angles = calculate_angle(0, 0, 0);
    assert_eq!(angles, [0, 0, 0]);
}
