use comet_algorithms::{compute_case, contour, intersect_z_plane, single_contour, Frac, Point};

fn fr(n: i128, d: i128) -> Frac {
    Frac::new(n, d)
}

fn fi(n: i128) -> Frac {
    Frac::new(n, 1)
}

fn pt(x: Frac, y: Frac, z: Frac) -> Point {
    Point::new(x, y, z)
}

fn range_of(z: &[Frac; 4]) -> Frac {
    let mut mn = z[0];
    let mut mx = z[0];
    for k in 1..4 {
        if z[k].lt(mn) {
            mn = z[k];
        }
        if mx.lt(z[k]) {
            mx = z[k];
        }
    }
    mx.sub(mn)
}

fn debug_contour(z: [Frac; 4], level: Frac) -> Vec<Vec<Point>> {
    let range = range_of(&z);
    single_contour(
        &vec![fi(0), fi(1)],
        &vec![fi(0), fi(1)],
        &z.to_vec(),
        level,
        range,
    )
}

#[test]
fn test_intersect_z_plane() {
    assert_eq!(
        intersect_z_plane(
            &pt(fi(0), fi(0), fi(0)),
            &pt(fi(2), fi(0), fi(1)),
            fr(1, 5)
        )
        .unwrap(),
        pt(fr(2, 5), fi(0), fr(1, 5))
    );
    assert_eq!(
        intersect_z_plane(&pt(fi(0), fi(0), fi(0)), &pt(fi(2), fi(0), fi(1)), fi(1)).unwrap(),
        pt(fi(2), fi(0), fi(1))
    );
    assert_eq!(
        intersect_z_plane(
            &pt(fi(0), fi(0), fi(0)),
            &pt(fi(2), fi(0), fi(1)),
            fr(11, 10)
        ),
        None
    );
    assert_eq!(
        intersect_z_plane(
            &pt(fi(0), fi(0), fi(0)),
            &pt(fi(2), fi(0), fi(1)),
            fr(-1, 100)
        ),
        None
    );
}

#[test]
fn test_contour_no_intersection() {
    // All on level
    assert_eq!(
        debug_contour([fi(0), fi(0), fi(0), fi(0)], fi(0)),
        Vec::<Vec<Point>>::new()
    );
    // All below level
    assert_eq!(
        debug_contour([fi(20), fi(-20), fi(-20), fi(20)], fi(50)),
        Vec::<Vec<Point>>::new()
    );
    // All above level
    assert_eq!(
        debug_contour([fi(20), fi(-20), fi(-20), fi(20)], fi(-50)),
        Vec::<Vec<Point>>::new()
    );
}

#[test]
fn test_contour_saddles() {
    // Right on
    assert_eq!(
        debug_contour([fi(-1), fi(1), fi(1), fi(-1)], fi(0)),
        vec![
            vec![
                pt(fi(1), fr(1, 2), fi(0)),
                pt(fr(1, 2), fr(1, 2), fi(0)),
                pt(fr(1, 2), fi(0), fi(0))
            ],
            vec![
                pt(fi(0), fr(1, 2), fi(0)),
                pt(fr(1, 2), fr(1, 2), fi(0)),
                pt(fr(1, 2), fi(1), fi(0))
            ]
        ]
    );
    // Slightly above
    assert_eq!(
        debug_contour([fi(-1), fi(1), fi(1), fi(-1)], fr(1, 2)),
        vec![
            vec![pt(fi(0), fr(3, 4), fr(1, 2)), pt(fr(1, 4), fi(1), fr(1, 2))],
            vec![pt(fi(1), fr(1, 4), fr(1, 2)), pt(fr(3, 4), fi(0), fr(1, 2))]
        ]
    );
    // Slightly below
    assert_eq!(
        debug_contour([fi(-1), fi(1), fi(1), fi(-1)], fr(-1, 2)),
        vec![
            vec![pt(fi(1), fr(3, 4), fr(-1, 2)), pt(fr(3, 4), fi(1), fr(-1, 2))],
            vec![pt(fi(0), fr(1, 4), fr(-1, 2)), pt(fr(1, 4), fi(0), fr(-1, 2))]
        ]
    );

    // Right on
    assert_eq!(
        debug_contour([fi(1), fi(-1), fi(-1), fi(1)], fi(0)),
        vec![
            vec![
                pt(fr(1, 2), fi(1), fi(0)),
                pt(fr(1, 2), fr(1, 2), fi(0)),
                pt(fi(1), fr(1, 2), fi(0))
            ],
            vec![
                pt(fr(1, 2), fi(0), fi(0)),
                pt(fr(1, 2), fr(1, 2), fi(0)),
                pt(fi(0), fr(1, 2), fi(0))
            ]
        ]
    );
    // Slightly above
    assert_eq!(
        debug_contour([fi(1), fi(-1), fi(-1), fi(1)], fr(1, 2)),
        vec![
            vec![pt(fr(3, 4), fi(1), fr(1, 2)), pt(fi(1), fr(3, 4), fr(1, 2))],
            vec![pt(fr(1, 4), fi(0), fr(1, 2)), pt(fi(0), fr(1, 4), fr(1, 2))]
        ]
    );
    // Slightly below
    assert_eq!(
        debug_contour([fi(1), fi(-1), fi(-1), fi(1)], fr(-1, 2)),
        vec![
            vec![pt(fr(1, 4), fi(1), fr(-1, 2)), pt(fi(0), fr(3, 4), fr(-1, 2))],
            vec![pt(fr(3, 4), fi(0), fr(-1, 2)), pt(fi(1), fr(1, 4), fr(-1, 2))]
        ]
    );
}

#[test]
fn test_contour_corners() {
    // Bottom to left
    assert_eq!(
        debug_contour([fi(6), fi(2), fi(0), fi(0)], fi(3)),
        vec![vec![pt(fr(3, 4), fi(0), fi(3)), pt(fi(0), fr(1, 2), fi(3))]]
    );
    // Left to bottom
    assert_eq!(
        debug_contour([fi(-4), fi(2), fi(0), fi(0)], fi(-1)),
        vec![vec![pt(fi(0), fr(3, 4), fi(-1)), pt(fr(1, 2), fi(0), fi(-1))]]
    );
    // Right to bottom
    assert_eq!(
        debug_contour([fi(-4), fi(4), fi(-1), fi(-1)], fi(0)),
        vec![vec![pt(fi(1), fr(4, 5), fi(0)), pt(fr(1, 2), fi(0), fi(0))]]
    );
    // Bottom to right
    assert_eq!(
        debug_contour([fi(4), fi(-4), fi(1), fi(1)], fi(0)),
        vec![vec![pt(fr(1, 2), fi(0), fi(0)), pt(fi(1), fr(4, 5), fi(0))]]
    );
    // Top to right
    assert_eq!(
        debug_contour([fi(-4), fi(-4), fi(-4), fi(4)], fi(0)),
        vec![vec![pt(fr(1, 2), fi(1), fi(0)), pt(fi(1), fr(1, 2), fi(0))]]
    );
    // Right to top
    assert_eq!(
        debug_contour([fi(4), fi(4), fi(4), fi(-4)], fi(0)),
        vec![vec![pt(fi(1), fr(1, 2), fi(0)), pt(fr(1, 2), fi(1), fi(0))]]
    );
    // Left to top
    assert_eq!(
        debug_contour([fi(-4), fi(-4), fi(4), fi(-4)], fi(0)),
        vec![vec![pt(fi(0), fr(1, 2), fi(0)), pt(fr(1, 2), fi(1), fi(0))]]
    );
    // Top to left
    assert_eq!(
        debug_contour([fi(4), fi(4), fi(-4), fi(4)], fi(0)),
        vec![vec![pt(fr(1, 2), fi(1), fi(0)), pt(fi(0), fr(1, 2), fi(0))]]
    );
}

#[test]
fn test_contour_opposite() {
    // Left to right
    assert_eq!(
        debug_contour([fi(1), fi(0), fi(2), fi(6)], fr(3, 2)),
        vec![vec![pt(fi(0), fr(1, 2), fr(3, 2)), pt(fi(1), fr(1, 4), fr(3, 2))]]
    );
    // Right to left
    assert_eq!(
        debug_contour([fi(2), fi(6), fi(1), fi(0)], fr(3, 2)),
        vec![vec![pt(fi(1), fr(3, 4), fr(3, 2)), pt(fi(0), fr(1, 2), fr(3, 2))]]
    );
    // Top to bottom
    assert_eq!(
        debug_contour([fi(1), fi(2), fi(0), fi(6)], fr(3, 2)),
        vec![vec![pt(fr(1, 4), fi(1), fr(3, 2)), pt(fr(1, 2), fi(0), fr(3, 2))]]
    );
    // Bottom to top
    assert_eq!(
        debug_contour([fi(2), fi(0), fi(6), fi(1)], fr(3, 2)),
        vec![vec![pt(fr(1, 4), fi(0), fr(3, 2)), pt(fr(9, 10), fi(1), fr(3, 2))]]
    );
}

#[test]
fn test_contour_edge_cases() {
    // top below
    assert_eq!(
        debug_contour([fi(20), fi(-20), fi(-20), fi(20)], fi(-50)),
        Vec::<Vec<Point>>::new()
    );

    assert_eq!(
        debug_contour([fi(3), fi(4), fi(0), fi(0)], fi(0)),
        vec![vec![pt(fi(1), fi(1), fi(0)), pt(fi(0), fi(1), fi(0))]]
    );

    assert_eq!(
        debug_contour([fi(-3), fi(-4), fi(0), fi(0)], fi(0)),
        vec![vec![pt(fi(0), fi(1), fi(0)), pt(fi(1), fi(1), fi(0))]]
    );

    assert_eq!(
        debug_contour([fi(0), fi(0), fi(3), fi(4)], fi(0)),
        vec![vec![pt(fi(0), fi(0), fi(0)), pt(fi(1), fi(0), fi(0))]]
    );

    assert_eq!(
        debug_contour([fi(0), fi(0), fi(-3), fi(-4)], fi(0)),
        vec![vec![pt(fi(1), fi(0), fi(0)), pt(fi(0), fi(0), fi(0))]]
    );

    assert_eq!(
        debug_contour([fi(0), fi(3), fi(0), fi(4)], fi(0)),
        vec![vec![pt(fi(0), fi(1), fi(0)), pt(fi(0), fi(0), fi(0))]]
    );

    assert_eq!(
        debug_contour([fi(0), fi(-3), fi(0), fi(-4)], fi(0)),
        vec![vec![pt(fi(0), fi(0), fi(0)), pt(fi(0), fi(1), fi(0))]]
    );

    assert_eq!(
        debug_contour([fi(3), fi(0), fi(4), fi(0)], fi(0)),
        vec![vec![pt(fi(1), fi(0), fi(0)), pt(fi(1), fi(1), fi(0))]]
    );

    assert_eq!(
        debug_contour([fi(-3), fi(0), fi(-4), fi(0)], fi(0)),
        vec![vec![pt(fi(1), fi(1), fi(0)), pt(fi(1), fi(0), fi(0))]]
    );
}

#[test]
fn test_case_computation() {
    assert_eq!(compute_case(&[fi(-1), fi(-1), fi(-1), fi(-1)], fi(0)), 0);
    assert_eq!(compute_case(&[fi(1), fi(1), fi(1), fi(1)], fi(0)), 15);
    assert_eq!(compute_case(&[fi(-1), fi(-1), fi(-1), fi(1)], fi(0)), 1);
    assert_eq!(compute_case(&[fi(-1), fi(-1), fi(1), fi(-1)], fi(0)), 2);
    assert_eq!(compute_case(&[fi(-1), fi(-1), fi(1), fi(1)], fi(0)), 3);
    assert_eq!(compute_case(&[fi(-1), fi(1), fi(-1), fi(-1)], fi(0)), 4);
    assert_eq!(compute_case(&[fi(-1), fi(-1), fi(-1), fi(1)], fi(0)), 1);
    assert_eq!(compute_case(&[fi(0), fi(0), fi(-1), fi(-1)], fi(0)), 12);
}

#[test]
fn test_quiet_cell_boundary() {
    // One corner exactly on the level, none above it: no segments at all.
    assert_eq!(
        debug_contour([fi(0), fi(-1), fi(-2), fi(-3)], fi(0)),
        Vec::<Vec<Point>>::new()
    );
}

#[test]
fn test_mirrored_pair() {
    // Negating every field value and the level mirrors the contour: the
    // same crossing points appear with the traversal direction reversed.
    assert_eq!(
        debug_contour([fi(6), fi(2), fi(0), fi(0)], fi(3)),
        vec![vec![pt(fr(3, 4), fi(0), fi(3)), pt(fi(0), fr(1, 2), fi(3))]]
    );
    assert_eq!(
        debug_contour([fi(-6), fi(-2), fi(0), fi(0)], fi(-3)),
        vec![vec![pt(fi(0), fr(1, 2), fi(-3)), pt(fr(3, 4), fi(0), fi(-3))]]
    );
}

#[test]
fn test_edge_sharing_stitches() {
    // Two cells side by side; the crossing on their shared vertical edge is
    // computed identically by both, so the two pieces stitch into a single
    // three-point polyline.
    let x = vec![fi(0), fi(1), fi(2)];
    let y = vec![fi(0), fi(1)];
    let z = vec![fi(-3), fi(-1), fi(1), fi(-1), fi(1), fi(3)];
    let result = single_contour(&x, &y, &z, fi(0), fi(6));
    assert_eq!(
        result,
        vec![vec![
            pt(fr(1, 2), fi(1), fi(0)),
            pt(fi(1), fr(1, 2), fi(0)),
            pt(fr(3, 2), fi(0), fi(0))
        ]]
    );
}

#[test]
fn test_contour_deterministic() {
    let x = vec![fi(0), fi(1)];
    let y = vec![fi(0), fi(1)];
    let z = vec![fi(-1), fi(1), fi(1), fi(-1)];
    let levels = vec![fr(1, 2), fi(0), fr(-1, 2)];
    let first = contour(&x, &y, &z, &levels);
    let second = contour(&x, &y, &z, &levels);
    assert_eq!(first, second);
    assert_eq!(first.len(), 3);
    // Level order is preserved: each returned contour carries its level in
    // the z component of its points.
    assert_eq!(first[0][0][0].z, fr(1, 2));
    assert_eq!(first[1][0][0].z, fi(0));
    assert_eq!(first[2][0][0].z, fr(-1, 2));
}

#[test]
fn test_frac_canonical() {
    assert_eq!(fr(2, 4), fr(1, 2));
    assert_eq!(fr(-3, -6), fr(1, 2));
    assert_eq!(fr(3, -6), fr(-1, 2));
    assert_eq!(fr(0, 5), fr(0, 1));
    assert_eq!(fr(7, 1).sub(fr(3, 1)), fi(4));
    assert_eq!(fr(1, 3).add(fr(1, 6)), fr(1, 2));
    assert_eq!(fr(2, 3).mul(fr(3, 4)), fr(1, 2));
    assert_eq!(fr(1, 2).div(fr(-1, 4)), fi(-2));
}
