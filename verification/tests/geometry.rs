use goldberg::geometry::{isqrt, product, Point3, UNIT};
use goldberg::icosahedron::{ico_faces, ico_vertices, project, project_all};
use goldberg::lattice::{determinant, grid_points, BaryPoint};
use goldberg::sorting::stable_sort;
use goldberg::neighbors::{bearing, choose_neighbors, order_neighbors, Bearing, Candidate};
use goldberg::spatial::floor_div;

#[test]
fn integer_square_root_rounds_down() {
    assert_eq!(isqrt(0), 0);
    assert_eq!(isqrt(1), 1);
    assert_eq!(isqrt(3), 1);
    assert_eq!(isqrt(4), 2);
    assert_eq!(isqrt(99), 9);
    assert_eq!(isqrt(1_000_000_000_000), 1_000_000);
    assert_eq!(isqrt(999_999_999_999), 999_999);
    assert_eq!(isqrt(u64::MAX), 4_294_967_295);
}

#[test]
fn product_is_exact() {
    assert_eq!(product(i32::MIN, i32::MIN), 1i128 << 62);
    assert_eq!(product(-3, 7), -21);
}

#[test]
fn vector_arithmetic() {
    let a = Point3 { x: 1, y: 2, z: 3 };
    let b = Point3 { x: -4, y: 5, z: 6 };
    assert_eq!(a.dot(&b), 24);
    assert_eq!(a.norm_squared(), 14);
    assert_eq!(a.distance_squared(&b), 25 + 9 + 9);
}

#[test]
fn normalize_scales_to_unit_length() {
    let v = Point3 { x: 3, y: 0, z: -4 };
    assert_eq!(v.normalize(), Some(Point3 { x: 600_000, y: 0, z: -800_000 }));
    let axis = Point3 { x: 0, y: -7, z: 0 };
    assert_eq!(axis.normalize(), Some(Point3 { x: 0, y: -UNIT, z: 0 }));
}

#[test]
fn normalize_rounds_towards_zero() {
    // length² = 3, integer length 1: every coordinate becomes a whole unit
    let v = Point3 { x: 1, y: -1, z: 1 };
    assert_eq!(v.normalize(), Some(Point3 { x: UNIT, y: -UNIT, z: UNIT }));
    let w = Point3 { x: 1_000, y: 1_000, z: 1_000 };
    // length = floor(sqrt(3_000_000)) = 1732; 1_000 * 1_000_000 / 1732 = 577_367
    assert_eq!(w.normalize(), Some(Point3 { x: 577_367, y: 577_367, z: 577_367 }));
    let neg = Point3 { x: -1_000, y: -1_000, z: -1_000 };
    assert_eq!(neg.normalize(), Some(Point3 { x: -577_367, y: -577_367, z: -577_367 }));
}

#[test]
fn zero_vector_has_no_direction() {
    assert_eq!(Point3 { x: 0, y: 0, z: 0 }.normalize(), None);
}

#[test]
fn floor_division_rounds_down() {
    assert_eq!(floor_div(7, 2), 3);
    assert_eq!(floor_div(-7, 2), -4);
    assert_eq!(floor_div(-8, 2), -4);
    assert_eq!(floor_div(-1, 50_000), -1);
    assert_eq!(floor_div(0, 50_000), 0);
    assert_eq!(floor_div(-1_000_000, 50_000), -20);
    assert_eq!(floor_div(i32::MIN, 1), i32::MIN);
}

#[test]
fn determinant_of_class() {
    assert_eq!(determinant(1, 0), 1);
    assert_eq!(determinant(1, 1), 3);
    assert_eq!(determinant(2, 1), 7);
    assert_eq!(determinant(20, 20), 1200);
}

#[test]
fn lattice_samples_of_small_classes() {
    let corners = grid_points(1, 0);
    assert_eq!(
        corners,
        vec![
            BaryPoint { a: 1, b: 0, c: 0 },
            BaryPoint { a: 0, b: 0, c: 1 },
            BaryPoint { a: 0, b: 1, c: 0 },
        ]
    );
    let twisted = grid_points(1, 1);
    assert_eq!(
        twisted,
        vec![
            BaryPoint { a: 0, b: 0, c: 3 },
            BaryPoint { a: 3, b: 0, c: 0 },
            BaryPoint { a: 1, b: 1, c: 1 },
            BaryPoint { a: 0, b: 3, c: 0 },
        ]
    );
    assert_eq!(grid_points(2, 0).len(), 6);
    assert_eq!(grid_points(3, 0).len(), 10);
    assert_eq!(grid_points(0, 2).len(), 6);
}

#[test]
fn lattice_samples_sum_to_determinant() {
    for (m, n) in [(1, 0), (0, 1), (2, 1), (3, 2), (5, 0), (4, 4)] {
        let det = determinant(m, n);
        for w in grid_points(m, n) {
            assert_eq!(w.a + w.b + w.c, det);
            assert!(w.a >= 0 && w.b >= 0 && w.c >= 0);
        }
    }
}

#[test]
fn icosahedron_has_twelve_unit_vertices_and_twenty_faces() {
    let verts = ico_vertices();
    assert_eq!(verts.len(), 12);
    assert_eq!(verts[0], Point3 { x: -525_731, y: 850_650, z: 0 });
    for v in &verts {
        let n = v.norm_squared() as i128;
        let unit = (UNIT as i128) * (UNIT as i128);
        assert!((n - unit).abs() < 4 * UNIT as i128);
    }
    let faces = ico_faces();
    assert_eq!(faces.len(), 20);
    let mut uses = [0usize; 12];
    for f in &faces {
        uses[f.a] += 1;
        uses[f.b] += 1;
        uses[f.c] += 1;
    }
    assert_eq!(uses, [5usize; 12]);
}

#[test]
fn projection_of_a_corner_is_the_corner() {
    let verts = ico_vertices();
    let w = BaryPoint { a: 3, b: 0, c: 0 };
    let p = project(&verts[0], &verts[11], &verts[5], &w, 3).unwrap();
    assert!(p.distance_squared(&verts[0]) <= 12);
}

#[test]
fn projection_of_opposite_corners_is_degenerate() {
    let a = Point3 { x: UNIT, y: 0, z: 0 };
    let b = Point3 { x: -UNIT, y: 0, z: 0 };
    let c = Point3 { x: 0, y: 0, z: 0 };
    let w = BaryPoint { a: 1, b: 1, c: 0 };
    assert_eq!(project(&a, &b, &c, &w, 2), None);
    let verts = vec![a, b, c];
    let faces = vec![goldberg::icosahedron::Face { a: 0, b: 1, c: 2 }];
    assert_eq!(project_all(&verts, &faces, &vec![w], 2), None);
}

#[test]
fn project_all_lists_face_after_face() {
    let verts = ico_vertices();
    let faces = ico_faces();
    let grid = grid_points(1, 1);
    let points = project_all(&verts, &faces, &grid, 3).unwrap();
    assert_eq!(points.len(), 80);
    // sample 1 of face 0 is the first corner of face 0
    assert!(points[1].distance_squared(&verts[0]) <= 12);
    // sample 3 of face 2 is the second corner of face 2
    assert!(points[2 * 4 + 3].distance_squared(&verts[1]) <= 12);
}

#[test]
fn stable_sort_keeps_ties_in_order() {
    let items = vec![
        Candidate { index: 7, dist_sq: 30 },
        Candidate { index: 1, dist_sq: 10 },
        Candidate { index: 2, dist_sq: 30 },
        Candidate { index: 3, dist_sq: 10 },
        Candidate { index: 4, dist_sq: 20 },
    ];
    let sorted = stable_sort(&items);
    let order: Vec<usize> = sorted.iter().map(|c| c.index).collect();
    assert_eq!(order, vec![1, 3, 4, 7, 2]);
}

#[test]
fn sixth_neighbor_needs_to_be_near() {
    let near = |d: i128| -> Vec<Candidate> {
        vec![
            Candidate { index: 10, dist_sq: 100 },
            Candidate { index: 11, dist_sq: 100 },
            Candidate { index: 12, dist_sq: 100 },
            Candidate { index: 13, dist_sq: 100 },
            Candidate { index: 14, dist_sq: 100 },
            Candidate { index: 15, dist_sq: d },
        ]
    };
    // 1.5 times the distance is 2.25 times its square
    assert_eq!(choose_neighbors(&near(224)), Some(vec![10, 11, 12, 13, 14, 15]));
    assert_eq!(choose_neighbors(&near(225)), Some(vec![10, 11, 12, 13, 14]));
    assert_eq!(choose_neighbors(&near(100)[..5].to_vec()), Some(vec![10, 11, 12, 13, 14]));
    assert_eq!(choose_neighbors(&near(100)[..4].to_vec()), None);
}

#[test]
fn bearing_in_the_tangent_plane() {
    let c = Point3 { x: 0, y: 0, z: UNIT };
    // frame at +z: right = c × y = (-1, 0, 0) · UNIT, forward = right × c = (0, 1, 0) · UNIT²
    let east = Point3 { x: -1_000, y: 0, z: UNIT };
    let b = bearing(&c, &east, 5);
    assert_eq!(b, Bearing { index: 5, x: 1_000_000_000, y: 0 });
    let north = Point3 { x: 0, y: 1_000, z: UNIT };
    let b = bearing(&c, &north, 6);
    assert_eq!(b, Bearing { index: 6, x: 0, y: 1_000_000_000_000_000 });
}

#[test]
fn neighbors_are_ordered_by_polar_angle() {
    let centers = vec![
        Point3 { x: 0, y: 0, z: UNIT },
        Point3 { x: -1_000, y: 0, z: UNIT },     // angle 0
        Point3 { x: 0, y: 1_000, z: UNIT },      // angle 90°
        Point3 { x: 1_000, y: 0, z: UNIT },      // angle 180°
        Point3 { x: 0, y: -1_000, z: UNIT },     // angle -90°
        Point3 { x: 1_000, y: -1_000, z: UNIT }, // angle -135°
    ];
    let picked = vec![1, 2, 3, 4, 5];
    assert_eq!(order_neighbors(&centers, 0, &picked), vec![5, 4, 1, 2, 3]);
}
