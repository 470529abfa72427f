use goldberg::cell::{build_cell, cell_vertices, Cell, CellType, GridError};
use goldberg::geometry::{Point3, UNIT};
use goldberg::grid::generate_goldberg;
use goldberg::icosahedron::{ico_faces, ico_vertices, project_all};
use goldberg::lattice::{determinant, grid_points};
use goldberg::neighbors::collect_candidates;
use goldberg::spatial::{deduplicate, SpatialIndex, Tolerances};

fn grid(m: i32, n: i32) -> Vec<Cell> {
    let tol = Tolerances::for_class(m, n).expect("the class is coarse enough");
    assert!(tol.is_valid());
    generate_goldberg(m, n, tol).expect("the grid can be built")
}

fn count(cells: &[Cell], shape: CellType) -> usize {
    cells.iter().filter(|c| c.cell_type == shape).count()
}

#[test]
fn class_one_one_is_the_truncated_icosahedron() {
    let cells = grid(1, 1);
    assert_eq!(cells.len(), 32);
    assert_eq!(count(&cells, CellType::Pentagon), 12);
    assert_eq!(count(&cells, CellType::Hexagon), 20);
}

#[test]
fn cell_count_is_ten_times_the_determinant_plus_two() {
    for (m, n) in [(1, 0), (0, 1), (2, 0), (1, 1), (2, 1), (1, 2), (3, 0), (2, 2), (3, 1), (4, 0), (3, 3)] {
        let cells = grid(m, n);
        let det = determinant(m, n) as usize;
        assert_eq!(cells.len(), 10 * det + 2, "class ({m}, {n})");
        assert_eq!(count(&cells, CellType::Pentagon), 12, "class ({m}, {n})");
        assert_eq!(count(&cells, CellType::Hexagon), 10 * det - 10, "class ({m}, {n})");
    }
}

#[test]
fn cells_are_numbered_and_shaped_by_their_neighbors() {
    let cells = grid(3, 1);
    for (i, cell) in cells.iter().enumerate() {
        assert_eq!(cell.id, i);
        assert_eq!(cell.neighbors.len(), cell.vertices.len());
        match cell.cell_type {
            CellType::Pentagon => assert_eq!(cell.neighbors.len(), 5),
            CellType::Hexagon => assert_eq!(cell.neighbors.len(), 6),
        }
        assert!(!cell.is_land);
        let mut seen = cell.neighbors.clone();
        seen.sort();
        seen.dedup();
        assert_eq!(seen.len(), cell.neighbors.len());
        for &n in &cell.neighbors {
            assert!(n < cells.len());
            assert_ne!(n, i);
        }
    }
}

#[test]
fn pentagons_sit_on_the_icosahedron_vertices() {
    let cells = grid(2, 2);
    let verts = ico_vertices();
    for cell in cells.iter().filter(|c| c.cell_type == CellType::Pentagon) {
        assert!(verts.iter().any(|v| v.distance_squared(&cell.center) < 100));
    }
}

#[test]
fn centers_are_apart_by_the_merge_distance() {
    let tol = Tolerances::for_class(2, 1).unwrap();
    let cells = generate_goldberg(2, 1, tol).unwrap();
    let merge = tol.merge as i128;
    for a in &cells {
        for b in &cells {
            if a.id != b.id {
                assert!(a.center.distance_squared(&b.center) >= merge * merge);
            }
        }
    }
}

#[test]
fn adjacency_is_symmetric_on_small_grids() {
    for (m, n) in [(1, 1), (3, 0), (2, 2), (4, 1)] {
        let cells = grid(m, n);
        let mut pairs = 0usize;
        let mut mirrored = 0usize;
        for a in &cells {
            for &b in &a.neighbors {
                pairs += 1;
                if cells[b].neighbors.contains(&a.id) {
                    mirrored += 1;
                }
            }
        }
        assert!(mirrored * 100 >= pairs * 99, "class ({m}, {n}): {mirrored} of {pairs}");
    }
}

#[test]
fn vertices_of_a_cell_are_equally_far_from_its_center() {
    let cells = grid(1, 1);
    let tol = Tolerances::standard();
    for cell in &cells {
        let dists: Vec<u64> = cell
            .vertices
            .iter()
            .map(|v| goldberg::geometry::isqrt(v.distance_squared(&cell.center) as u64))
            .collect();
        let lo = *dists.iter().min().unwrap();
        let hi = *dists.iter().max().unwrap();
        assert!(hi - lo <= tol.merge as u64, "cell {}: {lo}..{hi}", cell.id);
        for v in &cell.vertices {
            let n = v.norm_squared() as i128;
            let unit = (UNIT as i128) * (UNIT as i128);
            assert!((n - unit).abs() < 4 * UNIT as i128);
        }
    }
}

#[test]
fn boundary_ring_turns_once_around_the_center() {
    // seen from outside, consecutive vertices all turn the same way around the centre
    for cell in grid(2, 1) {
        let c = cell.center;
        let mut signs = Vec::new();
        let k = cell.vertices.len();
        for i in 0..k {
            let a = cell.vertices[i];
            let b = cell.vertices[(i + 1) % k];
            let (ax, ay, az) = ((a.x - c.x) as i128, (a.y - c.y) as i128, (a.z - c.z) as i128);
            let (bx, by, bz) = ((b.x - c.x) as i128, (b.y - c.y) as i128, (b.z - c.z) as i128);
            let cross = (ay * bz - az * by, az * bx - ax * bz, ax * by - ay * bx);
            let turn = cross.0 * c.x as i128 + cross.1 * c.y as i128 + cross.2 * c.z as i128;
            signs.push(turn.signum());
        }
        assert!(signs.iter().all(|s| *s == signs[0] && *s != 0), "cell {}: {signs:?}", cell.id);
    }
}

#[test]
fn all_cells_share_the_same_handedness() {
    let mut turns = Vec::new();
    for cell in grid(2, 2) {
        let c = cell.center;
        let a = cell.vertices[0];
        let b = cell.vertices[1];
        let (ax, ay, az) = ((a.x - c.x) as i128, (a.y - c.y) as i128, (a.z - c.z) as i128);
        let (bx, by, bz) = ((b.x - c.x) as i128, (b.y - c.y) as i128, (b.z - c.z) as i128);
        let cross = (ay * bz - az * by, az * bx - ax * bz, ax * by - ay * bx);
        let turn = cross.0 * c.x as i128 + cross.1 * c.y as i128 + cross.2 * c.z as i128;
        turns.push(turn.signum());
    }
    assert!(turns.iter().all(|t| *t == turns[0]));
}

#[test]
fn standard_distances_are_too_small_for_a_coarse_grid() {
    assert_eq!(generate_goldberg(1, 1, Tolerances::standard()).err(), Some(GridError::TooFewNeighbors));
}

#[test]
fn standard_distances_fit_the_class_twenty_twenty() {
    let tol = Tolerances::standard();
    assert_eq!((tol.merge, tol.bucket, tol.radius), (1_000, 50_000, 100_000));
    let fitted = Tolerances::for_class(20, 20).unwrap();
    assert_eq!((fitted.merge, fitted.bucket, fitted.radius), (1_010, 50_518, 101_036));
    assert_eq!(Tolerances::for_class(1, 1).map(|t| t.radius), Some(2_020_725));
}

#[test]
fn too_fine_a_class_has_no_distances() {
    // radius = isqrt(12.25e12 / det) drops below 100 once det exceeds 1.225e9
    assert!(Tolerances::for_class(30_000, 30_000).is_none());
    assert!(Tolerances::for_class(20_000, 0).is_some());
}

#[test]
fn invalid_distances_are_recognised() {
    assert!(!Tolerances { merge: 0, bucket: 10, radius: 10 }.is_valid());
    assert!(!Tolerances { merge: 11, bucket: 10, radius: 10 }.is_valid());
    assert!(!Tolerances { merge: 1, bucket: 10, radius: 21 }.is_valid());
    assert!(Tolerances { merge: 10, bucket: 10, radius: 20 }.is_valid());
}

#[test]
fn coincident_samples_are_merged() {
    let tol = Tolerances { merge: 1_000, bucket: 50_000, radius: 100_000 };
    let a = Point3 { x: UNIT, y: 0, z: 0 };
    let near = Point3 { x: UNIT - 1, y: 999, z: 0 };
    let edge = Point3 { x: UNIT, y: 1_000, z: 0 };
    let across = Point3 { x: UNIT, y: -1, z: -1 };
    let index = deduplicate(&vec![a, near, edge, across, a], tol);
    assert_eq!(index.centers(), &vec![a, edge]);
    assert_eq!(index.len(), 2);
}

#[test]
fn merging_looks_across_cube_borders() {
    let tol = Tolerances { merge: 1_000, bucket: 1_000, radius: 2_000 };
    let a = Point3 { x: 0, y: 0, z: 0 };
    let b = Point3 { x: -1, y: -1, z: -1 };
    let c = Point3 { x: 999, y: 0, z: 0 };
    let d = Point3 { x: 1_000, y: 0, z: 0 };
    let index = deduplicate(&vec![a, b, c, d], tol);
    assert_eq!(index.centers(), &vec![a, d]);
}

#[test]
fn samples_of_class_one_one_merge_to_thirty_two_centers() {
    let grid = grid_points(1, 1);
    let points = project_all(&ico_vertices(), &ico_faces(), &grid, 3).unwrap();
    assert_eq!(points.len(), 80);
    let index = deduplicate(&points, Tolerances::for_class(1, 1).unwrap());
    assert_eq!(index.len(), 32);
}

fn ring_index() -> SpatialIndex {
    // a centre with six others around it at distance 1000, and one far away
    let tol = Tolerances { merge: 10, bucket: 1_000, radius: 2_000 };
    let mut index = SpatialIndex::new(tol);
    for p in [
        Point3 { x: 0, y: 0, z: UNIT },
        Point3 { x: 1_000, y: 0, z: UNIT },
        Point3 { x: 500, y: 866, z: UNIT },
        Point3 { x: -500, y: 866, z: UNIT },
        Point3 { x: -1_000, y: 0, z: UNIT },
        Point3 { x: -500, y: -866, z: UNIT },
        Point3 { x: 500, y: -866, z: UNIT },
        Point3 { x: 0, y: 2_000, z: UNIT },
        Point3 { x: 0, y: 1_999, z: UNIT },
    ] {
        index.push(p);
    }
    index
}

#[test]
fn candidates_are_the_others_within_the_radius() {
    let index = ring_index();
    let mut found: Vec<usize> = collect_candidates(&index, 0).iter().map(|c| c.index).collect();
    found.sort();
    assert_eq!(found, vec![1, 2, 3, 4, 5, 6, 8]);
    for c in collect_candidates(&index, 0) {
        assert_eq!(c.dist_sq, index.centers()[0].distance_squared(&index.centers()[c.index]));
    }
}

#[test]
fn cell_is_built_from_its_six_nearest_neighbors() {
    let index = ring_index();
    let cell = build_cell(&index, 0).unwrap();
    assert_eq!(cell.id, 0);
    assert_eq!(cell.cell_type, CellType::Hexagon);
    assert_eq!(cell.center, Point3 { x: 0, y: 0, z: UNIT });
    // frame at +z: right = (-1, 0, 0), forward = (0, 1, 0); angles ascend from -180°
    assert_eq!(cell.neighbors, vec![6, 5, 4, 3, 2, 1]);
    assert_eq!(cell.vertices.len(), 6);
    assert!(!cell.is_land);
}

#[test]
fn lonely_center_has_too_few_neighbors() {
    let index = ring_index();
    assert_eq!(build_cell(&index, 7).err(), Some(GridError::TooFewNeighbors));
}

#[test]
fn vertex_without_direction_is_degenerate() {
    let centers = vec![
        Point3 { x: UNIT, y: 0, z: 0 },
        Point3 { x: -500_000, y: 7, z: 0 },
        Point3 { x: -500_000, y: -7, z: 0 },
        Point3 { x: 0, y: UNIT, z: 0 },
    ];
    assert_eq!(cell_vertices(&centers, 0, &vec![1, 2]), None);
    assert_eq!(cell_vertices(&centers, 0, &vec![3, 1, 2]), None);
    let ring = cell_vertices(&centers, 3, &vec![0, 1]).unwrap();
    assert_eq!(ring.len(), 2);
    assert_eq!(ring[0], ring[1]);
    // (500_000, 1_000_007, 0) has integer length 1_118_040
    assert_eq!(ring[0], Point3 { x: 447_211, y: 894_428, z: 0 });
}

#[test]
fn cell_with_a_vertex_without_direction_cannot_be_built() {
    // the centre and two of its neighbours add up to the zero vector
    let tol = Tolerances { merge: 10, bucket: 1_000_000, radius: 2_000_000 };
    let mut index = SpatialIndex::new(tol);
    for p in [
        Point3 { x: UNIT, y: 0, z: 0 },
        Point3 { x: -500_000, y: 7, z: 0 },
        Point3 { x: -500_000, y: -7, z: 0 },
        Point3 { x: 0, y: 0, z: -UNIT },
        Point3 { x: 0, y: 500_000, z: -500_000 },
        Point3 { x: 0, y: -500_000, z: -500_000 },
    ] {
        index.push(p);
    }
    assert_eq!(build_cell(&index, 0).err(), Some(GridError::DegeneratePoint));
    let cell = build_cell(&index, 3).unwrap();
    assert_eq!(cell.cell_type, CellType::Pentagon);
    assert_eq!(cell.neighbors.len(), 5);
}

#[test]
fn class_twenty_twenty_with_standard_distances() {
    let cells = generate_goldberg(20, 20, Tolerances::standard()).unwrap();
    assert_eq!(cells.len(), 12_002);
    assert_eq!(count(&cells, CellType::Pentagon), 12);
    assert_eq!(count(&cells, CellType::Hexagon), 11_990);
    let mut pairs = 0usize;
    let mut mirrored = 0usize;
    for a in &cells {
        for &b in &a.neighbors {
            pairs += 1;
            if cells[b].neighbors.contains(&a.id) {
                mirrored += 1;
            }
        }
    }
    assert!(mirrored * 100 >= pairs * 99, "{mirrored} of {pairs}");
}
