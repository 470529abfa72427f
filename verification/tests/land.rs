use goldberg::cell::{Cell, CellType};
use goldberg::geometry::Point3;
use goldberg::land::{
    classify_land, is_in_rings, is_land, point_in_polygon, Feature, GeoJson, GeoPoint, Geometry,
    DEGREE,
};

fn deg(lon: i32, lat: i32) -> GeoPoint {
    GeoPoint { lon: lon * DEGREE, lat: lat * DEGREE }
}

fn square() -> Vec<GeoPoint> {
    vec![deg(0, 0), deg(0, 10), deg(10, 10), deg(10, 0)]
}

fn hole() -> Vec<GeoPoint> {
    vec![deg(4, 4), deg(4, 6), deg(6, 6), deg(6, 4)]
}

fn continent() -> GeoJson {
    GeoJson {
        features: vec![Feature {
            geometry: Geometry::Polygon {
                coordinates: vec![vec![deg(-10, -10), deg(-10, 10), deg(10, 10), deg(10, -10), deg(-10, -10)]],
            },
        }],
    }
}

#[test]
fn point_inside_square_is_inside() {
    assert!(point_in_polygon(&deg(2, 2), &square()));
    assert!(point_in_polygon(&deg(5, 5), &square()));
    assert!(point_in_polygon(&GeoPoint { lon: 1, lat: 1 }, &square()));
}

#[test]
fn point_outside_square_is_outside() {
    assert!(!point_in_polygon(&deg(11, 5), &square()));
    assert!(!point_in_polygon(&deg(-1, 5), &square()));
    assert!(!point_in_polygon(&deg(5, 11), &square()));
    assert!(!point_in_polygon(&deg(5, -1), &square()));
}

#[test]
fn point_in_hole_is_outside_polygon() {
    let rings = vec![square(), hole()];
    assert!(is_in_rings(&deg(2, 2), &rings));
    assert!(!is_in_rings(&deg(5, 5), &rings));
    assert!(!is_in_rings(&deg(12, 5), &rings));
}

#[test]
fn polygon_without_rings_contains_nothing() {
    assert!(!is_in_rings(&deg(2, 2), &vec![]));
    assert!(!point_in_polygon(&deg(2, 2), &vec![]));
    assert!(!point_in_polygon(&deg(2, 2), &vec![deg(2, 2)]));
}

#[test]
fn slanted_edge_is_crossed_exactly() {
    // triangle (0,0), (10,10), (0,10): the edge from (0,0) to (10,10) is the line lon = lat
    let triangle = vec![deg(0, 0), deg(10, 10), deg(0, 10)];
    assert!(point_in_polygon(&GeoPoint { lon: 4_999_999, lat: 5_000_000 }, &triangle));
    assert!(!point_in_polygon(&GeoPoint { lon: 5_000_000, lat: 5_000_000 }, &triangle));
    assert!(!point_in_polygon(&GeoPoint { lon: 5_000_001, lat: 5_000_000 }, &triangle));
}

#[test]
fn extreme_coordinates_do_not_overflow() {
    let ring = vec![
        GeoPoint { lon: i32::MIN, lat: i32::MIN },
        GeoPoint { lon: i32::MIN, lat: i32::MAX },
        GeoPoint { lon: i32::MAX, lat: i32::MAX },
        GeoPoint { lon: i32::MAX, lat: i32::MIN },
    ];
    assert!(point_in_polygon(&GeoPoint { lon: 0, lat: 0 }, &ring));
    assert!(!point_in_polygon(&GeoPoint { lon: i32::MAX, lat: 0 }, &ring));
}

#[test]
fn single_polygon_classifies_origin_as_land_and_far_side_as_ocean() {
    let geo = continent();
    assert!(is_land(&deg(0, 0), &geo));
    assert!(!is_land(&deg(170, 0), &geo));
}

#[test]
fn multi_polygon_contains_what_one_of_its_polygons_contains() {
    let geo = GeoJson {
        features: vec![Feature {
            geometry: Geometry::MultiPolygon {
                coordinates: vec![vec![square(), hole()], vec![vec![deg(20, 20), deg(20, 30), deg(30, 30), deg(30, 20)]]],
            },
        }],
    };
    assert!(is_land(&deg(2, 2), &geo));
    assert!(is_land(&deg(25, 25), &geo));
    assert!(!is_land(&deg(5, 5), &geo));
    assert!(!is_land(&deg(15, 15), &geo));
}

#[test]
fn empty_data_set_is_all_ocean() {
    assert!(!is_land(&deg(0, 0), &GeoJson { features: vec![] }));
}

fn blank_cell(id: usize) -> Cell {
    Cell {
        id,
        cell_type: CellType::Hexagon,
        center: Point3 { x: 0, y: 0, z: 1_000_000 },
        vertices: vec![],
        neighbors: vec![],
        is_land: false,
    }
}

#[test]
fn classification_sets_only_the_land_flag() {
    let mut cells = vec![blank_cell(0), blank_cell(1), blank_cell(2)];
    cells[2].is_land = true;
    let positions = vec![deg(0, 0), deg(170, 0), deg(-170, 0)];
    classify_land(&mut cells, &positions, &continent());
    let flags: Vec<bool> = cells.iter().map(|c| c.is_land).collect();
    assert_eq!(flags, vec![true, false, false]);
    let ids: Vec<usize> = cells.iter().map(|c| c.id).collect();
    assert_eq!(ids, vec![0, 1, 2]);
}

#[test]
fn classification_is_repeatable() {
    let positions: Vec<GeoPoint> = (0..360).map(|k| deg(k - 180, (k % 19) - 9)).collect();
    let geo = continent();
    let mut first: Vec<Cell> = (0..360).map(blank_cell).collect();
    let mut second: Vec<Cell> = (0..360).map(blank_cell).collect();
    classify_land(&mut first, &positions, &geo);
    classify_land(&mut second, &positions, &geo);
    classify_land(&mut second, &positions, &geo);
    for (a, b) in first.iter().zip(second.iter()) {
        assert_eq!(a.is_land, b.is_land);
    }
    assert!(first.iter().any(|c| c.is_land));
    assert!(first.iter().any(|c| !c.is_land));
}
