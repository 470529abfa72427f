//! Land classification: is a geographic position inside one of the polygons
//! of a coastline data set?
//!
//! Longitudes and latitudes are fixed-point degrees: a coordinate `c` stands
//! for `c / DEGREE` degrees. The crossing test is carried out in exact integer
//! arithmetic, so a position is never misjudged by rounding.

use crate::cell::{Cell, CellView};
use crate::geometry::lemma_product_bound;
use vstd::prelude::*;

verus! {

/// The fixed-point representation of one degree.
pub const DEGREE: i32 = 1_000_000;

/// A position on the globe.
#[derive(Clone, Copy, Debug, PartialEq, Eq, Structural)]
pub struct GeoPoint {
    pub lon: i32,
    pub lat: i32,
}

/// The shape of a feature. A polygon is a list of rings: the outer boundary
/// first, then its holes.
#[derive(Clone, Debug)]
#[allow(inconsistent_fields)]
pub enum Geometry {
    Polygon { coordinates: Vec<Vec<GeoPoint>> },
    MultiPolygon { coordinates: Vec<Vec<Vec<GeoPoint>>> },
}

/// One feature of a coastline data set.
#[derive(Clone, Debug)]
pub struct Feature {
    pub geometry: Geometry,
}

/// A coastline data set.
#[derive(Clone, Debug)]
pub struct GeoJson {
    pub features: Vec<Feature>,
}

/// Whether the point where the line through `a` and `b` reaches the latitude
/// of `p` lies east of `p`: `p.lon < (b.lon - a.lon) · (p.lat - a.lat) /
/// (b.lat - a.lat) + a.lon`, multiplied out so that no division is needed.
pub open spec fn crossing_east(p: GeoPoint, a: GeoPoint, b: GeoPoint) -> bool {
    let rise = b.lat - a.lat;
    let left = (p.lon - a.lon) * rise;
    let right = (b.lon - a.lon) * (p.lat - a.lat);
    if rise > 0 {
        left < right
    } else {
        left > right
    }
}

/// Whether the ray from `p` towards the east crosses the edge between `a` and
/// `b`: the edge has one end above the latitude of `p` and the other not, and
/// meets that latitude east of `p`.
pub open spec fn edge_crossed(p: GeoPoint, a: GeoPoint, b: GeoPoint) -> bool {
    (a.lat > p.lat) != (b.lat > p.lat) && crossing_east(p, a, b)
}

/// The point before point `i` on a closed ring.
pub open spec fn before_on_ring(ring: Seq<GeoPoint>, i: int) -> GeoPoint {
    if i == 0 {
        ring[ring.len() - 1]
    } else {
        ring[i - 1]
    }
}

/// How many of the first `count` edges of the ring the ray from `p` towards
/// the east crosses; edge `i` joins point `i` and the point before it.
pub open spec fn crossings(p: GeoPoint, ring: Seq<GeoPoint>, count: int) -> int
    decreases count,
{
    if count <= 0 {
        0
    } else {
        crossings(p, ring, count - 1) + if edge_crossed(
            p,
            ring[count - 1],
            before_on_ring(ring, count - 1),
        ) {
            1int
        } else {
            0int
        }
    }
}

/// A point is inside a ring when the ray towards the east crosses an odd
/// number of its edges.
pub open spec fn in_ring(p: GeoPoint, ring: Seq<GeoPoint>) -> bool {
    crossings(p, ring, ring.len() as int) % 2 == 1
}

/// A point is inside a polygon when it is inside the outer ring and outside
/// every hole.
pub open spec fn in_rings(p: GeoPoint, rings: Seq<Vec<GeoPoint>>) -> bool {
    &&& rings.len() > 0
    &&& in_ring(p, rings[0]@)
    &&& forall|h: int| 1 <= h < rings.len() ==> !in_ring(p, (#[trigger] rings[h])@)
}

/// A point is inside a multi-polygon when it is inside one of its polygons.
pub open spec fn in_any_polygon(p: GeoPoint, polygons: Seq<Vec<Vec<GeoPoint>>>) -> bool {
    exists|k: int| 0 <= k < polygons.len() && in_rings(p, (#[trigger] polygons[k])@)
}

/// Whether the feature contains the point.
pub open spec fn feature_contains(p: GeoPoint, feature: Feature) -> bool {
    match feature.geometry {
        Geometry::Polygon { coordinates } => in_rings(p, coordinates@),
        Geometry::MultiPolygon { coordinates } => in_any_polygon(p, coordinates@),
    }
}

/// A position is land when some feature of the data set contains it.
pub open spec fn on_land(p: GeoPoint, geo: GeoJson) -> bool {
    exists|f: int| 0 <= f < geo.features@.len() && feature_contains(p, #[trigger] geo.features@[f])
}

/// The cells after classification: each cell keeps everything but its land
/// flag, which says whether its position is land.
pub open spec fn classified(
    before: Seq<CellView>,
    positions: Seq<GeoPoint>,
    geo: GeoJson,
    after: Seq<CellView>,
) -> bool {
    &&& after.len() == before.len()
    &&& forall|i: int|
        0 <= i < before.len() ==> #[trigger] after[i] == (CellView {
            is_land: on_land(positions[i], geo),
            ..before[i]
        })
}

/// Classification is a function of the cells, their positions and the data
/// set: classifying the same input twice gives the same cells, and so the
/// same land flags.
pub proof fn lemma_classification_deterministic(
    before: Seq<CellView>,
    positions: Seq<GeoPoint>,
    geo: GeoJson,
    first: Seq<CellView>,
    second: Seq<CellView>,
)
    requires
        classified(before, positions, geo, first),
        classified(before, positions, geo, second),
    ensures
        first == second,
        forall|i: int| 0 <= i < first.len() ==> first[i].is_land == second[i].is_land,
{
    assert(first =~= second);
}

/// A ring without points or with a single point has no inside.
pub proof fn lemma_small_ring_is_empty(p: GeoPoint, ring: Seq<GeoPoint>)
    requires
        ring.len() <= 1,
    ensures
        !in_ring(p, ring),
{
    if ring.len() == 1 {
        assert(crossings(p, ring, 0) == 0);
        assert(before_on_ring(ring, 0) == ring[0]);
    }
}

/// Whether the ray from `p` towards the east crosses the edge between `a` and `b`.
fn crosses(p: &GeoPoint, a: &GeoPoint, b: &GeoPoint) -> (r: bool)
    ensures
        r == edge_crossed(*p, *a, *b),
{
    if (a.lat > p.lat) == (b.lat > p.lat) {
        return false;
    }
    let rise: i128 = b.lat as i128 - a.lat as i128;
    let run: i128 = b.lon as i128 - a.lon as i128;
    let east: i128 = p.lon as i128 - a.lon as i128;
    let north: i128 = p.lat as i128 - a.lat as i128;
    proof {
        lemma_product_bound(east as int, rise as int, 0x1_0000_0000, 0x1_0000_0000);
        lemma_product_bound(run as int, north as int, 0x1_0000_0000, 0x1_0000_0000);
    }
    let left: i128 = east * rise;
    let right: i128 = run * north;
    if rise > 0 {
        left < right
    } else {
        left > right
    }
}

/// Whether the point is inside the ring, by the even-odd rule.
pub fn point_in_polygon(point: &GeoPoint, poly: &Vec<GeoPoint>) -> (inside: bool)
    ensures
        inside == in_ring(*point, poly@),
{
    let count: usize = poly.len();
    if count == 0 {
        return false;
    }
    let mut inside: bool = false;
    let mut j: usize = count - 1;
    let mut i: usize = 0;
    while i < count
        invariant
            i <= count,
            count == poly@.len(),
            j < count,
            poly@[j as int] == before_on_ring(poly@, i as int),
            inside == (crossings(*point, poly@, i as int) % 2 == 1),
        decreases count - i,
    {
        if crosses(point, &poly[i], &poly[j]) {
            inside = !inside;
        }
        j = i;
        i = i + 1;
    }
    inside
}

/// Whether the point is inside the polygon: inside its first ring and
/// outside all other rings. A polygon without rings contains nothing.
pub fn is_in_rings(p: &GeoPoint, rings: &Vec<Vec<GeoPoint>>) -> (inside: bool)
    ensures
        inside == in_rings(*p, rings@),
{
    if rings.len() == 0 || !point_in_polygon(p, &rings[0]) {
        return false;
    }
    let mut h: usize = 1;
    while h < rings.len()
        invariant
            1 <= h <= rings@.len(),
            in_ring(*p, rings@[0]@),
            forall|k: int| 1 <= k < h ==> !in_ring(*p, (#[trigger] rings@[k])@),
        decreases rings.len() - h,
    {
        if point_in_polygon(p, &rings[h]) {
            return false;
        }
        h = h + 1;
    }
    true
}

/// Whether the point is inside one of the polygons.
fn is_in_polygons(p: &GeoPoint, polygons: &Vec<Vec<Vec<GeoPoint>>>) -> (inside: bool)
    ensures
        inside == in_any_polygon(*p, polygons@),
{
    let mut k: usize = 0;
    while k < polygons.len()
        invariant
            k <= polygons@.len(),
            forall|j: int| 0 <= j < k ==> !in_rings(*p, (#[trigger] polygons@[j])@),
        decreases polygons.len() - k,
    {
        if is_in_rings(p, &polygons[k]) {
            return true;
        }
        k = k + 1;
    }
    false
}

/// Whether the position is land: inside a polygon of the data set, or inside
/// one of the polygons of a multi-polygon. Where nothing contains the
/// position it is ocean.
pub fn is_land(pos: &GeoPoint, geojson: &GeoJson) -> (land: bool)
    ensures
        land == on_land(*pos, *geojson),
{
    let mut f: usize = 0;
    while f < geojson.features.len()
        invariant
            f <= geojson.features@.len(),
            forall|j: int| 0 <= j < f ==> !feature_contains(*pos, #[trigger] geojson.features@[j]),
        decreases geojson.features.len() - f,
    {
        let found: bool = match &geojson.features[f].geometry {
            Geometry::Polygon { coordinates } => is_in_rings(pos, coordinates),
            Geometry::MultiPolygon { coordinates } => is_in_polygons(pos, coordinates),
        };
        if found {
            return true;
        }
        f = f + 1;
    }
    false
}

/// Marks each cell as land or ocean by its position; `positions[i]` is the
/// position of the centre of cell `i`.
pub fn classify_land(cells: &mut Vec<Cell>, positions: &Vec<GeoPoint>, geojson: &GeoJson)
    requires
        old(cells)@.len() == positions@.len(),
    ensures
        classified(
            crate::cell::cell_views(old(cells)@),
            positions@,
            *geojson,
            crate::cell::cell_views(final(cells)@),
        ),
{
    let ghost before = crate::cell::cell_views(cells@);
    let mut i: usize = 0;
    while i < cells.len()
        invariant
            i <= cells@.len(),
            cells@.len() == positions@.len(),
            before.len() == cells@.len(),
            forall|k: int|
                0 <= k < i ==> (#[trigger] cells@[k])@ == (CellView {
                    is_land: on_land(positions@[k], *geojson),
                    ..before[k]
                }),
            forall|k: int| i <= k < cells@.len() ==> (#[trigger] cells@[k])@ == before[k],
        decreases cells.len() - i,
    {
        let land: bool = is_land(&positions[i], geojson);
        cells[i].is_land = land;
        i = i + 1;
    }
}

} // verus!
