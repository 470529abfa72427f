//! The regular icosahedron and the projection of face samples onto the sphere.

use crate::geometry::{
    all_unit_bounded, lemma_product_bound, normalized, trunc_div, unit_bounded, Point3, UNIT,
};
use crate::lattice::{all_valid_for, BaryPoint};
use vstd::arithmetic::div_mod::lemma_fundamental_div_mod_converse;
use vstd::prelude::*;

verus! {

/// The golden ratio `(1 + √5) / 2` in fixed-point.
pub const PHI: i32 = 1_618_034;

/// A triangular face, as three indices into the vertex list.
#[derive(Clone, Copy, Debug, PartialEq, Eq, Structural)]
pub struct Face {
    pub a: usize,
    pub b: usize,
    pub c: usize,
}

/// The twelve corners before scaling: `(±1, ±φ, 0)` and its cyclic permutations.
pub open spec fn golden_corners() -> Seq<Point3> {
    seq![
        Point3 { x: (-UNIT) as i32, y: PHI, z: 0 },
        Point3 { x: UNIT, y: PHI, z: 0 },
        Point3 { x: (-UNIT) as i32, y: (-PHI) as i32, z: 0 },
        Point3 { x: UNIT, y: (-PHI) as i32, z: 0 },
        Point3 { x: 0, y: (-UNIT) as i32, z: PHI },
        Point3 { x: 0, y: UNIT, z: PHI },
        Point3 { x: 0, y: (-UNIT) as i32, z: (-PHI) as i32 },
        Point3 { x: 0, y: UNIT, z: (-PHI) as i32 },
        Point3 { x: PHI, y: 0, z: (-UNIT) as i32 },
        Point3 { x: PHI, y: 0, z: UNIT },
        Point3 { x: (-PHI) as i32, y: 0, z: (-UNIT) as i32 },
        Point3 { x: (-PHI) as i32, y: 0, z: UNIT },
    ]
}

/// The twelve vertices of the icosahedron on the unit sphere.
pub open spec fn ico_vertices_spec() -> Seq<Point3> {
    Seq::new(12, |i: int| normalized(golden_corners()[i]).unwrap())
}

/// The twenty faces of the icosahedron, each listed counter-clockwise seen from outside.
pub open spec fn ico_faces_spec() -> Seq<Face> {
    seq![
        Face { a: 0, b: 11, c: 5 },
        Face { a: 0, b: 5, c: 1 },
        Face { a: 0, b: 1, c: 7 },
        Face { a: 0, b: 7, c: 10 },
        Face { a: 0, b: 10, c: 11 },
        Face { a: 1, b: 5, c: 9 },
        Face { a: 5, b: 11, c: 4 },
        Face { a: 11, b: 10, c: 2 },
        Face { a: 10, b: 7, c: 6 },
        Face { a: 7, b: 1, c: 8 },
        Face { a: 3, b: 9, c: 4 },
        Face { a: 3, b: 4, c: 2 },
        Face { a: 3, b: 2, c: 6 },
        Face { a: 3, b: 6, c: 8 },
        Face { a: 3, b: 8, c: 9 },
        Face { a: 4, b: 9, c: 5 },
        Face { a: 2, b: 4, c: 11 },
        Face { a: 6, b: 2, c: 10 },
        Face { a: 8, b: 6, c: 7 },
        Face { a: 9, b: 8, c: 1 },
    ]
}

/// Every face names three vertices of a list of `count` vertices.
pub open spec fn faces_within(faces: Seq<Face>, count: int) -> bool {
    forall|i: int|
        0 <= i < faces.len() ==> {
            &&& (#[trigger] faces[i]).a < count
            &&& faces[i].b < count
            &&& faces[i].c < count
        }
}

/// One coordinate of the weighted combination of three corners.
pub open spec fn blend_coord(w: BaryPoint, xa: int, xb: int, xc: int, det: int) -> int {
    trunc_div(w.a * xa + w.b * xb + w.c * xc, det)
}

/// The weighted combination of the three corners of a face.
pub open spec fn blended(va: Point3, vb: Point3, vc: Point3, w: BaryPoint, det: int) -> Point3 {
    Point3 {
        x: blend_coord(w, va.x as int, vb.x as int, vc.x as int, det) as i32,
        y: blend_coord(w, va.y as int, vb.y as int, vc.y as int, det) as i32,
        z: blend_coord(w, va.z as int, vb.z as int, vc.z as int, det) as i32,
    }
}

/// The weighted combination pushed out onto the unit sphere; `None` when the
/// combination is the zero vector.
pub open spec fn projected(va: Point3, vb: Point3, vc: Point3, w: BaryPoint, det: int) -> Option<
    Point3,
> {
    normalized(blended(va, vb, vc, w, det))
}

/// The `k`-th sample of the whole polyhedron: samples are listed face by face,
/// and within a face in the order of the grid.
pub open spec fn sample_point(
    verts: Seq<Point3>,
    faces: Seq<Face>,
    grid: Seq<BaryPoint>,
    det: int,
    k: int,
) -> Option<Point3> {
    let f = faces[k / (grid.len() as int)];
    let w = grid[k % (grid.len() as int)];
    projected(verts[f.a as int], verts[f.b as int], verts[f.c as int], w, det)
}

/// All samples of the polyhedron, or `None` when one of them is the zero vector.
pub open spec fn all_samples(
    verts: Seq<Point3>,
    faces: Seq<Face>,
    grid: Seq<BaryPoint>,
    det: int,
) -> Option<Seq<Point3>> {
    let count = faces.len() * grid.len();
    if forall|k: int| 0 <= k < count ==> sample_point(verts, faces, grid, det, k) is Some {
        Some(Seq::new(count, |k: int| sample_point(verts, faces, grid, det, k).unwrap()))
    } else {
        None
    }
}

/// The weights of a valid sample lie between `-det` and `3 · det`, so a
/// blended coordinate of unit-bounded corners stays within `9 · UNIT`.
pub proof fn lemma_blend_bounded(w: BaryPoint, xa: int, xb: int, xc: int, det: int)
    requires
        w.valid_for(det),
        -UNIT <= xa <= UNIT,
        -UNIT <= xb <= UNIT,
        -UNIT <= xc <= UNIT,
    ensures
        -9_000_000 * det <= w.a * xa + w.b * xb + w.c * xc <= 9_000_000 * det,
        -9 * UNIT <= blend_coord(w, xa, xb, xc, det) <= 9 * UNIT,
{
    let bound = 3 * det;
    lemma_product_bound(w.a as int, xa, bound, 1_000_000);
    lemma_product_bound(w.b as int, xb, bound, 1_000_000);
    lemma_product_bound(w.c as int, xc, bound, 1_000_000);
    let num = w.a * xa + w.b * xb + w.c * xc;
    if num >= 0 {
        assert(0 <= num / det <= 9_000_000) by (nonlinear_arith)
            requires
                0 <= num <= 9_000_000 * det,
                0 < det,
        ;
    } else {
        assert(0 <= (-num) / det <= 9_000_000) by (nonlinear_arith)
            requires
                0 <= -num <= 9_000_000 * det,
                0 < det,
        ;
    }
}

/// The twelve vertices of the icosahedron, scaled to the unit sphere.
pub fn ico_vertices() -> (verts: Vec<Point3>)
    ensures
        verts@ == ico_vertices_spec(),
        verts@.len() == 12,
        all_unit_bounded(verts@),
{
    let mut corners: Vec<Point3> = Vec::new();
    corners.push(Point3 { x: -UNIT, y: PHI, z: 0 });
    corners.push(Point3 { x: UNIT, y: PHI, z: 0 });
    corners.push(Point3 { x: -UNIT, y: -PHI, z: 0 });
    corners.push(Point3 { x: UNIT, y: -PHI, z: 0 });
    corners.push(Point3 { x: 0, y: -UNIT, z: PHI });
    corners.push(Point3 { x: 0, y: UNIT, z: PHI });
    corners.push(Point3 { x: 0, y: -UNIT, z: -PHI });
    corners.push(Point3 { x: 0, y: UNIT, z: -PHI });
    corners.push(Point3 { x: PHI, y: 0, z: -UNIT });
    corners.push(Point3 { x: PHI, y: 0, z: UNIT });
    corners.push(Point3 { x: -PHI, y: 0, z: -UNIT });
    corners.push(Point3 { x: -PHI, y: 0, z: UNIT });
    assert(corners@ =~= golden_corners());
    let mut verts: Vec<Point3> = Vec::new();
    let mut i: usize = 0;
    while i < 12
        invariant
            i <= 12,
            corners@ == golden_corners(),
            verts@.len() == i,
            forall|k: int| 0 <= k < i ==> normalized(golden_corners()[k]) == Some(#[trigger] verts@[k]),
            all_unit_bounded(verts@),
        decreases 12 - i,
    {
        let corner: Point3 = corners[i];
        assert(corner.x * corner.x + corner.y * corner.y + corner.z * corner.z > 0) by {
            assert(0 <= corner.x * corner.x) by (nonlinear_arith);
            assert(0 <= corner.y * corner.y) by (nonlinear_arith);
            assert(0 <= corner.z * corner.z) by (nonlinear_arith);
            assert(UNIT * UNIT > 0) by (nonlinear_arith);
            assert((-UNIT) * (-UNIT) > 0) by (nonlinear_arith);
            assert(PHI * PHI > 0) by (nonlinear_arith);
            assert((-PHI) * (-PHI) > 0) by (nonlinear_arith);
        }
        match corner.normalize() {
            Some(v) => {
                verts.push(v);
            },
            None => {
                assert(false);
            },
        }
        i = i + 1;
    }
    assert(verts@ =~= ico_vertices_spec());
    verts
}

/// The twenty faces of the icosahedron.
pub fn ico_faces() -> (faces: Vec<Face>)
    ensures
        faces@ == ico_faces_spec(),
        faces@.len() == 20,
        faces_within(faces@, 12),
{
    let mut faces: Vec<Face> = Vec::new();
    faces.push(Face { a: 0, b: 11, c: 5 });
    faces.push(Face { a: 0, b: 5, c: 1 });
    faces.push(Face { a: 0, b: 1, c: 7 });
    faces.push(Face { a: 0, b: 7, c: 10 });
    faces.push(Face { a: 0, b: 10, c: 11 });
    faces.push(Face { a: 1, b: 5, c: 9 });
    faces.push(Face { a: 5, b: 11, c: 4 });
    faces.push(Face { a: 11, b: 10, c: 2 });
    faces.push(Face { a: 10, b: 7, c: 6 });
    faces.push(Face { a: 7, b: 1, c: 8 });
    faces.push(Face { a: 3, b: 9, c: 4 });
    faces.push(Face { a: 3, b: 4, c: 2 });
    faces.push(Face { a: 3, b: 2, c: 6 });
    faces.push(Face { a: 3, b: 6, c: 8 });
    faces.push(Face { a: 3, b: 8, c: 9 });
    faces.push(Face { a: 4, b: 9, c: 5 });
    faces.push(Face { a: 2, b: 4, c: 11 });
    faces.push(Face { a: 6, b: 2, c: 10 });
    faces.push(Face { a: 8, b: 6, c: 7 });
    faces.push(Face { a: 9, b: 8, c: 1 });
    assert(faces@ =~= ico_faces_spec());
    faces
}

/// One coordinate of the weighted combination of three corners.
fn blend(w: &BaryPoint, xa: i32, xb: i32, xc: i32, det: i128) -> (r: i32)
    requires
        w.valid_for(det as int),
        -UNIT <= xa <= UNIT,
        -UNIT <= xb <= UNIT,
        -UNIT <= xc <= UNIT,
    ensures
        r == blend_coord(*w, xa as int, xb as int, xc as int, det as int),
{
    proof {
        lemma_blend_bounded(*w, xa as int, xb as int, xc as int, det as int);
        lemma_product_bound(w.a as int, xa as int, 3 * det, 1_000_000);
        lemma_product_bound(w.b as int, xb as int, 3 * det, 1_000_000);
        lemma_product_bound(w.c as int, xc as int, 3 * det, 1_000_000);
    }
    let num: i128 = w.a * (xa as i128) + w.b * (xb as i128) + w.c * (xc as i128);
    if num >= 0 {
        (num / det) as i32
    } else {
        (-((-num) / det)) as i32
    }
}

/// The sample `w` of the face with corners `va`, `vb`, `vc`, on the unit sphere.
pub fn project(va: &Point3, vb: &Point3, vc: &Point3, w: &BaryPoint, det: i128) -> (r: Option<
    Point3,
>)
    requires
        unit_bounded(*va),
        unit_bounded(*vb),
        unit_bounded(*vc),
        w.valid_for(det as int),
    ensures
        r == projected(*va, *vb, *vc, *w, det as int),
        r matches Some(p) ==> unit_bounded(p),
{
    let mix = Point3 {
        x: blend(w, va.x, vb.x, vc.x, det),
        y: blend(w, va.y, vb.y, vc.y, det),
        z: blend(w, va.z, vb.z, vc.z, det),
    };
    mix.normalize()
}

/// Projects every sample of the grid onto every face.
///
/// Returns `None` exactly when some combination is the zero vector, which has
/// no direction.
pub fn project_all(verts: &Vec<Point3>, faces: &Vec<Face>, grid: &Vec<BaryPoint>, det: i128) -> (r:
    Option<Vec<Point3>>)
    requires
        all_unit_bounded(verts@),
        faces_within(faces@, verts@.len() as int),
        all_valid_for(grid@, det as int),
    ensures
        match r {
            Some(points) => all_samples(verts@, faces@, grid@, det as int) == Some(points@)
                && all_unit_bounded(points@),
            None => all_samples(verts@, faces@, grid@, det as int) is None,
        },
{
    let mut points: Vec<Point3> = Vec::new();
    let ghost per_face = grid@.len() as int;
    let mut f: usize = 0;
    while f < faces.len()
        invariant
            f <= faces.len(),
            per_face == grid@.len(),
            all_unit_bounded(verts@),
            faces_within(faces@, verts@.len() as int),
            all_valid_for(grid@, det as int),
            points@.len() == f * per_face,
            forall|k: int|
                0 <= k < points@.len() ==> sample_point(verts@, faces@, grid@, det as int, k)
                    == Some(#[trigger] points@[k]),
            all_unit_bounded(points@),
        decreases faces.len() - f,
    {
        let face: Face = faces[f];
        let va: Point3 = verts[face.a];
        let vb: Point3 = verts[face.b];
        let vc: Point3 = verts[face.c];
        let mut g: usize = 0;
        while g < grid.len()
            invariant
                f < faces.len(),
                g <= grid.len(),
                per_face == grid@.len(),
                face == faces@[f as int],
                face.a < verts@.len(),
                face.b < verts@.len(),
                face.c < verts@.len(),
                va == verts@[face.a as int],
                vb == verts@[face.b as int],
                vc == verts@[face.c as int],
                unit_bounded(va),
                unit_bounded(vb),
                unit_bounded(vc),
                all_valid_for(grid@, det as int),
                points@.len() == f * per_face + g,
                forall|k: int|
                    0 <= k < points@.len() ==> sample_point(verts@, faces@, grid@, det as int, k)
                        == Some(#[trigger] points@[k]),
                all_unit_bounded(points@),
            decreases grid.len() - g,
        {
            let ghost k = f * per_face + g;
            proof {
                lemma_fundamental_div_mod_converse(k, per_face, f as int, g as int);
                assert(k < faces@.len() * per_face) by (nonlinear_arith)
                    requires
                        k == f * per_face + g,
                        0 <= g < per_face,
                        0 <= f < faces@.len(),
                ;
            }
            match project(&va, &vb, &vc, &grid[g], det) {
                Some(p) => {
                    points.push(p);
                },
                None => {
                    assert(sample_point(verts@, faces@, grid@, det as int, k) is None);
                    return None;
                },
            }
            g = g + 1;
        }
        proof {
            assert(f * per_face + per_face == (f + 1) * per_face) by (nonlinear_arith);
        }
        f = f + 1;
    }
    proof {
        let count = faces@.len() * grid@.len();
        assert(points@.len() == count);
        assert forall|k: int| 0 <= k < count implies sample_point(
            verts@,
            faces@,
            grid@,
            det as int,
            k,
        ) is Some by {
            assert(sample_point(verts@, faces@, grid@, det as int, k) == Some(points@[k]));
        }
        assert(points@ =~= all_samples(verts@, faces@, grid@, det as int).unwrap());
    }
    Some(points)
}

} // verus!
