//! Barycentric sampling of one triangular face for a subdivision class `(m, n)`.
//!
//! A face is the lattice triangle with corners `(0, 0)`, `(m, n)` and
//! `(-n, m + n)`. Each lattice point `(u, v)` has barycentric weights that are
//! integers divided by the determinant `m² + mn + n²`; only the numerators are
//! stored, so the sampling is exact.

use crate::geometry::lemma_product_bound;
use vstd::prelude::*;

verus! {

/// A weight `w / det` is admitted when it is at least `-1 / TOLERANCE_DIVISOR`.
pub const TOLERANCE_DIVISOR: i128 = 10_000;

/// The largest determinant a pair of non-negative 32-bit parameters can have.
pub const DET_MAX: i128 = 0xC000_0000_0000_0000;

/// The numerators of a barycentric triple; the common denominator is the
/// determinant of the subdivision class.
#[derive(Clone, Copy, Debug, PartialEq, Eq, Structural)]
pub struct BaryPoint {
    pub a: i128,
    pub b: i128,
    pub c: i128,
}

/// The determinant `m² + mn + n²`: the number of small triangles per face.
pub open spec fn class_det(m: int, n: int) -> int {
    m * m + m * n + n * n
}

/// Both parameters are non-negative and not both are zero.
pub open spec fn valid_class(m: int, n: int) -> bool {
    0 <= m && 0 <= n && 0 < m + n
}

/// The numerator of the weight of the face's second corner at lattice point `(u, v)`.
pub open spec fn weight_b(m: int, n: int, u: int, v: int) -> int {
    u * (m + n) + v * n
}

/// The numerator of the weight of the face's third corner at lattice point `(u, v)`.
pub open spec fn weight_c(m: int, n: int, u: int, v: int) -> int {
    m * v - n * u
}

/// The numerator of the weight of the face's first corner at lattice point `(u, v)`.
pub open spec fn weight_a(m: int, n: int, u: int, v: int) -> int {
    class_det(m, n) - weight_b(m, n, u, v) - weight_c(m, n, u, v)
}

/// The weight `w / det` is not below `-1 / TOLERANCE_DIVISOR`.
pub open spec fn admitted(w: int, det: int) -> bool {
    TOLERANCE_DIVISOR * w + det >= 0
}

/// The barycentric triple of lattice point `(u, v)`.
pub open spec fn lattice_point(m: int, n: int, u: int, v: int) -> BaryPoint {
    BaryPoint {
        a: weight_a(m, n, u, v) as i128,
        b: weight_b(m, n, u, v) as i128,
        c: weight_c(m, n, u, v) as i128,
    }
}

/// Lattice point `(u, v)` lies in the face, up to the tolerance.
pub open spec fn kept(m: int, n: int, u: int, v: int) -> bool {
    let det = class_det(m, n);
    admitted(weight_a(m, n, u, v), det) && admitted(weight_b(m, n, u, v), det) && admitted(
        weight_c(m, n, u, v),
        det,
    )
}

/// The samples of lattice row `u` with `0 <= v < v_end`, by ascending `v`.
pub open spec fn row_samples(m: int, n: int, u: int, v_end: int) -> Seq<BaryPoint>
    decreases v_end,
{
    if v_end <= 0 {
        Seq::empty()
    } else {
        let rest = row_samples(m, n, u, v_end - 1);
        if kept(m, n, u, v_end - 1) {
            rest.push(lattice_point(m, n, u, v_end - 1))
        } else {
            rest
        }
    }
}

/// The samples of the lattice rows `-n <= u < u_end`, row after row.
pub open spec fn grid_samples(m: int, n: int, u_end: int) -> Seq<BaryPoint>
    decreases u_end + n,
{
    if u_end <= -n {
        Seq::empty()
    } else {
        grid_samples(m, n, u_end - 1) + row_samples(m, n, u_end - 1, m + n + 1)
    }
}

/// All samples of one face: the lattice points with `-n <= u <= m` and
/// `0 <= v <= m + n` that are [`kept`], by ascending `u`, then ascending `v`.
pub open spec fn grid_points_spec(m: int, n: int) -> Seq<BaryPoint> {
    grid_samples(m, n, m + 1)
}

impl BaryPoint {
    /// The three numerators add up to `det` and each weight is admitted.
    pub open spec fn valid_for(self, det: int) -> bool {
        &&& 0 < det <= DET_MAX
        &&& self.a + self.b + self.c == det
        &&& admitted(self.a as int, det)
        &&& admitted(self.b as int, det)
        &&& admitted(self.c as int, det)
    }
}

/// Every sample of the sequence is valid for `det`.
pub open spec fn all_valid_for(grid: Seq<BaryPoint>, det: int) -> bool {
    forall|i: int| 0 <= i < grid.len() ==> (#[trigger] grid[i]).valid_for(det)
}

/// The determinant of a valid class is positive and at most [`DET_MAX`].
pub proof fn lemma_det_bounds(m: int, n: int)
    requires
        valid_class(m, n),
        m < 0x8000_0000,
        n < 0x8000_0000,
    ensures
        0 < class_det(m, n) <= DET_MAX,
{
    lemma_product_bound(m, m, 0x8000_0000, 0x8000_0000);
    lemma_product_bound(m, n, 0x8000_0000, 0x8000_0000);
    lemma_product_bound(n, n, 0x8000_0000, 0x8000_0000);
    assert(0 <= m * n) by (nonlinear_arith)
        requires
            0 <= m,
            0 <= n,
    ;
    assert(m <= m * m) by (nonlinear_arith)
        requires
            0 <= m,
    ;
    assert(n <= n * n) by (nonlinear_arith)
        requires
            0 <= n,
    ;
}

/// While the determinant is below [`TOLERANCE_DIVISOR`], the tolerance admits
/// no negative weight: a kept lattice point lies in the closed face.
pub proof fn lemma_small_class_is_exact(w: int, det: int)
    requires
        0 < det < TOLERANCE_DIVISOR,
    ensures
        admitted(w, det) <==> w >= 0,
{
}

/// The three corners of the face are lattice points with weights
/// `(det, 0, 0)`, `(0, det, 0)` and `(0, 0, det)`, and all three are kept.
pub proof fn lemma_corners_are_kept(m: int, n: int)
    requires
        valid_class(m, n),
    ensures
        kept(m, n, 0, 0),
        kept(m, n, m, n),
        kept(m, n, -n, m + n),
        weight_a(m, n, 0, 0) == class_det(m, n),
        weight_b(m, n, m, n) == class_det(m, n),
        weight_c(m, n, -n, m + n) == class_det(m, n),
{
    assert(0 < m * m + m * n + n * n) by (nonlinear_arith)
        requires
            0 <= m,
            0 <= n,
            0 < m + n,
    ;
    assert(m * (m + n) + n * n == m * m + m * n + n * n) by (nonlinear_arith);
    assert(m * n - n * m == 0) by (nonlinear_arith);
    assert((-n) * (m + n) + (m + n) * n == 0) by (nonlinear_arith);
    assert(m * (m + n) - n * (-n) == m * m + m * n + n * n) by (nonlinear_arith);
}

/// The lattice point `(u, v)` is recovered from its weights: `u · det` is
/// `m · b - n · c`, and `v · det` is `n · b + (m + n) · c`.
pub proof fn lemma_weights_invert(m: int, n: int, u: int, v: int)
    ensures
        m * weight_b(m, n, u, v) - n * weight_c(m, n, u, v) == u * class_det(m, n),
        n * weight_b(m, n, u, v) + (m + n) * weight_c(m, n, u, v) == v * class_det(m, n),
{
    assert(m * (u * (m + n) + v * n) - n * (m * v - n * u) == u * (m * m + m * n + n * n))
        by (nonlinear_arith);
    assert(n * (u * (m + n) + v * n) + (m + n) * (m * v - n * u) == v * (m * m + m * n + n * n))
        by (nonlinear_arith);
}

/// The scan leaves out no point of the closed face: a lattice point whose
/// three weights are all non-negative has `-n <= u <= m` and `0 <= v <= m + n`.
pub proof fn lemma_face_within_scan(m: int, n: int, u: int, v: int)
    requires
        valid_class(m, n),
        weight_a(m, n, u, v) >= 0,
        weight_b(m, n, u, v) >= 0,
        weight_c(m, n, u, v) >= 0,
    ensures
        -n <= u <= m,
        0 <= v <= m + n,
{
    let det = class_det(m, n);
    let b = weight_b(m, n, u, v);
    let c = weight_c(m, n, u, v);
    lemma_weights_invert(m, n, u, v);
    assert(0 < det) by (nonlinear_arith)
        requires
            det == m * m + m * n + n * n,
            0 <= m,
            0 <= n,
            0 < m + n,
    ;
    assert(b + c <= det);
    assert(-n <= u <= m) by (nonlinear_arith)
        requires
            m * b - n * c == u * det,
            0 <= b,
            0 <= c,
            b + c <= det,
            0 <= m,
            0 <= n,
            0 < det,
    ;
    assert(0 <= v <= m + n) by (nonlinear_arith)
        requires
            n * b + (m + n) * c == v * det,
            0 <= b,
            0 <= c,
            b + c <= det,
            0 <= m,
            0 <= n,
            0 < det,
    ;
}

/// The weights of a lattice point of the scan fit into the numerators of a
/// [`BaryPoint`], so the triple of a kept point is valid for the determinant.
pub proof fn lemma_lattice_point_valid(m: int, n: int, u: int, v: int)
    requires
        valid_class(m, n),
        m < 0x8000_0000,
        n < 0x8000_0000,
        -n <= u <= m,
        0 <= v <= m + n,
        kept(m, n, u, v),
    ensures
        lattice_point(m, n, u, v).valid_for(class_det(m, n)),
{
    lemma_det_bounds(m, n);
    lemma_product_bound(u, m + n, 0x8000_0000, 0x1_0000_0000);
    lemma_product_bound(v, n, 0x1_0000_0000, 0x8000_0000);
    lemma_product_bound(m, v, 0x8000_0000, 0x1_0000_0000);
    lemma_product_bound(n, u, 0x8000_0000, 0x8000_0000);
}

/// Every sample of a face is valid for the determinant of the class: its
/// three weights add up to one and none is below the tolerance.
pub proof fn lemma_grid_points_valid(m: int, n: int, u_end: int, v_end: int)
    requires
        valid_class(m, n),
        m < 0x8000_0000,
        n < 0x8000_0000,
        -n <= u_end <= m + 1,
        0 <= v_end <= m + n + 1,
    ensures
        u_end <= m ==> all_valid_for(row_samples(m, n, u_end, v_end), class_det(m, n)),
        all_valid_for(grid_samples(m, n, u_end), class_det(m, n)),
    decreases u_end + n, v_end,
{
    let det = class_det(m, n);
    if v_end > 0 && u_end <= m {
        lemma_grid_points_valid(m, n, u_end, v_end - 1);
        if kept(m, n, u_end, v_end - 1) {
            lemma_lattice_point_valid(m, n, u_end, v_end - 1);
        }
        let row = row_samples(m, n, u_end, v_end);
        let rest = row_samples(m, n, u_end, v_end - 1);
        assert forall|i: int| 0 <= i < row.len() implies (#[trigger] row[i]).valid_for(det) by {
            if i < rest.len() {
                assert(row[i] == rest[i]);
            }
        }
    }
    if u_end > -n {
        lemma_grid_points_valid(m, n, u_end - 1, m + n + 1);
        let earlier = grid_samples(m, n, u_end - 1);
        let row = row_samples(m, n, u_end - 1, m + n + 1);
        let all = grid_samples(m, n, u_end);
        assert forall|i: int| 0 <= i < all.len() implies (#[trigger] all[i]).valid_for(det) by {
            if i < earlier.len() {
                assert(all[i] == earlier[i]);
            } else {
                assert(all[i] == row[i - earlier.len()]);
            }
        }
    }
}

/// Every kept lattice point of the scan is among the samples of the face.
pub proof fn lemma_grid_points_complete(m: int, n: int, u: int, v: int, u_end: int, v_end: int)
    requires
        -n <= u,
        0 <= v,
        kept(m, n, u, v),
    ensures
        v < v_end ==> row_samples(m, n, u, v_end).contains(lattice_point(m, n, u, v)),
        u < u_end && v <= m + n ==> grid_samples(m, n, u_end).contains(lattice_point(m, n, u, v)),
    decreases u_end + n, v_end,
{
    let sample = lattice_point(m, n, u, v);
    if v < v_end {
        let row = row_samples(m, n, u, v_end);
        if v == v_end - 1 {
            assert(row[row.len() - 1] == sample);
        } else {
            lemma_grid_points_complete(m, n, u, v, u_end, v_end - 1);
            let rest = row_samples(m, n, u, v_end - 1);
            let k = choose|k: int| 0 <= k < rest.len() && rest[k] == sample;
            assert(row[k] == sample);
        }
    }
    if u < u_end && v <= m + n {
        let all = grid_samples(m, n, u_end);
        let earlier = grid_samples(m, n, u_end - 1);
        let row = row_samples(m, n, u_end - 1, m + n + 1);
        if u == u_end - 1 {
            lemma_grid_points_complete(m, n, u, v, -n, m + n + 1);
            let k = choose|k: int| 0 <= k < row.len() && row[k] == sample;
            assert(all[earlier.len() + k] == sample);
        } else {
            lemma_grid_points_complete(m, n, u, v, u_end - 1, 0);
            let k = choose|k: int| 0 <= k < earlier.len() && earlier[k] == sample;
            assert(all[k] == sample);
        }
    }
}

/// The determinant of a subdivision class.
pub fn determinant(m: i32, n: i32) -> (det: i128)
    requires
        valid_class(m as int, n as int),
    ensures
        det == class_det(m as int, n as int),
        0 < det <= DET_MAX,
{
    let mi: i128 = m as i128;
    let ni: i128 = n as i128;
    proof {
        lemma_det_bounds(m as int, n as int);
        lemma_product_bound(mi as int, mi as int, 0x8000_0000, 0x8000_0000);
        lemma_product_bound(mi as int, ni as int, 0x8000_0000, 0x8000_0000);
        lemma_product_bound(ni as int, ni as int, 0x8000_0000, 0x8000_0000);
    }
    mi * mi + mi * ni + ni * ni
}

/// The barycentric samples of one face for the class `(m, n)`.
pub fn grid_points(m: i32, n: i32) -> (grid: Vec<BaryPoint>)
    requires
        valid_class(m as int, n as int),
    ensures
        grid@ == grid_points_spec(m as int, n as int),
        all_valid_for(grid@, class_det(m as int, n as int)),
{
    let mi: i128 = m as i128;
    let ni: i128 = n as i128;
    let span: i128 = mi + ni;
    let det: i128 = determinant(m, n);
    let mut grid: Vec<BaryPoint> = Vec::new();
    let mut u: i128 = -ni;
    while u <= mi
        invariant
            mi == m,
            ni == n,
            span == mi + ni,
            0 <= mi < 0x8000_0000,
            0 <= ni < 0x8000_0000,
            det == class_det(m as int, n as int),
            0 < det <= DET_MAX,
            -ni <= u <= mi + 1,
            grid@ == grid_samples(m as int, n as int, u as int),
            all_valid_for(grid@, det as int),
        decreases mi + 1 - u,
    {
        let ghost before = grid@;
        let mut v: i128 = 0;
        while v <= span
            invariant
                mi == m,
                ni == n,
                span == mi + ni,
                0 <= mi < 0x8000_0000,
                0 <= ni < 0x8000_0000,
                det == class_det(m as int, n as int),
                0 < det <= DET_MAX,
                -ni <= u <= mi,
                0 <= v <= span + 1,
                grid@ == before + row_samples(m as int, n as int, u as int, v as int),
                all_valid_for(grid@, det as int),
            decreases span + 1 - v,
        {
            proof {
                lemma_product_bound(u as int, span as int, 0x8000_0000, 0x1_0000_0000);
                lemma_product_bound(v as int, ni as int, 0x1_0000_0000, 0x8000_0000);
                lemma_product_bound(mi as int, v as int, 0x8000_0000, 0x1_0000_0000);
                lemma_product_bound(ni as int, u as int, 0x8000_0000, 0x8000_0000);
            }
            let wb: i128 = u * span + v * ni;
            let wc: i128 = mi * v - ni * u;
            let wa: i128 = det - wb - wc;
            let ghost row = row_samples(m as int, n as int, u as int, v as int);
            if 10_000 * wa + det >= 0 && 10_000 * wb + det >= 0 && 10_000 * wc + det >= 0 {
                let sample = BaryPoint { a: wa, b: wb, c: wc };
                grid.push(sample);
                assert(sample == lattice_point(m as int, n as int, u as int, v as int));
                assert(grid@ =~= before + row.push(sample));
            }
            v = v + 1;
        }
        u = u + 1;
    }
    grid
}

} // verus!
