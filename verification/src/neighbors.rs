//! The neighbours of a cell centre: which centres they are, and in what order
//! they surround it.
//!
//! Candidates are gathered from the 5×5×5 block of cubes around the centre,
//! sorted by distance, cut down to the five nearest and a sixth that is less
//! than one and a half times as far away as the fifth, and finally sorted by
//! their bearing in the tangent plane of the centre.

use crate::geometry::{all_unit_bounded, dist_sq, lemma_product_bound, unit_bounded, Point3};
use crate::sorting::{lemma_stable_sorted_permutes, stable_sort, stable_sorted, Ordered};
use crate::spatial::{bucket_key, lemma_members_sound, members, SpatialIndex, Tolerances};
use vstd::prelude::*;

verus! {

/// Above this absolute `y` coordinate the tangent frame is built on the x axis.
pub const POLAR_LIMIT: i32 = 900_000;

/// Another centre within the search radius, with its squared distance.
#[derive(Clone, Copy, Debug, PartialEq, Eq, Structural)]
pub struct Candidate {
    pub index: usize,
    pub dist_sq: i128,
}

impl Ordered for Candidate {
    /// The nearer candidate comes first.
    open spec fn before(self, other: Self) -> bool {
        self.dist_sq < other.dist_sq
    }

    fn is_before(&self, other: &Self) -> (r: bool) {
        self.dist_sq < other.dist_sq
    }

    proof fn lemma_asymmetric(a: Self, b: Self) {
    }

    proof fn lemma_negatively_transitive(a: Self, b: Self, c: Self) {
    }
}

/// A neighbour with its coordinates in the tangent plane of the cell centre.
#[derive(Clone, Copy, Debug, PartialEq, Eq, Structural)]
pub struct Bearing {
    pub index: usize,
    pub x: i64,
    pub y: i64,
}

/// Where the polar angle `atan2(y, x)` of a direction falls: `0` for angles in
/// `(-π, 0)`, `1` for the angle `0`, `2` for angles in `(0, π)` and `3` for `π`.
pub open spec fn angle_rank(x: int, y: int) -> int {
    if y < 0 {
        0
    } else if y > 0 {
        2
    } else if x >= 0 {
        1
    } else {
        3
    }
}

impl Ordered for Bearing {
    /// The direction with the smaller polar angle `atan2(y, x)` comes first.
    /// Within an open half plane the angle grows counter-clockwise, which is
    /// where the cross product is positive.
    open spec fn before(self, other: Self) -> bool {
        let ra = angle_rank(self.x as int, self.y as int);
        let rb = angle_rank(other.x as int, other.y as int);
        ra < rb || (ra == rb && (ra == 0 || ra == 2) && self.x * other.y > self.y * other.x)
    }

    fn is_before(&self, other: &Self) -> (r: bool) {
        let ra: u8 = rank_of(self.x, self.y);
        let rb: u8 = rank_of(other.x, other.y);
        if ra != rb {
            ra < rb
        } else if ra == 0 || ra == 2 {
            wide_product(self.x, other.y) > wide_product(self.y, other.x)
        } else {
            false
        }
    }

    proof fn lemma_asymmetric(a: Self, b: Self) {
        assert(a.x * b.y == b.y * a.x && a.y * b.x == b.x * a.y) by (nonlinear_arith);
    }

    proof fn lemma_negatively_transitive(a: Self, b: Self, c: Self) {
        let ra = angle_rank(a.x as int, a.y as int);
        let rb = angle_rank(b.x as int, b.y as int);
        let rc = angle_rank(c.x as int, c.y as int);
        if ra == rc && rb == ra {
            let ax = a.x as int;
            let ay = a.y as int;
            let bx = b.x as int;
            let by = b.y as int;
            let cx = c.x as int;
            let cy = c.y as int;
            if !(ax * by > ay * bx) && !(bx * cy > by * cx) {
                assert((ax * cy - ay * cx) * by == (ax * by - ay * bx) * cy + (bx * cy - by * cx)
                    * ay) by (nonlinear_arith);
                if ra == 2 {
                    assert(false) by (nonlinear_arith)
                        requires
                            ay > 0,
                            by > 0,
                            cy > 0,
                            ax * cy - ay * cx > 0,
                            ax * by - ay * bx <= 0,
                            bx * cy - by * cx <= 0,
                            (ax * cy - ay * cx) * by == (ax * by - ay * bx) * cy + (bx * cy - by
                                * cx) * ay,
                    ;
                } else {
                    assert(false) by (nonlinear_arith)
                        requires
                            ay < 0,
                            by < 0,
                            cy < 0,
                            ax * cy - ay * cx > 0,
                            ax * by - ay * bx <= 0,
                            bx * cy - by * cx <= 0,
                            (ax * cy - ay * cx) * by == (ax * by - ay * bx) * cy + (bx * cy - by
                                * cx) * ay,
                    ;
                }
            }
        }
    }
}

/// The `t`-th cube of the 5×5×5 block around the cube `(kx, ky, kz)`.
pub open spec fn wide_key(kx: int, ky: int, kz: int, t: int) -> int {
    bucket_key(kx + t / 25 - 2, ky + (t / 5) % 5 - 2, kz + t % 5 - 2)
}

/// The listed centres other than `i` that are closer to centre `i` than
/// `radius`, in the order of the list.
pub open spec fn near_filter(centers: Seq<Point3>, ids: Seq<usize>, i: int, radius: int) -> Seq<
    Candidate,
>
    decreases ids.len(),
{
    if ids.len() == 0 {
        Seq::empty()
    } else {
        let rest = near_filter(centers, ids.drop_last(), i, radius);
        let j = ids.last();
        let d = dist_sq(centers[i], centers[j as int]);
        if j != i && d < radius * radius {
            rest.push(Candidate { index: j, dist_sq: d as i128 })
        } else {
            rest
        }
    }
}

/// The candidates found in the first `t` cubes of the block around centre `i`.
pub open spec fn candidates_upto(centers: Seq<Point3>, tol: Tolerances, i: int, t: int) -> Seq<
    Candidate,
>
    decreases t,
{
    if t <= 0 {
        Seq::empty()
    } else {
        let p = centers[i];
        let b = tol.bucket as int;
        let key = wide_key(p.x as int / b, p.y as int / b, p.z as int / b, t - 1);
        candidates_upto(centers, tol, i, t - 1) + near_filter(
            centers,
            members(centers, b, key),
            i,
            tol.radius as int,
        )
    }
}

/// The candidates for being a neighbour of centre `i`, cube after cube of the
/// 5×5×5 block and by ascending index within a cube.
pub open spec fn candidates_of(centers: Seq<Point3>, tol: Tolerances, i: int) -> Seq<Candidate> {
    candidates_upto(centers, tol, i, 125)
}

/// The candidate names another centre and carries its true squared distance,
/// which is below the squared search radius.
pub open spec fn valid_candidate(centers: Seq<Point3>, i: int, radius: int, c: Candidate) -> bool {
    &&& c.index < centers.len()
    &&& c.index != i
    &&& c.dist_sq == dist_sq(centers[i], centers[c.index as int])
    &&& 0 <= c.dist_sq < radius * radius
}

/// Every candidate of the sequence is a [`valid_candidate`].
pub open spec fn all_valid_candidates(
    centers: Seq<Point3>,
    i: int,
    radius: int,
    cands: Seq<Candidate>,
) -> bool {
    forall|k: int| 0 <= k < cands.len() ==> valid_candidate(centers, i, radius, #[trigger] cands[k])
}

/// How many of the sorted candidates become neighbours: five, and a sixth
/// only if it is less than one and a half times as far away as the fifth.
pub open spec fn chosen_count(sorted: Seq<Candidate>) -> int {
    if sorted.len() > 5 && 4 * sorted[5].dist_sq < 9 * sorted[4].dist_sq {
        6
    } else {
        5
    }
}

/// The neighbours chosen from candidates sorted by distance, nearest first;
/// `None` when there are fewer than five candidates.
pub open spec fn chosen(sorted: Seq<Candidate>) -> Option<Seq<usize>> {
    if sorted.len() < 5 {
        None
    } else {
        Some(Seq::new(chosen_count(sorted) as nat, |k: int| sorted[k].index))
    }
}

/// Whether `c` lies so close to a pole of the y axis that the tangent frame
/// is built on the x axis instead.
pub open spec fn near_pole(c: Point3) -> bool {
    c.y > POLAR_LIMIT || c.y < -POLAR_LIMIT
}

/// The first axis of the tangent plane at `c`: the cross product of `c` with
/// the x axis near the poles, with the y axis elsewhere.
pub open spec fn frame_right(c: Point3) -> (int, int, int) {
    if near_pole(c) {
        (0, c.z as int, -c.y)
    } else {
        (-c.z, 0, c.x as int)
    }
}

/// The second axis of the tangent plane at `c`: the cross product of
/// [`frame_right`] with `c`.
pub open spec fn frame_forward(c: Point3) -> (int, int, int) {
    if near_pole(c) {
        (c.y * c.y + c.z * c.z, -(c.x * c.y), -(c.x * c.z))
    } else {
        (-(c.x * c.y), c.x * c.x + c.z * c.z, -(c.y * c.z))
    }
}

/// The scalar product of the offset `p - c` with a vector.
pub open spec fn offset_dot(c: Point3, p: Point3, v: (int, int, int)) -> int {
    (p.x - c.x) * v.0 + (p.y - c.y) * v.1 + (p.z - c.z) * v.2
}

/// The point `p`, seen from `c`, in the coordinates of the tangent plane at `c`.
pub open spec fn bearing_of(c: Point3, p: Point3, index: usize) -> Bearing {
    Bearing {
        index,
        x: offset_dot(c, p, frame_right(c)) as i64,
        y: offset_dot(c, p, frame_forward(c)) as i64,
    }
}

/// The bearings of the picked centres, seen from centre `i`.
pub open spec fn bearings_of(centers: Seq<Point3>, i: int, picked: Seq<usize>) -> Seq<Bearing> {
    Seq::new(picked.len(), |k: int| bearing_of(centers[i], centers[picked[k] as int], picked[k]))
}

/// The picked centres in the order of their polar angle around centre `i`.
pub open spec fn ordered_around(centers: Seq<Point3>, i: int, picked: Seq<usize>) -> Seq<usize> {
    let sorted = stable_sorted(bearings_of(centers, i, picked));
    Seq::new(sorted.len(), |k: int| sorted[k].index)
}

/// Every listed index names a centre.
pub open spec fn all_within(ids: Seq<usize>, count: int) -> bool {
    forall|k: int| 0 <= k < ids.len() ==> #[trigger] ids[k] < count
}

/// The two axes of the tangent frame are orthogonal to `c` and to each other.
pub proof fn lemma_frame_orthogonal(c: Point3)
    ensures
        ({
            let r = frame_right(c);
            let f = frame_forward(c);
            &&& r.0 * c.x + r.1 * c.y + r.2 * c.z == 0
            &&& f.0 * c.x + f.1 * c.y + f.2 * c.z == 0
            &&& r.0 * f.0 + r.1 * f.1 + r.2 * f.2 == 0
        }),
{
    let x = c.x as int;
    let y = c.y as int;
    let z = c.z as int;
    if near_pole(c) {
        assert(0 * x + z * y + (-y) * z == 0) by (nonlinear_arith);
        assert((y * y + z * z) * x + (-(x * y)) * y + (-(x * z)) * z == 0) by (nonlinear_arith);
        assert(0 * (y * y + z * z) + z * (-(x * y)) + (-y) * (-(x * z)) == 0) by (nonlinear_arith);
    } else {
        assert((-z) * x + 0 * y + x * z == 0) by (nonlinear_arith);
        assert((-(x * y)) * x + (x * x + z * z) * y + (-(y * z)) * z == 0) by (nonlinear_arith);
        assert((-z) * (-(x * y)) + 0 * (x * x + z * z) + x * (-(y * z)) == 0) by (nonlinear_arith);
    }
}

/// The tangent-plane coordinates of a unit-bounded point seen from a
/// unit-bounded centre fit into 64 bits.
pub proof fn lemma_bearing_bounded(c: Point3, p: Point3)
    requires
        unit_bounded(c),
        unit_bounded(p),
    ensures
        -4_000_000_000_000 <= offset_dot(c, p, frame_right(c)) <= 4_000_000_000_000,
        -8_000_000_000_000_000_000 <= offset_dot(c, p, frame_forward(c))
            <= 8_000_000_000_000_000_000,
{
    let cx = c.x as int;
    let cy = c.y as int;
    let cz = c.z as int;
    let ax = p.x - c.x;
    let ay = p.y - c.y;
    let az = p.z - c.z;
    lemma_product_bound(cx, cx, 1_000_000, 1_000_000);
    lemma_product_bound(cx, cy, 1_000_000, 1_000_000);
    lemma_product_bound(cx, cz, 1_000_000, 1_000_000);
    lemma_product_bound(cy, cy, 1_000_000, 1_000_000);
    lemma_product_bound(cy, cz, 1_000_000, 1_000_000);
    lemma_product_bound(cz, cz, 1_000_000, 1_000_000);
    let r = frame_right(c);
    let f = frame_forward(c);
    lemma_product_bound(ax, r.0, 2_000_000, 1_000_000);
    lemma_product_bound(ay, r.1, 2_000_000, 1_000_000);
    lemma_product_bound(az, r.2, 2_000_000, 1_000_000);
    assert(ax * 0 == 0 && ay * 0 == 0);
    if near_pole(c) {
        lemma_product_bound(ax, f.0, 2_000_000, 2_000_000_000_000);
        lemma_product_bound(ay, f.1, 2_000_000, 1_000_000_000_000);
        lemma_product_bound(az, f.2, 2_000_000, 1_000_000_000_000);
    } else {
        lemma_product_bound(ax, f.0, 2_000_000, 1_000_000_000_000);
        lemma_product_bound(ay, f.1, 2_000_000, 2_000_000_000_000);
        lemma_product_bound(az, f.2, 2_000_000, 1_000_000_000_000);
    }
}

/// Filtering a list keeps exactly its centres other than `i` within the radius.
pub proof fn lemma_near_filter(centers: Seq<Point3>, ids: Seq<usize>, i: int, radius: int)
    requires
        0 <= i < centers.len(),
        forall|s: int| 0 <= s < ids.len() ==> 0 <= #[trigger] ids[s] < centers.len(),
    ensures
        all_valid_candidates(centers, i, radius, near_filter(centers, ids, i, radius)),
        forall|s: int|
            0 <= s < ids.len() && ids[s] != i && dist_sq(centers[i], centers[ids[s] as int]) < radius
                * radius ==> exists|k: int|
                0 <= k < near_filter(centers, ids, i, radius).len() && (#[trigger] near_filter(
                    centers,
                    ids,
                    i,
                    radius,
                )[k]).index == #[trigger] ids[s],
    decreases ids.len(),
{
    if ids.len() > 0 {
        let front = ids.drop_last();
        lemma_near_filter(centers, front, i, radius);
        let rest = near_filter(centers, front, i, radius);
        let all = near_filter(centers, ids, i, radius);
        let last = ids[ids.len() - 1];
        lemma_dist_sq_range(centers[i], centers[last as int]);
        assert forall|k: int| 0 <= k < all.len() implies valid_candidate(
            centers,
            i,
            radius,
            #[trigger] all[k],
        ) by {
            if k < rest.len() {
                assert(all[k] == rest[k]);
            }
        }
        assert forall|s: int|
            0 <= s < ids.len() && ids[s] != i && dist_sq(centers[i], centers[ids[s] as int]) < radius
                * radius implies exists|k: int|
            0 <= k < all.len() && (#[trigger] all[k]).index == #[trigger] ids[s] by {
            if s < front.len() {
                assert(front[s] == ids[s]);
                let k = choose|k: int|
                    0 <= k < rest.len() && (#[trigger] rest[k]).index == front[s];
                assert(all[k] == rest[k]);
            } else {
                assert(all[all.len() - 1].index == ids[s]);
            }
        }
    }
}

/// A squared distance is never negative, fits into 66 bits, and is the same
/// in both directions.
pub proof fn lemma_dist_sq_range(a: Point3, b: Point3)
    ensures
        0 <= dist_sq(a, b) <= 0x3_0000_0000_0000_0000,
        dist_sq(a, b) == dist_sq(b, a),
{
    let dx = a.x - b.x;
    let dy = a.y - b.y;
    let dz = a.z - b.z;
    assert(0 <= dx * dx && dx * dx == (-dx) * (-dx)) by (nonlinear_arith);
    assert(0 <= dy * dy && dy * dy == (-dy) * (-dy)) by (nonlinear_arith);
    assert(0 <= dz * dz && dz * dz == (-dz) * (-dz)) by (nonlinear_arith);
    lemma_product_bound(dx, dx, 0x1_0000_0000, 0x1_0000_0000);
    lemma_product_bound(dy, dy, 0x1_0000_0000, 0x1_0000_0000);
    lemma_product_bound(dz, dz, 0x1_0000_0000, 0x1_0000_0000);
    assert(b.x - a.x == -dx && b.y - a.y == -dy && b.z - a.z == -dz);
}

/// Every candidate is another centre within the search radius, with its true
/// squared distance.
pub proof fn lemma_candidates_sound(centers: Seq<Point3>, tol: Tolerances, i: int, t: int)
    requires
        0 <= i < centers.len(),
        centers.len() <= usize::MAX,
    ensures
        all_valid_candidates(centers, i, tol.radius as int, candidates_upto(centers, tol, i, t)),
    decreases t,
{
    if t > 0 {
        lemma_candidates_sound(centers, tol, i, t - 1);
        let p = centers[i];
        let b = tol.bucket as int;
        let key = wide_key(p.x as int / b, p.y as int / b, p.z as int / b, t - 1);
        lemma_members_sound(centers, b, key);
        lemma_near_filter(centers, members(centers, b, key), i, tol.radius as int);
        let earlier = candidates_upto(centers, tol, i, t - 1);
        let added = near_filter(centers, members(centers, b, key), i, tol.radius as int);
        let all = candidates_upto(centers, tol, i, t);
        assert forall|k: int| 0 <= k < all.len() implies valid_candidate(
            centers,
            i,
            tol.radius as int,
            #[trigger] all[k],
        ) by {
            if k < earlier.len() {
                assert(all[k] == earlier[k]);
            } else {
                assert(all[k] == added[k - earlier.len()]);
            }
        }
    }
}

/// Filtering an ascending list gives candidates by ascending index, each of
/// them taken from the list.
pub proof fn lemma_near_filter_ascending(centers: Seq<Point3>, ids: Seq<usize>, i: int, radius: int)
    requires
        forall|s: int, t: int| 0 <= s < t < ids.len() ==> ids[s] < ids[t],
    ensures
        forall|a: int, b: int|
            0 <= a < b < near_filter(centers, ids, i, radius).len() ==> near_filter(
                centers,
                ids,
                i,
                radius,
            )[a].index < near_filter(centers, ids, i, radius)[b].index,
        forall|a: int|
            0 <= a < near_filter(centers, ids, i, radius).len() ==> ids.contains(
                (#[trigger] near_filter(centers, ids, i, radius)[a]).index,
            ),
    decreases ids.len(),
{
    if ids.len() > 0 {
        let front = ids.drop_last();
        lemma_near_filter_ascending(centers, front, i, radius);
        let rest = near_filter(centers, front, i, radius);
        let all = near_filter(centers, ids, i, radius);
        assert forall|a: int| 0 <= a < all.len() implies ids.contains((#[trigger] all[a]).index) by {
            if a < rest.len() {
                assert(all[a] == rest[a]);
                let s = choose|s: int| 0 <= s < front.len() && front[s] == rest[a].index;
                assert(ids[s] == rest[a].index);
            } else {
                assert(ids[ids.len() - 1] == all[a].index);
            }
        }
        assert forall|a: int, b: int| 0 <= a < b < all.len() implies all[a].index
            < all[b].index by {
            assert(all[a] == rest[a]);
            if b < rest.len() {
                assert(all[b] == rest[b]);
            } else {
                let s = choose|s: int| 0 <= s < front.len() && front[s] == rest[a].index;
                assert(ids[s] < ids[ids.len() - 1]);
            }
        }
    }
}

/// The centre with the given index lies in one of the first `t` cubes of the
/// block around centre `i`.
pub open spec fn in_block(centers: Seq<Point3>, tol: Tolerances, i: int, index: usize, t: int) -> bool {
    let b = tol.bucket as int;
    exists|c: int|
        0 <= c < t && crate::spatial::key_of(centers[index as int], b) == #[trigger] wide_key(
            centers[i].x as int / b,
            centers[i].y as int / b,
            centers[i].z as int / b,
            c,
        )
}

/// Different cubes of a block have different keys.
pub proof fn lemma_wide_keys_differ(kx: int, ky: int, kz: int, c: int, d: int)
    requires
        -1_000_000 <= kx <= 1_000_000,
        -1_000_000 <= ky <= 1_000_000,
        -1_000_000 <= kz <= 1_000_000,
        0 <= c < 125,
        0 <= d < 125,
        c != d,
    ensures
        wide_key(kx, ky, kz, c) != wide_key(kx, ky, kz, d),
{
    if wide_key(kx, ky, kz, c) == wide_key(kx, ky, kz, d) {
        crate::spatial::lemma_bucket_key_injective(
            kx + c / 25 - 2,
            ky + (c / 5) % 5 - 2,
            kz + c % 5 - 2,
            kx + d / 25 - 2,
            ky + (d / 5) % 5 - 2,
            kz + d % 5 - 2,
        );
        assert(c == (c / 25) * 25 + ((c / 5) % 5) * 5 + c % 5);
        assert(d == (d / 25) * 25 + ((d / 5) % 5) * 5 + d % 5);
    }
}

/// A centre lies in one cube only: if it is in cube `d` of the block, it is
/// in none of the cubes before `d`.
pub proof fn lemma_one_cube_only(centers: Seq<Point3>, tol: Tolerances, i: int, index: usize, d: int)
    requires
        tol.wf(),
        0 <= i < centers.len(),
        unit_bounded(centers[i]),
        0 <= d < 125,
        crate::spatial::key_of(centers[index as int], tol.bucket as int) == wide_key(
            centers[i].x as int / (tol.bucket as int),
            centers[i].y as int / (tol.bucket as int),
            centers[i].z as int / (tol.bucket as int),
            d,
        ),
    ensures
        !in_block(centers, tol, i, index, d),
{
    let b = tol.bucket as int;
    let p = centers[i];
    crate::spatial::lemma_bucket_coord_bounded(p.x as int, b);
    crate::spatial::lemma_bucket_coord_bounded(p.y as int, b);
    crate::spatial::lemma_bucket_coord_bounded(p.z as int, b);
    if in_block(centers, tol, i, index, d) {
        let c = choose|c: int|
            0 <= c < d && crate::spatial::key_of(centers[index as int], b) == #[trigger] wide_key(
                p.x as int / b,
                p.y as int / b,
                p.z as int / b,
                c,
            );
        lemma_wide_keys_differ(p.x as int / b, p.y as int / b, p.z as int / b, c, d);
    }
}

/// No centre is a candidate twice: every candidate lies in one cube of the
/// block, the cubes have different keys, and a cube lists each of its centres
/// once.
pub proof fn lemma_candidates_distinct(centers: Seq<Point3>, tol: Tolerances, i: int, t: int)
    requires
        tol.wf(),
        centers.len() <= usize::MAX,
        0 <= i < centers.len(),
        unit_bounded(centers[i]),
        0 <= t <= 125,
    ensures
        forall|a: int|
            0 <= a < candidates_upto(centers, tol, i, t).len() ==> in_block(
                centers,
                tol,
                i,
                (#[trigger] candidates_upto(centers, tol, i, t)[a]).index,
                t,
            ),
        forall|a: int, b: int|
            0 <= a < b < candidates_upto(centers, tol, i, t).len() ==> candidates_upto(
                centers,
                tol,
                i,
                t,
            )[a].index != candidates_upto(centers, tol, i, t)[b].index,
    decreases t,
{
    if t > 0 {
        lemma_candidates_distinct(centers, tol, i, t - 1);
        let p = centers[i];
        let bucket = tol.bucket as int;
        let key = wide_key(p.x as int / bucket, p.y as int / bucket, p.z as int / bucket, t - 1);
        let ids = members(centers, bucket, key);
        lemma_members_sound(centers, bucket, key);
        lemma_near_filter_ascending(centers, ids, i, tol.radius as int);
        let earlier = candidates_upto(centers, tol, i, t - 1);
        let added = near_filter(centers, ids, i, tol.radius as int);
        let all = candidates_upto(centers, tol, i, t);
        assert(all == earlier + added);
        assert forall|a: int| 0 <= a < added.len() implies crate::spatial::key_of(
            centers[(#[trigger] added[a]).index as int],
            bucket,
        ) == key by {
            let s = choose|s: int| 0 <= s < ids.len() && ids[s] == added[a].index;
            assert(crate::spatial::key_of(centers[ids[s] as int], bucket) == key);
        }
        assert forall|a: int| 0 <= a < all.len() implies in_block(
            centers,
            tol,
            i,
            (#[trigger] all[a]).index,
            t,
        ) by {
            if a < earlier.len() {
                assert(all[a] == earlier[a]);
                assert(in_block(centers, tol, i, earlier[a].index, t - 1));
            } else {
                assert(all[a] == added[a - earlier.len()]);
            }
        }
        assert forall|a: int, b: int| 0 <= a < b < all.len() implies all[a].index
            != all[b].index by {
            if b < earlier.len() {
                assert(all[a] == earlier[a] && all[b] == earlier[b]);
            } else if a >= earlier.len() {
                assert(all[a] == added[a - earlier.len()]);
                assert(all[b] == added[b - earlier.len()]);
            } else {
                assert(all[a] == earlier[a]);
                assert(all[b] == added[b - earlier.len()]);
                assert(in_block(centers, tol, i, earlier[a].index, t - 1));
                lemma_one_cube_only(centers, tol, i, added[b - earlier.len()].index, t - 1);
            }
        }
    }
}

/// What one cube of the block contributes stays among the candidates when
/// more cubes are looked into.
pub proof fn lemma_candidates_keep(
    centers: Seq<Point3>,
    tol: Tolerances,
    i: int,
    cube: int,
    t: int,
    k: int,
)
    requires
        0 <= cube < t,
        0 <= k < near_filter(
            centers,
            members(
                centers,
                tol.bucket as int,
                wide_key(
                    centers[i].x as int / (tol.bucket as int),
                    centers[i].y as int / (tol.bucket as int),
                    centers[i].z as int / (tol.bucket as int),
                    cube,
                ),
            ),
            i,
            tol.radius as int,
        ).len(),
    ensures
        exists|c: int|
            0 <= c < candidates_upto(centers, tol, i, t).len() && #[trigger] candidates_upto(
                centers,
                tol,
                i,
                t,
            )[c] == near_filter(
                centers,
                members(
                    centers,
                    tol.bucket as int,
                    wide_key(
                        centers[i].x as int / (tol.bucket as int),
                        centers[i].y as int / (tol.bucket as int),
                        centers[i].z as int / (tol.bucket as int),
                        cube,
                    ),
                ),
                i,
                tol.radius as int,
            )[k],
    decreases t,
{
    let b = tol.bucket as int;
    let p = centers[i];
    let all = candidates_upto(centers, tol, i, t);
    let earlier = candidates_upto(centers, tol, i, t - 1);
    if cube == t - 1 {
        assert(all[earlier.len() + k] == near_filter(
            centers,
            members(centers, b, wide_key(p.x as int / b, p.y as int / b, p.z as int / b, cube)),
            i,
            tol.radius as int,
        )[k]);
    } else {
        lemma_candidates_keep(centers, tol, i, cube, t - 1, k);
        let c = choose|c: int|
            0 <= c < earlier.len() && #[trigger] earlier[c] == near_filter(
                centers,
                members(centers, b, wide_key(p.x as int / b, p.y as int / b, p.z as int / b, cube)),
                i,
                tol.radius as int,
            )[k];
        assert(all[c] == earlier[c]);
    }
}

/// No neighbour is overlooked: every other centre within the search radius
/// is among the candidates. The radius spans at most two cubes, so such a
/// centre lies in the 5×5×5 block around the cube of centre `i`.
pub proof fn lemma_candidates_complete(centers: Seq<Point3>, tol: Tolerances, i: int, j: int)
    requires
        tol.wf(),
        centers.len() <= usize::MAX,
        0 <= i < centers.len(),
        0 <= j < centers.len(),
        j != i,
        dist_sq(centers[i], centers[j]) < tol.radius * tol.radius,
    ensures
        exists|c: int|
            0 <= c < candidates_of(centers, tol, i).len() && (#[trigger] candidates_of(
                centers,
                tol,
                i,
            )[c]).index == j,
{
    let b = tol.bucket as int;
    let radius = tol.radius as int;
    let p = centers[i];
    let q = centers[j];
    assert(radius <= 2 * b);
    lemma_dist_sq_range(p, q);
    crate::spatial::lemma_close_points_close_buckets(q, p, b, 2, radius);
    let kx = p.x as int / b;
    let ky = p.y as int / b;
    let kz = p.z as int / b;
    let ox = q.x as int / b - kx;
    let oy = q.y as int / b - ky;
    let oz = q.z as int / b - kz;
    let cube = (ox + 2) * 25 + (oy + 2) * 5 + (oz + 2);
    let key = wide_key(kx, ky, kz, cube);
    assert(key == crate::spatial::key_of(q, b));
    crate::spatial::lemma_members_complete(centers, b, key, j);
    lemma_members_sound(centers, b, key);
    let ids = members(centers, b, key);
    let s = choose|s: int| 0 <= s < ids.len() && #[trigger] ids[s] == j;
    lemma_near_filter(centers, ids, i, radius);
    let added = near_filter(centers, ids, i, radius);
    assert(ids[s] != i && dist_sq(centers[i], centers[ids[s] as int]) < radius * radius);
    let k = choose|k: int| 0 <= k < added.len() && (#[trigger] added[k]).index == ids[s];
    lemma_candidates_keep(centers, tol, i, cube, 125, k);
    let all = candidates_upto(centers, tol, i, 125);
    let c = choose|c: int| 0 <= c < all.len() && #[trigger] all[c] == added[k];
    assert(candidates_of(centers, tol, i)[c].index == j);
}

/// The rank of the polar angle of a direction.
fn rank_of(x: i64, y: i64) -> (r: u8)
    ensures
        r == angle_rank(x as int, y as int),
{
    if y < 0 {
        0
    } else if y > 0 {
        2
    } else if x >= 0 {
        1
    } else {
        3
    }
}

/// The product of two 64-bit integers.
fn wide_product(a: i64, b: i64) -> (r: i128)
    ensures
        r == a * b,
{
    let x: i128 = a as i128;
    let y: i128 = b as i128;
    assert(-0x4000_0000_0000_0000_0000_0000_0000_0000 <= x * y
        <= 0x4000_0000_0000_0000_0000_0000_0000_0000) by (nonlinear_arith)
        requires
            -0x8000_0000_0000_0000 <= x < 0x8000_0000_0000_0000,
            -0x8000_0000_0000_0000 <= y < 0x8000_0000_0000_0000,
    ;
    x * y
}

/// The product of two integers whose bounds keep it within 64 bits.
fn bounded_product(a: i64, b: i64, Ghost(bound_a): Ghost<int>, Ghost(bound_b): Ghost<int>) -> (r:
    i64)
    requires
        -bound_a <= a <= bound_a,
        -bound_b <= b <= bound_b,
        bound_a * bound_b <= 0x7fff_ffff_ffff_ffff,
    ensures
        r == a * b,
        -(bound_a * bound_b) <= r <= bound_a * bound_b,
{
    proof {
        lemma_product_bound(a as int, b as int, bound_a, bound_b);
    }
    a * b
}

/// The candidates for being a neighbour of centre `i`.
pub fn collect_candidates(index: &SpatialIndex, i: usize) -> (out: Vec<Candidate>)
    requires
        index.wf(),
        i < index@.len(),
    ensures
        out@ == candidates_of(index@, index.tolerances(), i as int),
        all_valid_candidates(index@, i as int, index.tolerances().radius as int, out@),
{
    proof {
        index.lemma_wf_facts();
    }
    let tol: Tolerances = index.tolerance();
    let center: Point3 = index.centers()[i];
    let radius: i128 = tol.radius as i128;
    assert(0 < radius * radius <= 0x4000_0000_0000_0000) by (nonlinear_arith)
        requires
            1 <= radius < 0x8000_0000,
    ;
    let limit_sq: i128 = radius * radius;
    let ghost bucket = tol.bucket as int;
    let ghost kx = center.x as int / bucket;
    let ghost ky = center.y as int / bucket;
    let ghost kz = center.z as int / bucket;
    let mut out: Vec<Candidate> = Vec::new();
    let mut t: i64 = 0;
    while t < 125
        invariant
            0 <= t <= 125,
            index.wf(),
            i < index@.len(),
            index@.len() <= usize::MAX,
            all_unit_bounded(index@),
            tol == index.tolerances(),
            tol.wf(),
            center == index@[i as int],
            bucket == tol.bucket,
            kx == center.x as int / bucket,
            ky == center.y as int / bucket,
            kz == center.z as int / bucket,
            radius == tol.radius,
            limit_sq == radius * radius,
            out@ == candidates_upto(index@, tol, i as int, t as int),
            all_valid_candidates(index@, i as int, radius as int, out@),
        decreases 125 - t,
    {
        let key: u64 = index.key_near(&center, t / 25 - 2, (t / 5) % 5 - 2, t % 5 - 2);
        assert(key == wide_key(kx, ky, kz, t as int));
        let ghost before = out@;
        let ghost listed = members(index@, bucket, key as int);
        match index.members_at(key) {
            Some(ids) => {
                proof {
                    lemma_members_sound(index@, bucket, key as int);
                }
                let mut s: usize = 0;
                while s < ids.len()
                    invariant
                        s <= ids@.len(),
                        ids@ == listed,
                        i < index@.len(),
                        center == index@[i as int],
                        limit_sq == radius * radius,
                        forall|k: int| 0 <= k < ids@.len() ==> 0 <= #[trigger] ids@[k] < index@.len(),
                        out@ == before + near_filter(
                            index@,
                            ids@.take(s as int),
                            i as int,
                            radius as int,
                        ),
                        all_valid_candidates(index@, i as int, radius as int, out@),
                    decreases ids.len() - s,
                {
                    let j: usize = ids[s];
                    let d: i128 = center.distance_squared(&index.centers()[j]);
                    let ghost done = near_filter(
                        index@,
                        ids@.take(s as int),
                        i as int,
                        radius as int,
                    );
                    assert(ids@.take(s + 1).drop_last() =~= ids@.take(s as int));
                    if j != i && d < limit_sq {
                        let cand = Candidate { index: j, dist_sq: d };
                        out.push(cand);
                        assert(out@ =~= before + done.push(cand));
                    }
                    s = s + 1;
                }
                assert(ids@.take(s as int) =~= ids@);
            },
            None => {
                assert(listed =~= Seq::<usize>::empty());
                assert(out@ =~= before + near_filter(index@, listed, i as int, radius as int));
            },
        }
        t = t + 1;
    }
    out
}

/// Picks the neighbours from candidates sorted by distance, nearest first.
///
/// Returns `None` exactly when there are fewer than five candidates.
pub fn choose_neighbors(sorted: &Vec<Candidate>) -> (r: Option<Vec<usize>>)
    requires
        forall|k: int|
            0 <= k < sorted@.len() ==> 0 <= (#[trigger] sorted@[k]).dist_sq
                <= 0x4000_0000_0000_0000,
    ensures
        match r {
            Some(picked) => chosen(sorted@) == Some(picked@),
            None => chosen(sorted@) is None,
        },
{
    if sorted.len() < 5 {
        return None;
    }
    let mut count: usize = 5;
    if sorted.len() > 5 && 4 * sorted[5].dist_sq < 9 * sorted[4].dist_sq {
        count = 6;
    }
    let mut picked: Vec<usize> = Vec::new();
    let mut k: usize = 0;
    while k < count
        invariant
            k <= count <= sorted@.len(),
            count == chosen_count(sorted@),
            picked@.len() == k,
            forall|j: int| 0 <= j < k ==> picked@[j] == sorted@[j].index,
        decreases count - k,
    {
        picked.push(sorted[k].index);
        k = k + 1;
    }
    assert(picked@ =~= chosen(sorted@).unwrap());
    Some(picked)
}

/// The bearing of `p` seen from `c`.
pub fn bearing(c: &Point3, p: &Point3, index: usize) -> (b: Bearing)
    requires
        unit_bounded(*c),
        unit_bounded(*p),
    ensures
        b == bearing_of(*c, *p, index),
{
    let m: Ghost<int> = Ghost(1_000_000);
    let cx: i64 = c.x as i64;
    let cy: i64 = c.y as i64;
    let cz: i64 = c.z as i64;
    let ax: i64 = p.x as i64 - cx;
    let ay: i64 = p.y as i64 - cy;
    let az: i64 = p.z as i64 - cz;
    let xx: i64 = bounded_product(cx, cx, m, m);
    let xy: i64 = bounded_product(cx, cy, m, m);
    let xz: i64 = bounded_product(cx, cz, m, m);
    let yy: i64 = bounded_product(cy, cy, m, m);
    let yz: i64 = bounded_product(cy, cz, m, m);
    let zz: i64 = bounded_product(cz, cz, m, m);
    proof {
        lemma_bearing_bounded(*c, *p);
    }
    let polar: bool = c.y > POLAR_LIMIT || c.y < -POLAR_LIMIT;
    let rx: i64 = if polar {
        0
    } else {
        -cz
    };
    let ry: i64 = if polar {
        cz
    } else {
        0
    };
    let rz: i64 = if polar {
        -cy
    } else {
        cx
    };
    let fx: i64 = if polar {
        yy + zz
    } else {
        -xy
    };
    let fy: i64 = if polar {
        -xy
    } else {
        xx + zz
    };
    let fz: i64 = if polar {
        -xz
    } else {
        -yz
    };
    proof {
        assert(frame_right(*c) == (rx as int, ry as int, rz as int));
        assert(frame_forward(*c) == (fx as int, fy as int, fz as int));
    }
    let two_m: Ghost<int> = Ghost(2_000_000);
    let wide: Ghost<int> = Ghost(2_000_000_000_000);
    let narrow: Ghost<int> = Ghost(1_000_000_000_000);
    let x: i64 = bounded_product(ax, rx, two_m, m) + bounded_product(ay, ry, two_m, m)
        + bounded_product(az, rz, two_m, m);
    let y: i64 = if polar {
        bounded_product(ax, fx, two_m, wide) + bounded_product(ay, fy, two_m, narrow)
            + bounded_product(az, fz, two_m, narrow)
    } else {
        bounded_product(ax, fx, two_m, narrow) + bounded_product(ay, fy, two_m, wide)
            + bounded_product(az, fz, two_m, narrow)
    };
    Bearing { index, x, y }
}

/// Sorts the picked centres by their polar angle around centre `i`; centres
/// with the same angle keep their order.
pub fn order_neighbors(centers: &Vec<Point3>, i: usize, picked: &Vec<usize>) -> (out: Vec<usize>)
    requires
        all_unit_bounded(centers@),
        i < centers@.len(),
        all_within(picked@, centers@.len() as int),
    ensures
        out@ == ordered_around(centers@, i as int, picked@),
        out@.len() == picked@.len(),
{
    let center: Point3 = centers[i];
    let mut bearings: Vec<Bearing> = Vec::new();
    let mut k: usize = 0;
    while k < picked.len()
        invariant
            k <= picked@.len(),
            i < centers@.len(),
            center == centers@[i as int],
            all_unit_bounded(centers@),
            all_within(picked@, centers@.len() as int),
            bearings@.len() == k,
            forall|j: int|
                0 <= j < k ==> bearings@[j] == bearing_of(
                    center,
                    centers@[picked@[j] as int],
                    picked@[j],
                ),
        decreases picked.len() - k,
    {
        let j: usize = picked[k];
        bearings.push(bearing(&center, &centers[j], j));
        k = k + 1;
    }
    assert(bearings@ =~= bearings_of(centers@, i as int, picked@));
    let sorted: Vec<Bearing> = stable_sort(&bearings);
    let mut out: Vec<usize> = Vec::new();
    let mut s: usize = 0;
    while s < sorted.len()
        invariant
            s <= sorted@.len(),
            out@.len() == s,
            forall|j: int| 0 <= j < s ==> out@[j] == sorted@[j].index,
        decreases sorted.len() - s,
    {
        out.push(sorted[s].index);
        s = s + 1;
    }
    assert(out@ =~= ordered_around(centers@, i as int, picked@));
    out
}

/// Sorting by bearing keeps the picked centres apart: where no centre was
/// picked twice, no centre stands twice in the ring.
pub proof fn lemma_ordered_around_distinct(centers: Seq<Point3>, i: int, picked: Seq<usize>)
    requires
        forall|a: int, b: int| 0 <= a < b < picked.len() ==> picked[a] != picked[b],
    ensures
        forall|a: int, b: int|
            0 <= a < b < ordered_around(centers, i, picked).len() ==> ordered_around(
                centers,
                i,
                picked,
            )[a] != ordered_around(centers, i, picked)[b],
{
    let bearings = bearings_of(centers, i, picked);
    let key = |b: Bearing| b.index;
    assert forall|a: int, b: int| 0 <= a < b < bearings.len() implies key(bearings[a]) != key(
        bearings[b],
    ) by {
        assert(picked[a] != picked[b]);
    }
    crate::sorting::lemma_stable_sorted_keeps_distinct(bearings, key);
}

/// Sorting by bearing only rearranges the picked centres: every centre of the
/// result is one of the picked centres, and there are as many as were picked.
pub proof fn lemma_ordered_around_keeps(centers: Seq<Point3>, i: int, picked: Seq<usize>, k: int)
    requires
        0 <= k < picked.len(),
    ensures
        ordered_around(centers, i, picked).len() == picked.len(),
        picked.contains(ordered_around(centers, i, picked)[k]),
{
    let bearings = bearings_of(centers, i, picked);
    let sorted = stable_sorted(bearings);
    lemma_stable_sorted_permutes(bearings);
    crate::sorting::lemma_stable_sorted_contains(bearings, k);
    let j = choose|j: int| 0 <= j < bearings.len() && bearings[j] == sorted[k];
    assert(bearings[j].index == picked[j]);
}

} // verus!
