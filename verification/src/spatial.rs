//! Merging of coincident points with a bucket grid.
//!
//! Space is cut into cubes of side `bucket`. A point within distance `merge`
//! of another lies in the same cube or in one of its 26 neighbours, so looking
//! into 27 cubes finds every canonical point that a new point could merge
//! into. The contracts state the result without any mention of cubes: a point
//! is dropped exactly when an earlier canonical point is closer than `merge`.

use crate::geometry::{all_unit_bounded, dist_sq, unit_bounded, Point3, UNIT};
use std::collections::HashMap;
use vstd::arithmetic::div_mod::lemma_fundamental_div_mod_converse;
use vstd::prelude::*;

verus! {

broadcast use vstd::std_specs::hash::group_hash_axioms;

/// Bucket coordinates are shifted by this much before they are packed into a key.
pub const KEY_OFFSET: i64 = 0x10_0000;

/// The number of distinct shifted bucket coordinates per axis.
pub const KEY_SPAN: i64 = 0x20_0000;

/// The distances, in fixed-point, that steer merging and neighbour search.
#[derive(Clone, Copy, Debug, PartialEq, Eq, Structural)]
pub struct Tolerances {
    /// Two points closer than this are the same cell centre.
    pub merge: i32,
    /// The side of one cube of the bucket grid.
    pub bucket: i32,
    /// Only centres closer than this are candidates for being a neighbour.
    pub radius: i32,
}

impl Tolerances {
    /// The merge distance fits into one cube, the search radius into two.
    pub open spec fn wf(self) -> bool {
        &&& 1 <= self.merge <= self.bucket
        &&& 1 <= self.radius <= 2 * self.bucket
    }

    /// Merge distance 0.001, cube side 0.05 and search radius 0.1: the
    /// distances tuned for about twelve thousand cells.
    pub fn standard() -> (tol: Tolerances)
        ensures
            tol == (Tolerances { merge: 1_000, bucket: 50_000, radius: 100_000 }),
            tol.wf(),
    {
        Tolerances { merge: 1_000, bucket: 50_000, radius: 100_000 }
    }

    /// Whether the three distances fit together.
    pub fn is_valid(&self) -> (ok: bool)
        ensures
            ok == self.wf(),
    {
        1 <= self.merge && self.merge <= self.bucket && 1 <= self.radius && self.radius as i64 <= 2
            * (self.bucket as i64)
    }
}

/// The three bucket coordinates packed into one number.
pub open spec fn bucket_key(kx: int, ky: int, kz: int) -> int {
    ((kx + KEY_OFFSET) * KEY_SPAN + (ky + KEY_OFFSET)) * KEY_SPAN + (kz + KEY_OFFSET)
}

/// A bucket coordinate that can be packed.
pub open spec fn packable(k: int) -> bool {
    -KEY_OFFSET <= k < KEY_OFFSET
}

/// The key of the cube that holds `p`.
pub open spec fn key_of(p: Point3, bucket: int) -> int {
    bucket_key(p.x as int / bucket, p.y as int / bucket, p.z as int / bucket)
}

/// The indices of the points whose cube has the given key, in ascending order.
pub open spec fn members(centers: Seq<Point3>, bucket: int, key: int) -> Seq<usize>
    decreases centers.len(),
{
    if centers.len() == 0 {
        Seq::empty()
    } else {
        let rest = members(centers.drop_last(), bucket, key);
        if key_of(centers.last(), bucket) == key {
            rest.push((centers.len() - 1) as usize)
        } else {
            rest
        }
    }
}

/// Some point of `centers` is closer to `p` than `merge`.
pub open spec fn has_close(centers: Seq<Point3>, p: Point3, merge: int) -> bool {
    exists|j: int| 0 <= j < centers.len() && dist_sq(#[trigger] centers[j], p) < merge * merge
}

/// The canonical points of a sequence: a point is canonical unless an earlier
/// canonical point is closer to it than `merge`.
pub open spec fn merge_points(points: Seq<Point3>, merge: int) -> Seq<Point3>
    decreases points.len(),
{
    if points.len() == 0 {
        Seq::empty()
    } else {
        let earlier = merge_points(points.drop_last(), merge);
        if has_close(earlier, points.last(), merge) {
            earlier
        } else {
            earlier.push(points.last())
        }
    }
}

/// Some listed point is closer to `p` than the distance whose square is `limit_sq`.
pub open spec fn any_close(centers: Seq<Point3>, ids: Seq<usize>, p: Point3, limit_sq: int) -> bool {
    exists|s: int|
        0 <= s < ids.len() && 0 <= #[trigger] ids[s] < centers.len() && dist_sq(
            centers[ids[s] as int],
            p,
        ) < limit_sq
}

/// The `t`-th cube of the 3×3×3 block around the cube `(kx, ky, kz)`.
pub open spec fn near_key(kx: int, ky: int, kz: int, t: int) -> int {
    bucket_key(kx + t / 9 - 1, ky + (t / 3) % 3 - 1, kz + t % 3 - 1)
}

/// Packing is injective on packable coordinates.
pub proof fn lemma_bucket_key_injective(ax: int, ay: int, az: int, bx: int, by: int, bz: int)
    requires
        packable(ax),
        packable(ay),
        packable(az),
        packable(bx),
        packable(by),
        packable(bz),
        bucket_key(ax, ay, az) == bucket_key(bx, by, bz),
    ensures
        ax == bx,
        ay == by,
        az == bz,
{
    let span: int = 0x20_0000;
    let off: int = 0x10_0000;
    let qa = (ax + off) * span + (ay + off);
    let qb = (bx + off) * span + (by + off);
    let key = bucket_key(ax, ay, az);
    assert(key == qa * span + (az + off));
    assert(key == qb * span + (bz + off));
    lemma_fundamental_div_mod_converse(key, span, qa, az + off);
    lemma_fundamental_div_mod_converse(key, span, qb, bz + off);
    assert(qa == qb);
    lemma_fundamental_div_mod_converse(qa, span, ax + off, ay + off);
    lemma_fundamental_div_mod_converse(qa, span, bx + off, by + off);
}

/// A packed key of packable coordinates fits into 63 bits.
pub proof fn lemma_bucket_key_range(kx: int, ky: int, kz: int)
    requires
        packable(kx),
        packable(ky),
        packable(kz),
    ensures
        0 <= bucket_key(kx, ky, kz) < 0x8000_0000_0000_0000,
{
    let span: int = 0x20_0000;
    let off: int = 0x10_0000;
    let q = (kx + off) * span + (ky + off);
    assert(0 <= q < span * span) by (nonlinear_arith)
        requires
            0 <= kx + off < span,
            0 <= ky + off < span,
            q == (kx + off) * span + (ky + off),
    ;
    assert(0 <= q * span + (kz + off) < span * span * span) by (nonlinear_arith)
        requires
            0 <= q < span * span,
            0 <= kz + off < span,
            span > 0,
    ;
    assert(span * span * span == 0x8000_0000_0000_0000) by (nonlinear_arith)
        requires
            span == 0x20_0000,
    ;
}

/// The bucket coordinate of a unit-bounded coordinate is within `UNIT` of zero.
pub proof fn lemma_bucket_coord_bounded(c: int, bucket: int)
    requires
        -UNIT <= c <= UNIT,
        1 <= bucket,
    ensures
        -UNIT <= c / bucket <= UNIT,
{
    assert(-UNIT <= c / bucket <= UNIT) by (nonlinear_arith)
        requires
            -1_000_000 <= c <= 1_000_000,
            1 <= bucket,
            UNIT == 1_000_000,
    ;
}

/// Two coordinates that differ by less than `reach` cubes lie at most `reach` cubes apart.
pub proof fn lemma_close_coords_close_buckets(a: int, b: int, bucket: int, reach: int)
    requires
        1 <= bucket,
        0 <= reach,
        -(reach * bucket) < a - b < reach * bucket,
    ensures
        -reach <= a / bucket - b / bucket <= reach,
{
    let qa = a / bucket;
    let qb = b / bucket;
    assert(a == bucket * qa + a % bucket && 0 <= a % bucket < bucket) by (nonlinear_arith)
        requires
            bucket >= 1,
            qa == a / bucket,
    ;
    assert(b == bucket * qb + b % bucket && 0 <= b % bucket < bucket) by (nonlinear_arith)
        requires
            bucket >= 1,
            qb == b / bucket,
    ;
    let ra = a % bucket;
    let rb = b % bucket;
    assert(qa - qb <= reach) by (nonlinear_arith)
        requires
            a == bucket * qa + ra,
            b == bucket * qb + rb,
            0 <= ra < bucket,
            0 <= rb < bucket,
            a - b < reach * bucket,
            1 <= bucket,
    ;
    assert(qb - qa <= reach) by (nonlinear_arith)
        requires
            a == bucket * qa + ra,
            b == bucket * qb + rb,
            0 <= ra < bucket,
            0 <= rb < bucket,
            b - a < reach * bucket,
            1 <= bucket,
    ;
}

/// A difference whose square is below `limit²` is below `limit` in absolute value.
pub proof fn lemma_square_below(d: int, rest: int, limit: int)
    requires
        0 <= rest,
        0 < limit,
        d * d + rest < limit * limit,
    ensures
        -limit < d < limit,
{
    assert(d < limit) by (nonlinear_arith)
        requires
            0 <= rest,
            0 < limit,
            d * d + rest < limit * limit,
    ;
    assert(-d < limit) by (nonlinear_arith)
        requires
            0 <= rest,
            0 < limit,
            d * d + rest < limit * limit,
    ;
}

/// Two points closer than `limit`, where `limit` is at most `reach` cubes,
/// lie at most `reach` cubes apart along every axis.
pub proof fn lemma_close_points_close_buckets(
    a: Point3,
    b: Point3,
    bucket: int,
    reach: int,
    limit: int,
)
    requires
        1 <= bucket,
        0 <= reach,
        0 < limit <= reach * bucket,
        dist_sq(a, b) < limit * limit,
    ensures
        -reach <= a.x as int / bucket - b.x as int / bucket <= reach,
        -reach <= a.y as int / bucket - b.y as int / bucket <= reach,
        -reach <= a.z as int / bucket - b.z as int / bucket <= reach,
{
    let dx = a.x - b.x;
    let dy = a.y - b.y;
    let dz = a.z - b.z;
    assert(0 <= dx * dx) by (nonlinear_arith);
    assert(0 <= dy * dy) by (nonlinear_arith);
    assert(0 <= dz * dz) by (nonlinear_arith);
    lemma_square_below(dx, dy * dy + dz * dz, limit);
    lemma_square_below(dy, dx * dx + dz * dz, limit);
    lemma_square_below(dz, dx * dx + dy * dy, limit);
    lemma_close_coords_close_buckets(a.x as int, b.x as int, bucket, reach);
    lemma_close_coords_close_buckets(a.y as int, b.y as int, bucket, reach);
    lemma_close_coords_close_buckets(a.z as int, b.z as int, bucket, reach);
}

/// Every member of a cube is the index of a point in that cube, and the
/// members are listed in strictly ascending order.
pub proof fn lemma_members_sound(centers: Seq<Point3>, bucket: int, key: int)
    requires
        centers.len() <= usize::MAX,
    ensures
        forall|s: int|
            0 <= s < members(centers, bucket, key).len() ==> {
                let j = #[trigger] members(centers, bucket, key)[s];
                0 <= j < centers.len() && key_of(centers[j as int], bucket) == key
            },
        forall|s: int, t: int|
            0 <= s < t < members(centers, bucket, key).len() ==> members(centers, bucket, key)[s]
                < members(centers, bucket, key)[t],
    decreases centers.len(),
{
    if centers.len() > 0 {
        let prev = centers.drop_last();
        lemma_members_sound(prev, bucket, key);
        let rest = members(prev, bucket, key);
        let all = members(centers, bucket, key);
        assert forall|s: int| 0 <= s < all.len() implies {
            let j = #[trigger] all[s];
            0 <= j < centers.len() && key_of(centers[j as int], bucket) == key
        } by {
            if s < rest.len() {
                assert(all[s] == rest[s]);
                assert(prev[rest[s] as int] == centers[rest[s] as int]);
            }
        }
        assert forall|s: int, t: int| 0 <= s < t < all.len() implies all[s] < all[t] by {
            assert(all[s] == rest[s]);
            if t < rest.len() {
                assert(all[t] == rest[t]);
            }
        }
    }
}

/// Every point of a cube is among the members of that cube.
pub proof fn lemma_members_complete(centers: Seq<Point3>, bucket: int, key: int, j: int)
    requires
        0 <= j < centers.len(),
        centers.len() <= usize::MAX,
        key_of(centers[j], bucket) == key,
    ensures
        exists|s: int|
            0 <= s < members(centers, bucket, key).len() && #[trigger] members(
                centers,
                bucket,
                key,
            )[s] == j,
    decreases centers.len(),
{
    let all = members(centers, bucket, key);
    if j == centers.len() - 1 {
        assert(all[all.len() - 1] == j);
    } else {
        lemma_members_complete(centers.drop_last(), bucket, key, j);
        let rest = members(centers.drop_last(), bucket, key);
        let s = choose|s: int| 0 <= s < rest.len() && #[trigger] rest[s] == j;
        assert(all[s] == j);
    }
}

/// Appending a point adds its index to its own cube and leaves every other cube alone.
pub proof fn lemma_members_push(centers: Seq<Point3>, p: Point3, bucket: int, key: int)
    ensures
        members(centers.push(p), bucket, key) == if key_of(p, bucket) == key {
            members(centers, bucket, key).push(centers.len() as usize)
        } else {
            members(centers, bucket, key)
        },
{
    assert(centers.push(p).drop_last() =~= centers);
}

/// Canonical points are taken from the input, so they inherit its bounds.
pub proof fn lemma_merge_points_bounded(points: Seq<Point3>, merge: int)
    requires
        all_unit_bounded(points),
    ensures
        all_unit_bounded(merge_points(points, merge)),
        merge_points(points, merge).len() <= points.len(),
    decreases points.len(),
{
    if points.len() > 0 {
        lemma_merge_points_bounded(points.drop_last(), merge);
    }
}

/// The canonical points of a longer sequence begin with the canonical points
/// of the shorter one: later points never change what was decided earlier.
pub proof fn lemma_merge_points_grows(points: Seq<Point3>, merge: int)
    requires
        points.len() > 0,
    ensures
        merge_points(points.drop_last(), merge).len() <= merge_points(points, merge).len(),
        forall|c: int|
            0 <= c < merge_points(points.drop_last(), merge).len() ==> merge_points(points, merge)[c]
                == #[trigger] merge_points(points.drop_last(), merge)[c],
{
}

/// Any two canonical points are at least `merge` apart.
pub proof fn lemma_merge_points_separated(points: Seq<Point3>, merge: int, i: int, j: int)
    requires
        0 <= i < j < merge_points(points, merge).len(),
    ensures
        dist_sq(merge_points(points, merge)[i], merge_points(points, merge)[j]) >= merge * merge,
    decreases points.len(),
{
    let earlier = merge_points(points.drop_last(), merge);
    if has_close(earlier, points.last(), merge) || j < earlier.len() {
        lemma_merge_points_separated(points.drop_last(), merge, i, j);
    } else {
        assert(earlier[i] == merge_points(points, merge)[i]);
    }
}

/// Every canonical point is one of the points.
pub proof fn lemma_merge_points_from_input(points: Seq<Point3>, merge: int, c: int)
    requires
        0 <= c < merge_points(points, merge).len(),
    ensures
        points.contains(merge_points(points, merge)[c]),
    decreases points.len(),
{
    let earlier = merge_points(points.drop_last(), merge);
    if c < earlier.len() {
        lemma_merge_points_from_input(points.drop_last(), merge, c);
        let k = choose|k: int| 0 <= k < points.drop_last().len() && points.drop_last()[k] == earlier[c];
        assert(points[k] == earlier[c]);
    } else {
        assert(points[points.len() - 1] == merge_points(points, merge)[c]);
    }
}

/// Every point is closer than `merge` to a canonical point: either it is
/// canonical itself, or it was merged into a canonical point found before it.
pub proof fn lemma_merge_points_covers(points: Seq<Point3>, merge: int, k: int)
    requires
        1 <= merge,
        0 <= k < points.len(),
    ensures
        has_close(merge_points(points, merge), points[k], merge),
    decreases points.len(),
{
    let earlier = merge_points(points.drop_last(), merge);
    let all = merge_points(points, merge);
    lemma_merge_points_grows(points, merge);
    if k < points.len() - 1 {
        lemma_merge_points_covers(points.drop_last(), merge, k);
        let c = choose|c: int|
            0 <= c < earlier.len() && dist_sq(#[trigger] earlier[c], points.drop_last()[k]) < merge
                * merge;
        assert(dist_sq(all[c], points[k]) < merge * merge);
    } else if has_close(earlier, points.last(), merge) {
        let c = choose|c: int|
            0 <= c < earlier.len() && dist_sq(#[trigger] earlier[c], points.last()) < merge * merge;
        assert(dist_sq(all[c], points[k]) < merge * merge);
    } else {
        let c = all.len() - 1;
        assert(dist_sq(all[c], points[k]) == 0) by (nonlinear_arith)
            requires
                all[c] == points[k],
        ;
        assert(0 < merge * merge) by (nonlinear_arith)
            requires
                1 <= merge,
        ;
    }
}

/// Floor division of a coordinate by a positive cube side.
pub fn floor_div(c: i32, b: i32) -> (q: i32)
    requires
        1 <= b,
    ensures
        q == c as int / b as int,
{
    if c >= 0 {
        c / b
    } else {
        let a: i64 = -(c as i64);
        let d: i64 = b as i64;
        let k: i64 = (a + d - 1) / d;
        proof {
            let ai = a as int;
            let di = d as int;
            let ki = k as int;
            let r = (ai + di - 1) % di;
            assert(ki == (ai + di - 1) / di);
            assert(ai + di - 1 == di * ki + r && 0 <= r < di) by (nonlinear_arith)
                requires
                    di >= 1,
                    ki == (ai + di - 1) / di,
                    r == (ai + di - 1) % di,
            ;
            assert(c == (-ki) * di + (di - 1 - r)) by (nonlinear_arith)
                requires
                    ai + di - 1 == di * ki + r,
                    ai == -c,
            ;
            lemma_fundamental_div_mod_converse(c as int, di, -ki, di - 1 - r);
            assert(0 <= ki <= ai) by (nonlinear_arith)
                requires
                    ai + di - 1 == di * ki + r,
                    0 <= r < di,
                    di >= 1,
                    ai >= 1,
            ;
        }
        (-k) as i32
    }
}

/// Packs three bucket coordinates into a key.
pub fn pack_key(kx: i64, ky: i64, kz: i64) -> (key: u64)
    requires
        packable(kx as int),
        packable(ky as int),
        packable(kz as int),
    ensures
        key == bucket_key(kx as int, ky as int, kz as int),
{
    proof {
        lemma_bucket_key_range(kx as int, ky as int, kz as int);
        let span: int = 0x20_0000;
        let off: int = 0x10_0000;
        assert(0 <= (kx + off) * span + (ky + off) < span * span) by (nonlinear_arith)
            requires
                0 <= kx + off < span,
                0 <= ky + off < span,
        ;
        assert(0 <= (kx + off) * span < span * span) by (nonlinear_arith)
            requires
                0 <= kx + off < span,
        ;
        assert(span * span == 0x400_0000_0000) by (nonlinear_arith)
            requires
                span == 0x20_0000,
        ;
    }
    let q: i64 = (kx + KEY_OFFSET) * KEY_SPAN + (ky + KEY_OFFSET);
    (q * KEY_SPAN + (kz + KEY_OFFSET)) as u64
}

/// The canonical points found so far, indexed by the cube they lie in.
pub struct SpatialIndex {
    centers: Vec<Point3>,
    buckets: HashMap<u64, Vec<usize>>,
    tol: Tolerances,
}

impl View for SpatialIndex {
    type V = Seq<Point3>;

    /// The canonical points, in the order in which they were found.
    closed spec fn view(&self) -> Seq<Point3> {
        self.centers@
    }
}

impl SpatialIndex {
    /// The distances the index was made with.
    pub closed spec fn tolerances(&self) -> Tolerances {
        self.tol
    }

    /// The cube side.
    pub open spec fn bucket(&self) -> int {
        self.tolerances().bucket as int
    }

    /// The list stored for a cube, empty where nothing is stored.
    pub closed spec fn stored(&self, key: u64) -> Seq<usize> {
        if self.buckets@.contains_key(key) {
            self.buckets@[key]@
        } else {
            Seq::empty()
        }
    }

    /// The index lists every point under the key of its cube, and nothing else.
    pub closed spec fn wf(&self) -> bool {
        &&& self.tol.wf()
        &&& self.centers@.len() <= usize::MAX
        &&& all_unit_bounded(self.centers@)
        &&& forall|key: u64| #[trigger]
            self.stored(key) == members(self.centers@, self.tol.bucket as int, key as int)
    }

    /// A well-formed index holds unit-bounded points and valid distances.
    pub proof fn lemma_wf_facts(&self)
        requires
            self.wf(),
        ensures
            self.tolerances().wf(),
            all_unit_bounded(self@),
            self@.len() <= usize::MAX,
    {
    }

    /// An index without points.
    pub fn new(tol: Tolerances) -> (index: SpatialIndex)
        requires
            tol.wf(),
        ensures
            index.wf(),
            index@ == Seq::<Point3>::empty(),
            index.tolerances() == tol,
    {
        let index = SpatialIndex { centers: Vec::new(), buckets: HashMap::new(), tol };
        assert(index.buckets@ =~= Map::<u64, Vec<usize>>::empty());
        index
    }

    /// The number of canonical points.
    pub fn len(&self) -> (n: usize)
        ensures
            n == self@.len(),
    {
        self.centers.len()
    }

    /// The canonical points.
    pub fn centers(&self) -> (points: &Vec<Point3>)
        ensures
            points@ == self@,
    {
        &self.centers
    }

    /// The distances the index was made with.
    pub fn tolerance(&self) -> (tol: Tolerances)
        ensures
            tol == self.tolerances(),
    {
        self.tol
    }

    /// The key of the cube that holds `p`, shifted by `(dx, dy, dz)` cubes.
    pub fn key_near(&self, p: &Point3, dx: i64, dy: i64, dz: i64) -> (key: u64)
        requires
            self.tolerances().wf(),
            unit_bounded(*p),
            -2 <= dx <= 2,
            -2 <= dy <= 2,
            -2 <= dz <= 2,
        ensures
            key == bucket_key(
                p.x as int / self.bucket() + dx,
                p.y as int / self.bucket() + dy,
                p.z as int / self.bucket() + dz,
            ),
            packable(p.x as int / self.bucket() + dx),
            packable(p.y as int / self.bucket() + dy),
            packable(p.z as int / self.bucket() + dz),
    {
        proof {
            lemma_bucket_coord_bounded(p.x as int, self.bucket());
            lemma_bucket_coord_bounded(p.y as int, self.bucket());
            lemma_bucket_coord_bounded(p.z as int, self.bucket());
        }
        let kx: i64 = floor_div(p.x, self.tol.bucket) as i64 + dx;
        let ky: i64 = floor_div(p.y, self.tol.bucket) as i64 + dy;
        let kz: i64 = floor_div(p.z, self.tol.bucket) as i64 + dz;
        pack_key(kx, ky, kz)
    }

    /// The indices of the points in the cube with the given key, ascending;
    /// `None` stands for a cube without points.
    pub fn members_at(&self, key: u64) -> (list: Option<&Vec<usize>>)
        requires
            self.wf(),
        ensures
            match list {
                Some(ids) => ids@ == members(self@, self.bucket(), key as int),
                None => members(self@, self.bucket(), key as int).len() == 0,
            },
    {
        assert(self.stored(key) == members(self.centers@, self.tol.bucket as int, key as int));
        self.buckets.get(&key)
    }

    /// Whether one of the listed points is closer to `p` than the distance
    /// whose square is `limit_sq`.
    fn list_has_close(&self, ids: &Vec<usize>, p: &Point3, limit_sq: i128) -> (found: bool)
        requires
            forall|s: int| 0 <= s < ids@.len() ==> 0 <= #[trigger] ids@[s] < self@.len(),
        ensures
            found == any_close(self@, ids@, *p, limit_sq as int),
    {
        let mut s: usize = 0;
        while s < ids.len()
            invariant
                s <= ids@.len(),
                forall|t: int| 0 <= t < ids@.len() ==> 0 <= #[trigger] ids@[t] < self@.len(),
                forall|t: int|
                    0 <= t < s ==> dist_sq(self@[(#[trigger] ids@[t]) as int], *p) >= limit_sq,
            decreases ids.len() - s,
        {
            let j: usize = ids[s];
            if self.centers[j].distance_squared(p) < limit_sq {
                return true;
            }
            s = s + 1;
        }
        false
    }

    /// Whether a canonical point is closer to `p` than the merge distance.
    pub fn has_point_near(&self, p: &Point3) -> (found: bool)
        requires
            self.wf(),
            unit_bounded(*p),
        ensures
            found == has_close(self@, *p, self.tolerances().merge as int),
    {
        let merge: i128 = self.tol.merge as i128;
        assert(0 < merge * merge <= 0x4000_0000_0000_0000) by (nonlinear_arith)
            requires
                1 <= merge < 0x8000_0000,
        ;
        let limit_sq: i128 = merge * merge;
        let ghost bucket = self.bucket();
        let ghost kx = p.x as int / bucket;
        let ghost ky = p.y as int / bucket;
        let ghost kz = p.z as int / bucket;
        let mut t: i64 = 0;
        while t < 27
            invariant
                0 <= t <= 27,
                self.wf(),
                unit_bounded(*p),
                bucket == self.bucket(),
                kx == p.x as int / bucket,
                ky == p.y as int / bucket,
                kz == p.z as int / bucket,
                limit_sq == self.tolerances().merge * self.tolerances().merge,
                forall|s: int|
                    0 <= s < t ==> !any_close(
                        self@,
                        members(self@, bucket, #[trigger] near_key(kx, ky, kz, s)),
                        *p,
                        limit_sq as int,
                    ),
            decreases 27 - t,
        {
            let key: u64 = self.key_near(p, t / 9 - 1, (t / 3) % 3 - 1, t % 3 - 1);
            assert(key == near_key(kx, ky, kz, t as int));
            match self.members_at(key) {
                Some(ids) => {
                    proof {
                        self.lemma_wf_facts();
                        lemma_members_sound(self@, bucket, key as int);
                    }
                    if self.list_has_close(ids, p, limit_sq) {
                        proof {
                            let s = choose|s: int|
                                0 <= s < ids@.len() && 0 <= #[trigger] ids@[s] < self@.len()
                                    && dist_sq(self@[ids@[s] as int], *p) < limit_sq;
                            assert(dist_sq(self@[ids@[s] as int], *p) < limit_sq);
                        }
                        return true;
                    }
                },
                None => {},
            }
            t = t + 1;
        }
        proof {
            let merge = self.tolerances().merge as int;
            assert forall|j: int| 0 <= j < self@.len() implies dist_sq(#[trigger] self@[j], *p)
                >= merge * merge by {
                if dist_sq(self@[j], *p) < merge * merge {
                    self.lemma_wf_facts();
                    let c = self@[j];
                    lemma_close_points_close_buckets(c, *p, bucket, 1, merge);
                    let ox = c.x as int / bucket - kx;
                    let oy = c.y as int / bucket - ky;
                    let oz = c.z as int / bucket - kz;
                    let s = (ox + 1) * 9 + (oy + 1) * 3 + (oz + 1);
                    assert(near_key(kx, ky, kz, s) == key_of(c, bucket));
                    lemma_members_complete(self@, bucket, key_of(c, bucket), j);
                    assert(any_close(
                        self@,
                        members(self@, bucket, near_key(kx, ky, kz, s)),
                        *p,
                        limit_sq as int,
                    ));
                }
            }
        }
        false
    }

    /// Appends a canonical point and lists it under the key of its cube.
    pub fn push(&mut self, p: Point3)
        requires
            old(self).wf(),
            unit_bounded(p),
        ensures
            final(self).wf(),
            final(self)@ == old(self)@.push(p),
            final(self).tolerances() == old(self).tolerances(),
    {
        let key: u64 = self.key_near(&p, 0, 0, 0);
        let id: usize = self.centers.len();
        let ghost before = *self;
        assert(before.stored(key) == members(before@, before.bucket(), key as int));
        let mut list: Vec<usize> = match self.buckets.remove(&key) {
            Some(ids) => ids,
            None => Vec::new(),
        };
        list.push(id);
        self.buckets.insert(key, list);
        self.centers.push(p);
        proof {
            assert(self.centers@.len() == self.centers.len());
            assert forall|other: u64| #[trigger]
                self.stored(other) == members(
                    self.centers@,
                    self.tol.bucket as int,
                    other as int,
                ) by {
                lemma_members_push(before@, p, before.bucket(), other as int);
                assert(before.stored(other) == members(before@, before.bucket(), other as int));
            }
        }
    }
}

/// Merges coincident points: the result holds the canonical points, in the
/// order of their first occurrence.
pub fn deduplicate(points: &Vec<Point3>, tol: Tolerances) -> (index: SpatialIndex)
    requires
        tol.wf(),
        all_unit_bounded(points@),
    ensures
        index.wf(),
        index.tolerances() == tol,
        index@ == merge_points(points@, tol.merge as int),
{
    let mut index = SpatialIndex::new(tol);
    let mut i: usize = 0;
    while i < points.len()
        invariant
            i <= points@.len(),
            all_unit_bounded(points@),
            index.wf(),
            index.tolerances() == tol,
            index@ == merge_points(points@.take(i as int), tol.merge as int),
        decreases points.len() - i,
    {
        let p: Point3 = points[i];
        assert(points@.take(i + 1).drop_last() =~= points@.take(i as int));
        if !index.has_point_near(&p) {
            index.push(p);
        }
        i = i + 1;
    }
    assert(points@.take(i as int) =~= points@);
    index
}

} // verus!
