//! The whole grid: from the subdivision class to the list of cells.

use crate::cell::{build_cell, cell_of, cell_views, Cell, CellView, GridError};
use crate::geometry::{all_unit_bounded, dist_sq, isqrt, isqrt_spec, Point3};
use crate::icosahedron::{
    all_samples, ico_faces, ico_faces_spec, ico_vertices, ico_vertices_spec, project_all,
};
use crate::lattice::{class_det, determinant, grid_points, grid_points_spec, valid_class, BaryPoint};
use crate::spatial::{
    deduplicate, lemma_merge_points_separated, merge_points, SpatialIndex, Tolerances,
};
use vstd::prelude::*;

verus! {

/// The square of the search radius for a class of determinant one: the
/// radius is three and a half times the spacing `1 / √det` of the grid.
pub const RADIUS_SQUARE: i128 = 12_250_000_000_000;

/// The search radius for a class of determinant `det`.
pub open spec fn class_radius(det: int) -> int {
    isqrt_spec(RADIUS_SQUARE as int / det)
}

/// The distances for a class of determinant `det`: the search radius, a cube
/// side of half that radius, rounded up, and a merge distance of a hundredth
/// of it.
pub open spec fn class_tolerances(det: int) -> Tolerances {
    let radius = class_radius(det);
    Tolerances { merge: (radius / 100) as i32, bucket: ((radius + 1) / 2) as i32, radius: radius as i32 }
}

impl Tolerances {
    /// The distances that fit the spacing of the class `(m, n)`.
    ///
    /// Returns `None` exactly when the grid is so fine that the merge
    /// distance would be less than one unit of the fixed-point scale.
    pub fn for_class(m: i32, n: i32) -> (r: Option<Tolerances>)
        requires
            valid_class(m as int, n as int),
        ensures
            match r {
                Some(tol) => tol == class_tolerances(class_det(m as int, n as int)) && tol.wf()
                    && class_radius(class_det(m as int, n as int)) >= 100,
                None => class_radius(class_det(m as int, n as int)) < 100,
            },
    {
        let det: i128 = determinant(m, n);
        let quotient: i128 = 12_250_000_000_000 / det;
        assert(0 <= quotient <= 12_250_000_000_000) by (nonlinear_arith)
            requires
                det >= 1,
                quotient == 12_250_000_000_000int / (det as int),
        ;
        let radius: u64 = isqrt(quotient as u64);
        assert(radius <= 3_500_000) by (nonlinear_arith)
            requires
                radius * radius <= quotient,
                quotient <= 12_250_000_000_000,
        ;
        if radius < 100 {
            return None;
        }
        Some(
            Tolerances {
                merge: (radius / 100) as i32,
                bucket: ((radius + 1) / 2) as i32,
                radius: radius as i32,
            },
        )
    }
}

/// The samples of all twenty faces for the class `(m, n)`, on the unit sphere.
pub open spec fn class_samples(m: int, n: int) -> Option<Seq<Point3>> {
    all_samples(ico_vertices_spec(), ico_faces_spec(), grid_points_spec(m, n), class_det(m, n))
}

/// The cell centres of the class `(m, n)`: its samples without those that
/// coincide with an earlier one.
pub open spec fn class_centers(m: int, n: int, tol: Tolerances) -> Option<Seq<Point3>> {
    match class_samples(m, n) {
        Some(points) => Some(merge_points(points, tol.merge as int)),
        None => None,
    }
}

/// The cells around the first `count` centres, or the error of the first
/// centre around which no cell can be built.
pub open spec fn cells_upto(centers: Seq<Point3>, tol: Tolerances, count: int) -> Result<
    Seq<CellView>,
    GridError,
>
    decreases count,
{
    if count <= 0 {
        Ok(Seq::empty())
    } else {
        match cells_upto(centers, tol, count - 1) {
            Err(e) => Err(e),
            Ok(cells) => match cell_of(centers, tol, count - 1) {
                Ok(cell) => Ok(cells.push(cell)),
                Err(e) => Err(e),
            },
        }
    }
}

/// The grid of the class `(m, n)`, before land classification.
pub open spec fn grid_of(m: int, n: int, tol: Tolerances) -> Result<Seq<CellView>, GridError> {
    match class_centers(m, n, tol) {
        None => Err(GridError::DegeneratePoint),
        Some(centers) => cells_upto(centers, tol, centers.len() as int),
    }
}

/// The cells are numbered by their position, each has the shape that goes
/// with its number of neighbours and vertices, and its neighbours are other
/// cells of the grid, each listed once.
pub open spec fn grid_wf(cells: Seq<CellView>) -> bool {
    forall|i: int|
        0 <= i < cells.len() ==> {
            &&& (#[trigger] cells[i]).id == i
            &&& cells[i].wf()
            &&& cells[i].fits(cells.len() as int)
        }
}

/// The centres of any two cells are at least `merge` apart.
pub open spec fn centers_apart(cells: Seq<CellView>, merge: int) -> bool {
    forall|i: int, j: int|
        0 <= i < j < cells.len() ==> dist_sq(
            (#[trigger] cells[i]).center,
            (#[trigger] cells[j]).center,
        ) >= merge * merge
}

/// When all cells can be built there is one per centre, and cell `i` is the
/// cell around centre `i`.
pub proof fn lemma_cells_upto_elements(centers: Seq<Point3>, tol: Tolerances, count: int)
    requires
        0 <= count,
        cells_upto(centers, tol, count) is Ok,
    ensures
        cells_upto(centers, tol, count).unwrap().len() == count,
        forall|i: int|
            0 <= i < count ==> cell_of(centers, tol, i) == Ok::<CellView, GridError>(
                #[trigger] cells_upto(centers, tol, count).unwrap()[i],
            ),
    decreases count,
{
    if count > 0 {
        lemma_cells_upto_elements(centers, tol, count - 1);
    }
}

/// When a cell cannot be built, the error is that of the first such cell.
pub proof fn lemma_cells_upto_error(centers: Seq<Point3>, tol: Tolerances, count: int)
    requires
        0 <= count,
        cells_upto(centers, tol, count) is Err,
    ensures
        exists|i: int|
            0 <= i < count && #[trigger] cell_of(centers, tol, i) == Err::<CellView, GridError>(
                cells_upto(centers, tol, count)->Err_0,
            ) && cells_upto(centers, tol, i) is Ok,
    decreases count,
{
    if count > 0 {
        if cells_upto(centers, tol, count - 1) is Err {
            lemma_cells_upto_error(centers, tol, count - 1);
            let i = choose|i: int|
                0 <= i < count - 1 && #[trigger] cell_of(centers, tol, i) == Err::<
                    CellView,
                    GridError,
                >(cells_upto(centers, tol, count - 1)->Err_0) && cells_upto(centers, tol, i) is Ok;
            assert(cell_of(centers, tol, i) == Err::<CellView, GridError>(
                cells_upto(centers, tol, count)->Err_0,
            ));
        } else {
            assert(cell_of(centers, tol, count - 1) == Err::<CellView, GridError>(
                cells_upto(centers, tol, count)->Err_0,
            ));
        }
    }
}

/// Every cell of a grid has five or six neighbours and as many vertices, is a
/// pentagon exactly with five and a hexagon exactly with six, carries its
/// position as its id, and has only other cells of the grid as neighbours.
pub proof fn lemma_grid_cells_wf(centers: Seq<Point3>, tol: Tolerances)
    requires
        tol.wf(),
        centers.len() <= usize::MAX,
        all_unit_bounded(centers),
        cells_upto(centers, tol, centers.len() as int) is Ok,
    ensures
        grid_wf(cells_upto(centers, tol, centers.len() as int).unwrap()),
{
    let cells = cells_upto(centers, tol, centers.len() as int).unwrap();
    lemma_cells_upto_elements(centers, tol, centers.len() as int);
    assert forall|i: int| 0 <= i < cells.len() implies {
        &&& (#[trigger] cells[i]).id == i
        &&& cells[i].wf()
        &&& cells[i].fits(cells.len() as int)
    } by {
        assert(cell_of(centers, tol, i) == Ok::<CellView, GridError>(cells[i]));
        crate::cell::lemma_cell_of_wf(centers, tol, i);
    }
}

/// Builds the cells around all centres of an index, in the order of the
/// centres; the first cell that cannot be built decides the error.
pub fn build_cells(index: &SpatialIndex) -> (r: Result<Vec<Cell>, GridError>)
    requires
        index.wf(),
    ensures
        match r {
            Ok(cells) => cells_upto(index@, index.tolerances(), index@.len() as int) == Ok::<
                Seq<CellView>,
                GridError,
            >(cell_views(cells@)) && cells@.len() == index@.len() && grid_wf(cell_views(cells@)),
            Err(e) => cells_upto(index@, index.tolerances(), index@.len() as int) == Err::<
                Seq<CellView>,
                GridError,
            >(e),
        },
{
    let count: usize = index.len();
    let ghost tol = index.tolerances();
    let mut cells: Vec<Cell> = Vec::new();
    let mut i: usize = 0;
    assert(cell_views(cells@) =~= Seq::<CellView>::empty());
    while i < count
        invariant
            i <= count,
            count == index@.len(),
            index.wf(),
            tol == index.tolerances(),
            cells@.len() == i,
            cells_upto(index@, tol, i as int) == Ok::<Seq<CellView>, GridError>(
                cell_views(cells@),
            ),
            forall|k: int|
                0 <= k < i ==> {
                    &&& (#[trigger] cells@[k])@.id == k
                    &&& cells@[k]@.wf()
                    &&& cells@[k]@.fits(count as int)
                },
        decreases count - i,
    {
        let ghost before = cell_views(cells@);
        match build_cell(index, i) {
            Ok(cell) => {
                cells.push(cell);
                assert(cell_views(cells@) =~= before.push(cell@));
            },
            Err(e) => {
                proof {
                    lemma_error_stays(index@, tol, i as int + 1, count as int);
                }
                return Err(e);
            },
        }
        i = i + 1;
    }
    Ok(cells)
}

/// Once a cell could not be built, the error stays the same however many
/// more centres are taken into account.
pub proof fn lemma_error_stays(centers: Seq<Point3>, tol: Tolerances, failed: int, count: int)
    requires
        0 <= failed <= count,
        cells_upto(centers, tol, failed) is Err,
    ensures
        cells_upto(centers, tol, count) == cells_upto(centers, tol, failed),
    decreases count - failed,
{
    if failed < count {
        lemma_error_stays(centers, tol, failed, count - 1);
    }
}

/// Builds the grid of the subdivision class `(m, n)`: samples every face of
/// the icosahedron, merges coincident samples into cell centres, and builds a
/// cell around each centre. No cell is marked as land yet. The cells are
/// numbered by position, well-formed, and their centres lie at least the
/// merge distance apart.
///
/// Fails with `DegeneratePoint` when a sample or a vertex has no direction,
/// and with `TooFewNeighbors` when a centre has fewer than five other centres
/// within the search radius; the first centre that fails decides.
pub fn generate_goldberg(m: i32, n: i32, tol: Tolerances) -> (r: Result<Vec<Cell>, GridError>)
    requires
        valid_class(m as int, n as int),
        tol.wf(),
    ensures
        match r {
            Ok(cells) => grid_of(m as int, n as int, tol) == Ok::<Seq<CellView>, GridError>(
                cell_views(cells@),
            ) && grid_wf(cell_views(cells@)) && centers_apart(cell_views(cells@), tol.merge as int),
            Err(e) => grid_of(m as int, n as int, tol) == Err::<Seq<CellView>, GridError>(e),
        },
{
    let verts: Vec<Point3> = ico_vertices();
    let faces = ico_faces();
    let grid: Vec<BaryPoint> = grid_points(m, n);
    let det: i128 = determinant(m, n);
    let points: Vec<Point3> = match project_all(&verts, &faces, &grid, det) {
        Some(points) => points,
        None => {
            return Err(GridError::DegeneratePoint);
        },
    };
    let index: SpatialIndex = deduplicate(&points, tol);
    let built = build_cells(&index);
    proof {
        if built is Ok {
            let views = cell_views(built->Ok_0@);
            lemma_cells_upto_elements(index@, tol, index@.len() as int);
            assert forall|i: int, j: int| 0 <= i < j < views.len() implies dist_sq(
                (#[trigger] views[i]).center,
                (#[trigger] views[j]).center,
            ) >= tol.merge * tol.merge by {
                lemma_merge_points_separated(points@, tol.merge as int, i, j);
                assert(cell_of(index@, tol, i) == Ok::<CellView, GridError>(views[i]));
                assert(cell_of(index@, tol, j) == Ok::<CellView, GridError>(views[j]));
            }
        }
    }
    built
}

} // verus!
