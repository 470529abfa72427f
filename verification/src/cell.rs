//! Cells: a centre, its ordered neighbours, and the boundary ring between them.

use crate::geometry::{all_unit_bounded, normalized, unit_bounded, Point3};
use crate::neighbors::{
    all_within, bearings_of, candidates_of, choose_neighbors, chosen, chosen_count,
    collect_candidates, lemma_candidates_distinct, lemma_candidates_sound,
    lemma_ordered_around_distinct, lemma_ordered_around_keeps, order_neighbors, ordered_around,
    valid_candidate, Candidate,
};
use crate::sorting::{
    lemma_stable_sorted_contains, lemma_stable_sorted_keeps_distinct,
    lemma_stable_sorted_permutes, stable_sort, stable_sorted,
};
use crate::spatial::{SpatialIndex, Tolerances};
use vstd::prelude::*;

verus! {

/// The shape of a cell: twelve cells of a grid are pentagons, the rest hexagons.
#[derive(Clone, Copy, Debug, PartialEq, Eq, Structural)]
pub enum CellType {
    Pentagon,
    Hexagon,
}

/// Why no grid could be built.
#[derive(Clone, Copy, Debug, PartialEq, Eq, Structural)]
pub enum GridError {
    /// A vector that had to be scaled to unit length was the zero vector.
    DegeneratePoint,
    /// A centre has fewer than five other centres within the search radius.
    TooFewNeighbors,
}

/// One cell of the grid.
#[derive(Clone, Debug)]
pub struct Cell {
    /// The position of the cell in the grid, counted from zero.
    pub id: usize,
    pub cell_type: CellType,
    /// The centre of the cell, on the unit sphere.
    pub center: Point3,
    /// The boundary ring; vertex `k` lies between neighbour `k` and neighbour `k + 1`.
    pub vertices: Vec<Point3>,
    /// The ids of the adjacent cells, in the order in which they surround the centre.
    pub neighbors: Vec<usize>,
    pub is_land: bool,
}

/// The mathematical value of a [`Cell`].
pub struct CellView {
    pub id: usize,
    pub cell_type: CellType,
    pub center: Point3,
    pub vertices: Seq<Point3>,
    pub neighbors: Seq<usize>,
    pub is_land: bool,
}

impl View for Cell {
    type V = CellView;

    open spec fn view(&self) -> CellView {
        CellView {
            id: self.id,
            cell_type: self.cell_type,
            center: self.center,
            vertices: self.vertices@,
            neighbors: self.neighbors@,
            is_land: self.is_land,
        }
    }
}

impl CellView {
    /// There are as many vertices as neighbours: five for a pentagon, six for
    /// a hexagon.
    pub open spec fn wf(self) -> bool {
        &&& self.neighbors.len() == self.vertices.len()
        &&& self.cell_type == CellType::Pentagon <==> self.neighbors.len() == 5
        &&& self.cell_type == CellType::Hexagon <==> self.neighbors.len() == 6
    }

    /// The cell is cell `id` of a grid of `count` cells: its neighbours are
    /// other cells of that grid, and none of them is listed twice.
    pub open spec fn fits(self, count: int) -> bool {
        &&& self.id < count
        &&& forall|k: int|
            0 <= k < self.neighbors.len() ==> (#[trigger] self.neighbors[k]) < count
                && self.neighbors[k] != self.id
        &&& forall|a: int, b: int|
            0 <= a < b < self.neighbors.len() ==> self.neighbors[a] != self.neighbors[b]
    }
}

/// The values of a sequence of cells.
pub open spec fn cell_views(cells: Seq<Cell>) -> Seq<CellView> {
    Seq::new(cells.len(), |i: int| cells[i]@)
}

/// The sum of a centre and two of its neighbours.
pub open spec fn corner_sum(c: Point3, a: Point3, b: Point3) -> Point3 {
    Point3 {
        x: (c.x + a.x + b.x) as i32,
        y: (c.y + a.y + b.y) as i32,
        z: (c.z + a.z + b.z) as i32,
    }
}

/// Vertex `k` of the cell around centre `i`: the sum of the centre, neighbour
/// `k` and the neighbour after it, scaled to unit length; `None` when that sum
/// is the zero vector.
pub open spec fn vertex_at(centers: Seq<Point3>, i: int, ring: Seq<usize>, k: int) -> Option<
    Point3,
> {
    normalized(
        corner_sum(
            centers[i],
            centers[ring[k] as int],
            centers[ring[(k + 1) % (ring.len() as int)] as int],
        ),
    )
}

/// The boundary ring of the cell around centre `i`, or `None` when one of its
/// vertices has no direction.
pub open spec fn vertices_of(centers: Seq<Point3>, i: int, ring: Seq<usize>) -> Option<Seq<Point3>> {
    if forall|k: int| 0 <= k < ring.len() ==> vertex_at(centers, i, ring, k) is Some {
        Some(Seq::new(ring.len(), |k: int| vertex_at(centers, i, ring, k).unwrap()))
    } else {
        None
    }
}

/// The shape of a cell with the given number of neighbours.
pub open spec fn shape_of(neighbor_count: int) -> CellType {
    if neighbor_count == 5 {
        CellType::Pentagon
    } else {
        CellType::Hexagon
    }
}

/// The cell around centre `i`, before land classification.
///
/// The candidates are sorted by distance, the nearest five or six are chosen
/// and sorted by bearing, and the boundary ring is laid between them.
pub open spec fn cell_of(centers: Seq<Point3>, tol: Tolerances, i: int) -> Result<
    CellView,
    GridError,
> {
    match chosen(stable_sorted(candidates_of(centers, tol, i))) {
        None => Err(GridError::TooFewNeighbors),
        Some(picked) => {
            let ring = ordered_around(centers, i, picked);
            match vertices_of(centers, i, ring) {
                None => Err(GridError::DegeneratePoint),
                Some(vertices) => Ok(
                    CellView {
                        id: i as usize,
                        cell_type: shape_of(ring.len() as int),
                        center: centers[i],
                        vertices,
                        neighbors: ring,
                        is_land: false,
                    },
                ),
            }
        },
    }
}

/// Every cell has five or six neighbours, as many vertices, and the shape
/// that goes with that number; its neighbours are other centres of the grid.
pub proof fn lemma_cell_of_wf(centers: Seq<Point3>, tol: Tolerances, i: int)
    requires
        tol.wf(),
        0 <= i < centers.len(),
        centers.len() <= usize::MAX,
        unit_bounded(centers[i]),
        cell_of(centers, tol, i) is Ok,
    ensures
        cell_of(centers, tol, i).unwrap().wf(),
        cell_of(centers, tol, i).unwrap().fits(centers.len() as int),
{
    lemma_candidates_sound(centers, tol, i, 125);
    lemma_candidates_distinct(centers, tol, i, 125);
    let cands = candidates_of(centers, tol, i);
    let sorted = stable_sorted(cands);
    let picked = chosen(sorted).unwrap();
    let ring = ordered_around(centers, i, picked);
    lemma_stable_sorted_permutes(cands);
    lemma_stable_sorted_permutes(bearings_of(centers, i, picked));
    assert(picked.len() == chosen_count(sorted));
    assert(ring.len() == picked.len());
    assert forall|k: int| 0 <= k < ring.len() implies (#[trigger] ring[k]) < centers.len()
        && ring[k] != i as usize by {
        lemma_ordered_around_keeps(centers, i, picked, k);
        let j = choose|j: int| 0 <= j < picked.len() && picked[j] == ring[k];
        lemma_stable_sorted_contains(cands, j);
        let s = choose|s: int| 0 <= s < cands.len() && cands[s] == sorted[j];
        assert(valid_candidate(centers, i, tol.radius as int, cands[s]));
    }
    let index_of = |c: Candidate| c.index;
    assert forall|a: int, b: int| 0 <= a < b < cands.len() implies index_of(cands[a]) != index_of(
        cands[b],
    ) by {
        assert(cands[a].index != cands[b].index);
    }
    lemma_stable_sorted_keeps_distinct(cands, index_of);
    assert forall|a: int, b: int| 0 <= a < b < picked.len() implies picked[a] != picked[b] by {
        assert(index_of(sorted[a]) != index_of(sorted[b]));
    }
    lemma_ordered_around_distinct(centers, i, picked);
}

/// The boundary ring of the cell around centre `i`.
///
/// Returns `None` exactly when the sum for one vertex is the zero vector.
pub fn cell_vertices(centers: &Vec<Point3>, i: usize, ring: &Vec<usize>) -> (r: Option<Vec<Point3>>)
    requires
        all_unit_bounded(centers@),
        i < centers@.len(),
        all_within(ring@, centers@.len() as int),
    ensures
        match r {
            Some(vertices) => vertices_of(centers@, i as int, ring@) == Some(vertices@)
                && all_unit_bounded(vertices@),
            None => vertices_of(centers@, i as int, ring@) is None,
        },
{
    let center: Point3 = centers[i];
    let count: usize = ring.len();
    let mut vertices: Vec<Point3> = Vec::new();
    let mut k: usize = 0;
    while k < count
        invariant
            k <= count,
            count == ring@.len(),
            i < centers@.len(),
            center == centers@[i as int],
            all_unit_bounded(centers@),
            all_within(ring@, centers@.len() as int),
            vertices@.len() == k,
            forall|j: int|
                0 <= j < k ==> vertex_at(centers@, i as int, ring@, j) == Some(
                    #[trigger] vertices@[j],
                ),
            all_unit_bounded(vertices@),
        decreases count - k,
    {
        let next: usize = if k + 1 == count {
            0
        } else {
            k + 1
        };
        assert(next == (k + 1) % (count as int)) by {
            if k + 1 == count {
                assert((count as int) % (count as int) == 0) by (nonlinear_arith)
                    requires
                        count > 0,
                ;
            } else {
                assert((k + 1) % (count as int) == k + 1) by (nonlinear_arith)
                    requires
                        0 <= k + 1 < count,
                ;
            }
        }
        let a: Point3 = centers[ring[k]];
        let b: Point3 = centers[ring[next]];
        let sum = Point3 {
            x: center.x + a.x + b.x,
            y: center.y + a.y + b.y,
            z: center.z + a.z + b.z,
        };
        assert(sum == corner_sum(center, a, b));
        match sum.normalize() {
            Some(v) => {
                vertices.push(v);
            },
            None => {
                assert(vertex_at(centers@, i as int, ring@, k as int) is None);
                return None;
            },
        }
        k = k + 1;
    }
    proof {
        assert forall|j: int| 0 <= j < ring@.len() implies vertex_at(
            centers@,
            i as int,
            ring@,
            j,
        ) is Some by {
            assert(vertex_at(centers@, i as int, ring@, j) == Some(vertices@[j]));
        }
        assert(vertices@ =~= vertices_of(centers@, i as int, ring@).unwrap());
    }
    Some(vertices)
}

/// Builds the cell around centre `i`.
///
/// Fails with `TooFewNeighbors` when fewer than five other centres lie within
/// the search radius, and with `DegeneratePoint` when a vertex has no direction.
pub fn build_cell(index: &SpatialIndex, i: usize) -> (r: Result<Cell, GridError>)
    requires
        index.wf(),
        i < index@.len(),
    ensures
        match r {
            Ok(cell) => cell_of(index@, index.tolerances(), i as int) == Ok::<CellView, GridError>(
                cell@,
            ) && cell@.wf() && cell@.fits(index@.len() as int) && all_unit_bounded(cell.vertices@),
            Err(e) => cell_of(index@, index.tolerances(), i as int) == Err::<CellView, GridError>(e),
        },
{
    proof {
        index.lemma_wf_facts();
    }
    let ghost tol = index.tolerances();
    let cands: Vec<Candidate> = collect_candidates(index, i);
    let sorted: Vec<Candidate> = stable_sort(&cands);
    proof {
        let radius = tol.radius as int;
        assert(radius * radius <= 0x4000_0000_0000_0000) by (nonlinear_arith)
            requires
                1 <= radius < 0x8000_0000,
        ;
        assert forall|k: int| 0 <= k < sorted@.len() implies 0 <= (#[trigger] sorted@[k]).dist_sq
            <= 0x4000_0000_0000_0000 && sorted@[k].index < index@.len() by {
            lemma_stable_sorted_contains(cands@, k);
            let s = choose|s: int| 0 <= s < cands@.len() && cands@[s] == sorted@[k];
            assert(valid_candidate(index@, i as int, radius, cands@[s]));
        }
    }
    let picked: Vec<usize> = match choose_neighbors(&sorted) {
        Some(picked) => picked,
        None => {
            return Err(GridError::TooFewNeighbors);
        },
    };
    assert(all_within(picked@, index@.len() as int)) by {
        assert forall|k: int| 0 <= k < picked@.len() implies #[trigger] picked@[k] < index@.len() by {
            assert(picked@[k] == sorted@[k].index);
        }
    }
    let centers: &Vec<Point3> = index.centers();
    let ring: Vec<usize> = order_neighbors(centers, i, &picked);
    assert(all_within(ring@, index@.len() as int)) by {
        assert forall|k: int| 0 <= k < ring@.len() implies #[trigger] ring@[k] < index@.len() by {
            lemma_ordered_around_keeps(index@, i as int, picked@, k);
            let j = choose|j: int| 0 <= j < picked@.len() && picked@[j] == ring@[k];
            assert(picked@[j] < index@.len());
        }
    }
    let vertices: Vec<Point3> = match cell_vertices(centers, i, &ring) {
        Some(vertices) => vertices,
        None => {
            return Err(GridError::DegeneratePoint);
        },
    };
    let cell_type: CellType = if ring.len() == 5 {
        CellType::Pentagon
    } else {
        CellType::Hexagon
    };
    let cell = Cell {
        id: i,
        cell_type,
        center: centers[i],
        vertices,
        neighbors: ring,
        is_land: false,
    };
    proof {
        lemma_cell_of_wf(index@, tol, i as int);
    }
    Ok(cell)
}

} // verus!
