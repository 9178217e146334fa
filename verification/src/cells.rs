//! The occupancy grid: a `grid::Grid` of optional identifiers, held behind a
//! small trusted surface. Its contents are named by `cells_of`, a sequence of
//! rows, each row a sequence of cells holding the characters of the covering
//! identifier or nothing.

use vstd::prelude::*;

verus! {

#[verifier::external_type_specification]
#[verifier::external_body]
#[verifier::reject_recursive_types(T)]
pub struct ExGrid<T>(grid::Grid<T>);

/// What the occupancy grid holds: one sequence per row, one entry per cell.
pub uninterp spec fn cells_of(g: grid::Grid<Option<String>>) -> Seq<Seq<Option<Seq<char>>>>;

/// The view of one optional identifier.
pub open spec fn opt_id_view(o: Option<String>) -> Option<Seq<char>> {
    match o {
        Some(s) => Some(s@),
        None => None,
    }
}

/// Relies on grid::Grid::new: an all-default grid of the given size, stored
/// dense; a zero dimension yields the empty grid.
#[verifier::external_body]
pub fn grid_new(rows: usize, cols: usize) -> (g: grid::Grid<Option<String>>)
    requires
        rows * cols <= usize::MAX,
    ensures
        rows == 0 || cols == 0 ==> cells_of(g).len() == 0,
        rows > 0 && cols > 0 ==> {
            &&& cells_of(g).len() == rows
            &&& forall|r: int| 0 <= r < rows ==> (#[trigger] cells_of(g)[r]).len() == cols
            &&& forall|r: int, c: int|
                0 <= r < rows && 0 <= c < cols ==> (#[trigger] cells_of(g)[r][c]) is None
        },
{
    grid::Grid::new(rows, cols)
}

/// Relies on grid::Grid::get: the element at the given row and column, which
/// is present whenever the position is within the grid.
#[verifier::external_body]
pub fn grid_get(g: &grid::Grid<Option<String>>, row: usize, col: usize) -> (r: Option<String>)
    requires
        row < cells_of(*g).len(),
        col < cells_of(*g)[row as int].len(),
    ensures
        opt_id_view(r) == cells_of(*g)[row as int][col as int],
{
    match g.get(row, col) {
        Some(cell) => cell.clone(),
        None => None,
    }
}

/// Relies on grid::Grid::get_mut: writes the element at the given row and
/// column and changes nothing else.
#[verifier::external_body]
pub fn grid_set(g: &mut grid::Grid<Option<String>>, row: usize, col: usize, v: Option<String>)
    requires
        row < cells_of(*old(g)).len(),
        col < cells_of(*old(g))[row as int].len(),
    ensures
        cells_of(*final(g)) == cells_of(*old(g)).update(
            row as int,
            cells_of(*old(g))[row as int].update(col as int, opt_id_view(v)),
        ),
{
    if let Some(cell) = g.get_mut(row, col) {
        *cell = v;
    }
}

} // verus!
