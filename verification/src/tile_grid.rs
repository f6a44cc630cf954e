//! The tile store of a room: a `grid::Grid` of tiles, and what is taken on
//! trust about it.

use vstd::prelude::*;
use grid::Grid;
use crate::room::Tile;

verus! {

#[verifier::external_type_specification]
#[verifier::external_body]
#[verifier::reject_recursive_types(T)]
pub struct ExGrid<T>(Grid<T>);

/// The tiles that a grid holds, row by row, each row from column 0 on.
pub uninterp spec fn grid_cells(g: Grid<Tile>) -> Seq<Seq<Tile>>;

/// The number of columns that a grid was made with.
pub uninterp spec fn grid_width(g: Grid<Tile>) -> nat;

/// A grid of all-ground tiles, as `Room::new` starts with: no tiles at all
/// when either side is zero.
pub open spec fn blank_tiles(rows: usize, cols: usize) -> Seq<Seq<Tile>> {
    if rows == 0 || cols == 0 {
        Seq::empty()
    } else {
        Seq::new(rows as nat, |r: int| Seq::new(cols as nat, |c: int| Tile::Ground))
    }
}

/// Every row of the grid is as long as the grid is wide, a grid without rows
/// has no columns either, and the tiles can be counted.
pub open spec fn grid_wf(g: Grid<Tile>) -> bool {
    &&& forall|r: int| 0 <= r < grid_cells(g).len() ==> (#[trigger] grid_cells(g)[r]).len() == grid_width(g)
    &&& (grid_cells(g).len() == 0 <==> grid_width(g) == 0)
    &&& grid_cells(g).len() <= isize::MAX
    &&& grid_width(g) <= isize::MAX
    &&& grid_cells(g).len() * grid_width(g) <= isize::MAX
}

/// `grid::Grid::new`: a grid of `rows` by `cols` default tiles, which are
/// ground; with either side zero the grid has no rows and no columns. The
/// crate panics when `rows * cols` overflows, which `requires` rules out.
#[verifier::external_body]
pub(crate) fn grid_new(rows: usize, cols: usize) -> (g: Grid<Tile>)
    requires
        rows * cols <= isize::MAX,
    ensures
        grid_cells(g) == blank_tiles(rows, cols),
        grid_width(g) == (if rows == 0 || cols == 0 { 0 } else { cols as nat }),
{
    Grid::new(rows, cols)
}

/// `grid::Grid::rows`: the number of rows.
#[verifier::external_body]
pub(crate) fn grid_rows(g: &Grid<Tile>) -> (r: usize)
    ensures
        r == grid_cells(*g).len(),
{
    g.rows()
}

/// `grid::Grid::cols`: the number of columns.
#[verifier::external_body]
pub(crate) fn grid_cols(g: &Grid<Tile>) -> (r: usize)
    ensures
        r == grid_width(*g),
{
    g.cols()
}

/// `grid::Grid::get`: the tile at `(row, col)`, or `None` when the position
/// is beyond the grid.
#[verifier::external_body]
pub(crate) fn grid_get(g: &Grid<Tile>, row: usize, col: usize) -> (r: Option<&Tile>)
    ensures
        r == (if row < grid_cells(*g).len() && col < grid_width(*g) {
            Some(&grid_cells(*g)[row as int][col as int])
        } else {
            None
        }),
{
    g.get(row, col)
}

/// Indexing a `grid::Grid` for writing: the tile at `(row, col)` becomes
/// `tile`, every other tile and the size stay. The crate panics on a position
/// beyond the grid, which `requires` rules out.
#[verifier::external_body]
pub(crate) fn grid_set(g: &mut Grid<Tile>, row: usize, col: usize, tile: Tile)
    requires
        row < grid_cells(*old(g)).len(),
        col < grid_width(*old(g)),
    ensures
        grid_cells(*final(g)) == grid_cells(*old(g)).update(
            row as int,
            grid_cells(*old(g))[row as int].update(col as int, tile),
        ),
        grid_width(*final(g)) == grid_width(*old(g)),
{
    g[row][col] = tile;
}

/// `Clone` of `grid::Grid`: the same tiles in a grid of the same size.
#[verifier::external_body]
pub(crate) fn grid_clone(g: &Grid<Tile>) -> (r: Grid<Tile>)
    ensures
        grid_cells(r) == grid_cells(*g),
        grid_width(r) == grid_width(*g),
{
    g.clone()
}

} // verus!
