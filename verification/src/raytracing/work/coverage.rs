//! Counting how often a cell is handed out.
//!
//! A list of cells covers a rectangle when every cell of the rectangle
//! occurs in it exactly once and no other cell occurs at all.

use vstd::prelude::*;
use vstd::seq_lib::lemma_multiset_commutative;
use vstd::seq_lib::to_multiset_build;
use crate::raytracing::work::line_cells;
use crate::raytracing::work::stripe_cells;
use crate::raytracing::work::shift;

verus! {

/// How often `cell` occurs in `cells`.
pub open spec fn occurrences(cells: Seq<(int, int)>, cell: (int, int)) -> nat {
    cells.to_multiset().count(cell)
}

/// `cell` lies in the rectangle of `width` columns and `height` rows whose
/// first cell is `(x, y)`.
pub open spec fn in_rect(cell: (int, int), x: int, y: int, width: int, height: int) -> bool {
    x <= cell.0 < x + width && y <= cell.1 < y + height
}

/// Every cell of the rectangle occurs in `cells` exactly once, and no other
/// cell occurs in it.
pub open spec fn covers_rect(
    cells: Seq<(int, int)>,
    x: int,
    y: int,
    width: int,
    height: int,
) -> bool {
    forall|cell: (int, int)| #[trigger]
        occurrences(cells, cell) == if in_rect(cell, x, y, width, height) {
            1nat
        } else {
            0nat
        }
}

/// Every cell of the grid of `width` columns and `height` rows occurs in
/// `cells` exactly once, and no other cell occurs in it.
pub open spec fn covers_grid(cells: Seq<(int, int)>, width: int, height: int) -> bool {
    covers_rect(cells, 0, 0, width, height)
}

/// No cell occurs in the empty list.
pub proof fn lemma_occurrences_empty(cell: (int, int))
    ensures
        occurrences(Seq::empty(), cell) == 0,
{
    let cells = Seq::<(int, int)>::empty();
    cells.to_multiset_ensures();
    assert(!cells.contains(cell));
}

/// A cell added at the end occurs once more, any other cell as often as
/// before.
pub proof fn lemma_occurrences_push(cells: Seq<(int, int)>, last: (int, int), cell: (int, int))
    ensures
        occurrences(cells.push(last), cell) == occurrences(cells, cell) + if last == cell {
            1nat
        } else {
            0nat
        },
{
    to_multiset_build(cells, last);
}

/// In a list of one cell that cell occurs once, and no other.
pub proof fn lemma_occurrences_single(only: (int, int), cell: (int, int))
    ensures
        occurrences(seq![only], cell) == if only == cell {
            1nat
        } else {
            0nat
        },
{
    lemma_occurrences_empty(cell);
    lemma_occurrences_push(Seq::empty(), only, cell);
    assert(seq![only] == Seq::<(int, int)>::empty().push(only));
}

/// A cell occurs in two lists, one after the other, as often as in both
/// together.
pub proof fn lemma_occurrences_concat(
    first: Seq<(int, int)>,
    second: Seq<(int, int)>,
    cell: (int, int),
)
    ensures
        occurrences(first + second, cell) == occurrences(first, cell) + occurrences(second, cell),
{
    lemma_multiset_commutative(first, second);
}

/// A cell occurs in the moved list as often as the cell it came from
/// occurs in the list.
pub proof fn lemma_occurrences_shift(
    cells: Seq<(int, int)>,
    dx: int,
    dy: int,
    cell: (int, int),
)
    ensures
        occurrences(shift(cells, dx, dy), cell) == occurrences(
            cells,
            (cell.0 - dx, cell.1 - dy),
        ),
    decreases cells.len(),
{
    if cells.len() == 0 {
        assert(shift(cells, dx, dy) == Seq::<(int, int)>::empty());
        assert(cells == Seq::<(int, int)>::empty());
        lemma_occurrences_empty(cell);
        lemma_occurrences_empty((cell.0 - dx, cell.1 - dy));
    } else {
        let front = cells.drop_last();
        let last = cells.last();
        let moved = (last.0 + dx, last.1 + dy);
        lemma_occurrences_shift(front, dx, dy, cell);
        assert(cells == front.push(last));
        assert(shift(cells, dx, dy) == shift(front, dx, dy).push(moved));
        lemma_occurrences_push(front, last, (cell.0 - dx, cell.1 - dy));
        lemma_occurrences_push(shift(front, dx, dy), moved, cell);
    }
}

/// In a list without repetitions a cell occurs once or not at all.
pub proof fn lemma_occurrences_no_duplicates(cells: Seq<(int, int)>, cell: (int, int))
    requires
        cells.no_duplicates(),
    ensures
        occurrences(cells, cell) == if cells.contains(cell) {
            1nat
        } else {
            0nat
        },
{
    cells.to_multiset_ensures();
    cells.lemma_multiset_has_no_duplicates();
}

/// A row hands out each of its cells once.
pub proof fn lemma_line_occurrences(x: int, y: int, width: nat, reverse: bool, cell: (int, int))
    ensures
        occurrences(line_cells(x, y, width, reverse), cell) == if in_rect(
            cell,
            x,
            y,
            width as int,
            1,
        ) {
            1nat
        } else {
            0nat
        },
{
    let cells = line_cells(x, y, width, reverse);
    lemma_occurrences_no_duplicates(cells, cell);
    if in_rect(cell, x, y, width as int, 1) {
        let i = if reverse {
            x + width - 1 - cell.0
        } else {
            cell.0 - x
        };
        assert(cells[i] == cell);
    }
}

/// A column hands out each of its cells once.
pub proof fn lemma_stripe_occurrences(x: int, y: int, height: nat, reverse: bool, cell: (int, int))
    ensures
        occurrences(stripe_cells(x, y, height, reverse), cell) == if in_rect(
            cell,
            x,
            y,
            1,
            height as int,
        ) {
            1nat
        } else {
            0nat
        },
{
    let cells = stripe_cells(x, y, height, reverse);
    lemma_occurrences_no_duplicates(cells, cell);
    if in_rect(cell, x, y, 1, height as int) {
        let i = if reverse {
            y + height - 1 - cell.1
        } else {
            cell.1 - y
        };
        assert(cells[i] == cell);
    }
}

/// A list that covers a rectangle covers, once moved, the moved rectangle.
pub proof fn lemma_covers_shift(
    cells: Seq<(int, int)>,
    x: int,
    y: int,
    width: int,
    height: int,
    dx: int,
    dy: int,
)
    requires
        covers_rect(cells, x, y, width, height),
    ensures
        covers_rect(shift(cells, dx, dy), x + dx, y + dy, width, height),
{
    assert forall|cell: (int, int)| #[trigger]
        occurrences(shift(cells, dx, dy), cell) == if in_rect(
            cell,
            x + dx,
            y + dy,
            width,
            height,
        ) {
            1nat
        } else {
            0nat
        } by {
        lemma_occurrences_shift(cells, dx, dy, cell);
        assert(occurrences(cells, (cell.0 - dx, cell.1 - dy)) == if in_rect(
            (cell.0 - dx, cell.1 - dy),
            x,
            y,
            width,
            height,
        ) {
            1nat
        } else {
            0nat
        });
    }
}

/// A list that covers a rectangle is a list of the rectangle's cells
/// without repetition: every cell of the rectangle is in it, every cell in
/// it is one of the rectangle, and none stands in it twice.
pub proof fn lemma_covers_is_bijection(
    cells: Seq<(int, int)>,
    x: int,
    y: int,
    width: int,
    height: int,
)
    requires
        covers_rect(cells, x, y, width, height),
    ensures
        cells.no_duplicates(),
        forall|cell: (int, int)| cells.contains(cell) <==> in_rect(cell, x, y, width, height),
{
    cells.to_multiset_ensures();
    assert forall|cell: (int, int)| cells.to_multiset().contains(cell) implies cells.to_multiset().count(
        cell,
    ) == 1 by {
        assert(occurrences(cells, cell) > 0);
    }
    cells.lemma_multiset_has_no_duplicates_conv();
    assert forall|cell: (int, int)| cells.contains(cell) <==> in_rect(
        cell,
        x,
        y,
        width,
        height,
    ) by {
        assert(occurrences(cells, cell) == if in_rect(cell, x, y, width, height) {
            1nat
        } else {
            0nat
        });
    }
}

/// The cells of the grid of `width` columns and `height` rows, row by row.
pub open spec fn grid_cells(width: int, height: int) -> Seq<(int, int)> {
    Seq::new((width * height) as nat, |i: int| (i % width, i / width))
}

/// The cells of a grid, row by row, cover the grid.
pub proof fn lemma_grid_cells_cover(width: int, height: int)
    requires
        0 <= width,
        0 <= height,
    ensures
        grid_cells(width, height).len() == width * height,
        covers_grid(grid_cells(width, height), width, height),
{
    let grid = grid_cells(width, height);
    assert(0 <= width * height) by (nonlinear_arith)
        requires
            0 <= width,
            0 <= height,
    ;
    assert forall|i: int, j: int| 0 <= i < grid.len() && 0 <= j < grid.len() && i != j implies grid[i]
        != grid[j] by {
        assert(width > 0) by (nonlinear_arith)
            requires
                0 < width * height,
                0 <= width,
        ;
        vstd::arithmetic::div_mod::lemma_fundamental_div_mod(i, width);
        vstd::arithmetic::div_mod::lemma_fundamental_div_mod(j, width);
    }
    assert forall|cell: (int, int)| #[trigger]
        occurrences(grid, cell) == if in_rect(cell, 0, 0, width, height) {
            1nat
        } else {
            0nat
        } by {
        lemma_occurrences_no_duplicates(grid, cell);
        if in_rect(cell, 0, 0, width, height) {
            let i = cell.1 * width + cell.0;
            assert(0 <= i < width * height) by (nonlinear_arith)
                requires
                    i == cell.1 * width + cell.0,
                    0 <= cell.0 < width,
                    0 <= cell.1 < height,
            ;
            vstd::arithmetic::div_mod::lemma_fundamental_div_mod_converse(
                i,
                width,
                cell.1,
                cell.0,
            );
            assert(grid[i] == cell);
        }
        if grid.contains(cell) {
            let i = choose|i: int| 0 <= i < grid.len() && grid[i] == cell;
            assert(width > 0) by (nonlinear_arith)
                requires
                    0 < width * height,
                    0 <= width,
            ;
            vstd::arithmetic::div_mod::lemma_fundamental_div_mod(i, width);
            vstd::arithmetic::div_mod::lemma_mod_pos_bound(i, width);
            vstd::arithmetic::div_mod::lemma_div_pos_is_pos(i, width);
            assert(i / width < height) by (nonlinear_arith)
                requires
                    i == width * (i / width) + i % width,
                    0 <= i % width,
                    i < width * height,
                    0 < width,
            ;
        }
    }
}

/// A list that covers a grid holds as many cells as the grid has.
pub proof fn lemma_covers_len(cells: Seq<(int, int)>, width: int, height: int)
    requires
        0 <= width,
        0 <= height,
        covers_grid(cells, width, height),
    ensures
        cells.len() == width * height,
{
    let grid = grid_cells(width, height);
    lemma_grid_cells_cover(width, height);
    assert forall|cell: (int, int)|
        cells.to_multiset().count(cell) == grid.to_multiset().count(cell) by {
        assert(occurrences(cells, cell) == occurrences(grid, cell));
    }
    assert(cells.to_multiset() =~= grid.to_multiset());
    cells.to_multiset_ensures();
    grid.to_multiset_ensures();
}

} // verus!
