//! Cutting a grid into work units.
//!
//! A [`GenerationMode`] says into which units a grid of `width * height`
//! cells is cut and in which order the units are handed out. Whatever the
//! mode, the units together hand out every cell of the grid exactly once.

use rand::seq::SliceRandom;
use vstd::prelude::*;
use vstd::seq_lib::to_multiset_build;
use crate::gui::is_tile_settings;
use crate::gui::GUIModeSettings;
use crate::gui::GUIModeTree;
use crate::raytracing::work::all_cells;
use crate::raytracing::work::all_pixels;
use crate::raytracing::work::all_within;
use crate::raytracing::work::coverage::covers_grid;
use crate::raytracing::work::coverage::in_rect;
use crate::raytracing::work::coverage::lemma_covers_is_bijection;
use crate::raytracing::work::coverage::lemma_covers_len;
use crate::raytracing::work::coverage::lemma_covers_shift;
use crate::raytracing::work::coverage::lemma_line_occurrences;
use crate::raytracing::work::coverage::lemma_occurrences_concat;
use crate::raytracing::work::coverage::lemma_occurrences_empty;
use crate::raytracing::work::coverage::lemma_occurrences_single;
use crate::raytracing::work::coverage::lemma_stripe_occurrences;
use crate::raytracing::work::coverage::occurrences;
use crate::raytracing::work::lemma_all_cells_concat;
use crate::raytracing::work::lemma_all_cells_push;
use crate::raytracing::work::lemma_pixels_cells_len;
use crate::raytracing::work::line_cells;
use crate::raytracing::work::stripe_cells;
use crate::raytracing::work::shift;
use crate::raytracing::work::RaytracingWork;
use crate::workers::Work;
use crate::workers::WorkContext;
use crate::workers::WorkResult;
use crate::workers::Workers;
use crate::workers::WorkersStatus;

verus! {

/// The order of the tiles along one axis.
#[derive(Debug, Copy, Clone, PartialEq, Eq, Structural)]
pub enum TileAxisOrder {
    Forward,
    Reverse,
    Random,
}

/// The order of the tiles of a grid: row by row or column by column, each
/// with an order along either axis, or shuffled as a whole.
#[derive(Debug, Copy, Clone, PartialEq, Eq, Structural)]
pub enum TileDimensionOrder {
    LineFirst { horizontal_order: TileAxisOrder, vertical_order: TileAxisOrder },
    StripeFirst { horizontal_order: TileAxisOrder, vertical_order: TileAxisOrder },
    Random,
}

/// Into which units a grid is cut: its cells shuffled, rows, columns, or
/// tiles whose inside is cut by a mode of its own. A transparent mode hands
/// out the cells of its rows, columns or tiles one by one in their place.
#[derive(Debug)]
pub enum GenerationMode {
    PixelRandom,
    Line { reverse_order_horizontal: bool, random_order_vertical: bool, transparent: bool },
    Stripe { random_order_horizontal: bool, reverse_order_vertical: bool, transparent: bool },
    Tile {
        tile_width: u32,
        tile_height: u32,
        transparent: bool,
        dimension_order: TileDimensionOrder,
        sub_generation_mode: Box<GenerationMode>,
    },
}

/// The numbers from `start` up to, not including, `end`, in rising order.
pub open spec fn range_values(start: int, end: int) -> Seq<u32> {
    Seq::new(
        if start <= end {
            (end - start) as nat
        } else {
            0nat
        },
        |i: int| (start + i) as u32,
    )
}

/// Into how many tiles of `tile_size` cells an axis of `dimension` cells is
/// cut: the last tile may be shorter.
pub open spec fn tile_count_of(dimension: int, tile_size: int) -> int {
    dimension / tile_size + if dimension % tile_size != 0 {
        1int
    } else {
        0int
    }
}

/// How many cells the tile with the given index holds along an axis of
/// `dimension` cells cut into tiles of `tile_size` cells: the last tile
/// holds what is left.
pub open spec fn tile_extent_of(dimension: int, tile_size: int, index: int) -> int {
    if index == tile_count_of(dimension, tile_size) - 1 && dimension % tile_size != 0 {
        dimension % tile_size
    } else {
        tile_size
    }
}

#[verifier::external_type_specification]
#[verifier::external_body]
pub struct ExThreadRng(rand::rngs::ThreadRng);

/// `rand::thread_rng` hands out the random number generator of the thread.
pub assume_specification[ rand::thread_rng ]() -> (rng: rand::rngs::ThreadRng);

/// Shuffles `values` in place with `SliceRandom::shuffle` of `rand`, driven
/// by `rng`. The shuffle only swaps elements of the slice: afterwards the
/// vector holds the elements it held before, each as often as before. In
/// which order is not known.
#[verifier::external_body]
fn shuffle<T>(values: &mut Vec<T>, rng: &mut rand::rngs::ThreadRng)
    ensures
        final(values)@.to_multiset() == old(values)@.to_multiset(),
{
    values.shuffle(rng);
}

/// Each number of a range occurs once among its values.
proof fn lemma_range_count(start: int, end: int, value: u32)
    requires
        0 <= start,
        end <= u32::MAX + 1,
    ensures
        range_values(start, end).to_multiset().count(value) == if start <= value < end {
            1nat
        } else {
            0nat
        },
{
    let values = range_values(start, end);
    values.to_multiset_ensures();
    values.lemma_multiset_has_no_duplicates();
    if start <= value < end {
        assert(values[value - start] == value);
    }
}

/// Nothing occurs in a list that is empty.
proof fn lemma_empty_count<T>(value: T)
    ensures
        Seq::<T>::empty().to_multiset().count(value) == 0,
{
    let values = Seq::<T>::empty();
    values.to_multiset_ensures();
    assert(!values.contains(value));
}

/// What occurs in a list at all is one of its elements.
proof fn lemma_count_of_element<T>(values: Seq<T>, i: int)
    requires
        0 <= i < values.len(),
    ensures
        values.to_multiset().count(values[i]) > 0,
{
    values.to_multiset_ensures();
    assert(values.contains(values[i]));
}

/// Taking one element more of a list adds one occurrence of that element.
proof fn lemma_take_count<T>(values: Seq<T>, taken: int, value: T)
    requires
        0 <= taken < values.len(),
    ensures
        values.take(taken + 1).to_multiset().count(value) == values.take(
            taken,
        ).to_multiset().count(value) + if values[taken] == value {
            1nat
        } else {
            0nat
        },
{
    assert(values.take(taken + 1) == values.take(taken).push(values[taken]));
    to_multiset_build(values.take(taken), values[taken]);
}

/// What dividing with a remainder gives.
proof fn lemma_div_mod(x: int, d: int)
    requires
        0 <= x,
        0 < d,
    ensures
        x == d * (x / d) + x % d,
        0 <= x % d < d,
        0 <= x / d,
{
    vstd::arithmetic::div_mod::lemma_fundamental_div_mod(x, d);
    vstd::arithmetic::div_mod::lemma_mod_pos_bound(x, d);
    vstd::arithmetic::div_mod::lemma_div_pos_is_pos(x, d);
}

/// An index into a list of `rows` rows of `columns` entries each splits
/// into the row and the place in the row.
proof fn lemma_index_parts(k: int, columns: int, rows: int)
    requires
        0 <= k < rows * columns,
        0 <= columns,
        0 <= rows,
    ensures
        0 < columns,
        0 <= k / columns < rows,
        0 <= k % columns < columns,
{
    assert(0 < columns) by (nonlinear_arith)
        requires
            0 < rows * columns,
            0 <= columns,
            0 <= rows,
    ;
    lemma_div_mod(k, columns);
    assert(k / columns < rows) by (nonlinear_arith)
        requires
            k == columns * (k / columns) + k % columns,
            0 <= k % columns,
            k < rows * columns,
            0 < columns,
    ;
}

/// A coordinate of an axis lies in one of its tiles.
proof fn lemma_tile_index(dimension: int, tile_size: int, a: int)
    requires
        0 < tile_size,
        0 <= a < dimension,
    ensures
        0 <= a / tile_size < tile_count_of(dimension, tile_size),
{
    lemma_div_mod(a, tile_size);
    lemma_div_mod(dimension, tile_size);
    let q = dimension / tile_size;
    let r = dimension % tile_size;
    let i = a / tile_size;
    assert(i <= q) by (nonlinear_arith)
        requires
            a == tile_size * i + a % tile_size,
            dimension == tile_size * q + r,
            0 <= a % tile_size,
            r < tile_size,
            a < dimension,
            0 < tile_size,
    ;
    if i == q {
        assert(r > 0);
    }
}

/// Where the tile with the given index lies on its axis: it is not empty,
/// it ends inside the axis, and a coordinate lies in it exactly if it lies
/// on the axis and dividing it by the tile size gives the index.
proof fn lemma_tile_span(dimension: int, tile_size: int, index: int, a: int)
    requires
        0 <= dimension,
        0 < tile_size,
        0 <= index < tile_count_of(dimension, tile_size),
    ensures
        0 <= index * tile_size,
        0 < tile_extent_of(dimension, tile_size, index) <= tile_size,
        index * tile_size + tile_extent_of(dimension, tile_size, index) <= dimension,
        (index * tile_size <= a < index * tile_size + tile_extent_of(dimension, tile_size, index))
            <==> (0 <= a < dimension && a / tile_size == index),
{
    lemma_div_mod(dimension, tile_size);
    let q = dimension / tile_size;
    let r = dimension % tile_size;
    let extent = tile_extent_of(dimension, tile_size, index);
    let start = index * tile_size;
    assert(0 <= start) by (nonlinear_arith)
        requires
            start == index * tile_size,
            0 <= index,
            0 < tile_size,
    ;
    if index < q {
        assert(extent == tile_size);
        assert(start + tile_size <= tile_size * q) by (nonlinear_arith)
            requires
                start == index * tile_size,
                index + 1 <= q,
                0 < tile_size,
        ;
    } else {
        assert(index == q && r != 0);
        assert(extent == r);
        assert(start == tile_size * q) by (nonlinear_arith)
            requires
                start == index * tile_size,
                index == q,
        ;
    }
    if start <= a < start + extent {
        vstd::arithmetic::div_mod::lemma_fundamental_div_mod_converse(
            a,
            tile_size,
            index,
            a - start,
        );
    }
    if 0 <= a < dimension && a / tile_size == index {
        lemma_div_mod(a, tile_size);
        assert(tile_size * index == start) by (nonlinear_arith)
            requires
                start == index * tile_size,
        ;
    }
}

/// Into how many tiles of `tile_size` cells an axis of `dimension` cells is
/// cut.
pub fn tile_count(dimension: u32, tile_size: u32) -> (count: u32)
    requires
        tile_size > 0,
    ensures
        count == tile_count_of(dimension as int, tile_size as int),
{
    let count: u32 = dimension / tile_size;
    if dimension % tile_size != 0 {
        proof {
            lemma_div_mod(dimension as int, tile_size as int);
            assert(count < dimension) by (nonlinear_arith)
                requires
                    dimension == tile_size * count + dimension % tile_size,
                    dimension % tile_size > 0,
                    tile_size >= 1,
                    count >= 0,
            ;
        }
        count + 1
    } else {
        count
    }
}

/// How many cells the tile with the given index holds along an axis.
pub fn tile_extent(dimension: u32, tile_size: u32, index: u32) -> (extent: u32)
    requires
        tile_size > 0,
    ensures
        extent == tile_extent_of(dimension as int, tile_size as int, index as int),
{
    let count: u32 = tile_count(dimension, tile_size);
    let left: u32 = dimension % tile_size;
    if left != 0 && index == count - 1 {
        left
    } else {
        tile_size
    }
}

impl Clone for GenerationMode {
    fn clone(&self) -> (copy: Self)
        ensures
            copy == *self,
    {
        self.duplicate()
    }
}

/// The order along an axis that an index chooses: the second choice is the
/// reverse order, the third a shuffled one, any other the rising order.
pub open spec fn axis_order_of(index: int) -> TileAxisOrder {
    if index == 1 {
        TileAxisOrder::Reverse
    } else if index == 2 {
        TileAxisOrder::Random
    } else {
        TileAxisOrder::Forward
    }
}

/// The order of the tiles that three indices choose: the first two the
/// orders along the axes, the third whether the tiles go row by row (the
/// first choice), column by column (the second) or shuffled (any other).
pub open spec fn dimension_order_of(
    horizontal_order: int,
    vertical_order: int,
    dimension_order: int,
) -> TileDimensionOrder {
    if dimension_order == 0 {
        TileDimensionOrder::LineFirst {
            horizontal_order: axis_order_of(horizontal_order),
            vertical_order: axis_order_of(vertical_order),
        }
    } else if dimension_order == 1 {
        TileDimensionOrder::StripeFirst {
            horizontal_order: axis_order_of(horizontal_order),
            vertical_order: axis_order_of(vertical_order),
        }
    } else {
        TileDimensionOrder::Random
    }
}

/// The generation mode that a tree of settings stands for. A mode named
/// after pixels is the transparent form of the mode without them. A mode of
/// tiles takes the mode of the tree below it for the inside of its tiles.
pub open spec fn mode_of_tree(tree: GUIModeTree) -> GenerationMode
    decreases tree,
{
    match tree.settings {
        GUIModeSettings::PixelRandom => GenerationMode::PixelRandom,
        GUIModeSettings::Line { reverse_order_horizontal, random_order_vertical } => {
            GenerationMode::Line {
                reverse_order_horizontal,
                random_order_vertical,
                transparent: false,
            }
        },
        GUIModeSettings::PixelLine { reverse_order_horizontal, random_order_vertical } => {
            GenerationMode::Line {
                reverse_order_horizontal,
                random_order_vertical,
                transparent: true,
            }
        },
        GUIModeSettings::Stripe { random_order_horizontal, reverse_order_vertical } => {
            GenerationMode::Stripe {
                random_order_horizontal,
                reverse_order_vertical,
                transparent: false,
            }
        },
        GUIModeSettings::PixelStripe { random_order_horizontal, reverse_order_vertical } => {
            GenerationMode::Stripe {
                random_order_horizontal,
                reverse_order_vertical,
                transparent: true,
            }
        },
        GUIModeSettings::LineFirstTile {
            tile_width,
            tile_height,
            horizontal_order,
            vertical_order,
        } => tile_mode_of_tree(
            tree,
            tile_width,
            tile_height,
            dimension_order_of(horizontal_order as int, vertical_order as int, 0),
            false,
        ),
        GUIModeSettings::StripeFirstTile {
            tile_width,
            tile_height,
            horizontal_order,
            vertical_order,
        } => tile_mode_of_tree(
            tree,
            tile_width,
            tile_height,
            dimension_order_of(horizontal_order as int, vertical_order as int, 1),
            false,
        ),
        GUIModeSettings::LineFirstPixelTile {
            tile_width,
            tile_height,
            horizontal_order,
            vertical_order,
        } => tile_mode_of_tree(
            tree,
            tile_width,
            tile_height,
            dimension_order_of(horizontal_order as int, vertical_order as int, 0),
            true,
        ),
        GUIModeSettings::StripeFirstPixelTile {
            tile_width,
            tile_height,
            horizontal_order,
            vertical_order,
        } => tile_mode_of_tree(
            tree,
            tile_width,
            tile_height,
            dimension_order_of(horizontal_order as int, vertical_order as int, 1),
            true,
        ),
    }
}

/// The mode of tiles that a tree stands for, with the mode of the tree
/// below it for the inside of the tiles.
pub open spec fn tile_mode_of_tree(
    tree: GUIModeTree,
    tile_width: u32,
    tile_height: u32,
    dimension_order: TileDimensionOrder,
    transparent: bool,
) -> GenerationMode
    decreases tree.sub_tree,
{
    GenerationMode::Tile {
        tile_width,
        tile_height,
        transparent,
        dimension_order,
        sub_generation_mode: Box::new(
            match tree.sub_tree {
                Some(sub_tree) => mode_of_tree(*sub_tree),
                None => GenerationMode::PixelRandom,
            },
        ),
    }
}

/// The value at place `i` of the values below `count` in the given order:
/// counted down from the last in the reverse order, else counted up.
pub open spec fn axis_at(order: TileAxisOrder, count: int, i: int) -> int {
    if order == TileAxisOrder::Reverse {
        count - 1 - i
    } else {
        i
    }
}

/// The part of a place of a tile that belongs to the outer axis: the row
/// where the tiles go row by row, else the column.
pub open spec fn outer_of(line_first: bool, place: (u32, u32)) -> int {
    if line_first {
        place.1 as int
    } else {
        place.0 as int
    }
}

/// The part of a place of a tile that belongs to the inner axis: the column
/// where the tiles go row by row, else the row.
pub open spec fn inner_of(line_first: bool, place: (u32, u32)) -> int {
    if line_first {
        place.0 as int
    } else {
        place.1 as int
    }
}

/// The places of tiles as columns and rows.
pub open spec fn places_of(coordinates: Seq<(u32, u32)>) -> Seq<(int, int)> {
    Seq::new(coordinates.len(), |k: int| (coordinates[k].0 as int, coordinates[k].1 as int))
}

/// The column and row of tiles at which each tile unit of `work` stands.
pub open spec fn tile_places(
    work: Seq<RaytracingWork>,
    tile_width: int,
    tile_height: int,
) -> Seq<(int, int)> {
    Seq::new(
        work.len(),
        |k: int| (work[k].anchor().0 / tile_width, work[k].anchor().1 / tile_height),
    )
}

/// The tiles at `places`, as columns and rows of tiles in the order in
/// which the tiles are handed out, keep the order asked for.
///
/// Where the tiles go row by row, the tiles of one row of tiles come
/// together; the columns inside each row follow the horizontal order and
/// the rows follow the vertical order, each unless it is shuffled. Where
/// the tiles go column by column the same holds with columns and rows
/// changed. Tiles shuffled as a whole keep no order.
pub open spec fn keeps_order(
    order: TileDimensionOrder,
    horizontal_count: int,
    vertical_count: int,
    places: Seq<(int, int)>,
) -> bool {
    match order {
        TileDimensionOrder::LineFirst { horizontal_order, vertical_order } => {
            &&& horizontal_order != TileAxisOrder::Random ==> forall|k: int|
                0 <= k < places.len() ==> (#[trigger] places[k]).0 == axis_at(
                    horizontal_order,
                    horizontal_count,
                    k % horizontal_count,
                )
            &&& vertical_order != TileAxisOrder::Random ==> forall|k: int|
                0 <= k < places.len() ==> (#[trigger] places[k]).1 == axis_at(
                    vertical_order,
                    vertical_count,
                    k / horizontal_count,
                )
            &&& forall|j: int, k: int|
                0 <= j < places.len() && 0 <= k < places.len() && j / horizontal_count == k
                    / horizontal_count ==> (#[trigger] places[j]).1 == (#[trigger] places[k]).1
        },
        TileDimensionOrder::StripeFirst { horizontal_order, vertical_order } => {
            &&& horizontal_order != TileAxisOrder::Random ==> forall|k: int|
                0 <= k < places.len() ==> (#[trigger] places[k]).0 == axis_at(
                    horizontal_order,
                    horizontal_count,
                    k / vertical_count,
                )
            &&& vertical_order != TileAxisOrder::Random ==> forall|k: int|
                0 <= k < places.len() ==> (#[trigger] places[k]).1 == axis_at(
                    vertical_order,
                    vertical_count,
                    k % vertical_count,
                )
            &&& forall|j: int, k: int|
                0 <= j < places.len() && 0 <= k < places.len() && j / vertical_count == k
                    / vertical_count ==> (#[trigger] places[j]).0 == (#[trigger] places[k]).0
        },
        TileDimensionOrder::Random => true,
    }
}

/// The two lists hold one entry for each tile: they are of one length.
pub open spec fn one_for_each_tile(
    places: Seq<(int, int)>,
    insides: Seq<Seq<RaytracingWork>>,
) -> bool {
    places.len() == insides.len()
}

/// For each tile the cells of the units it is cut into, moved to the place
/// of the tile.
pub open spec fn tile_cells(
    places: Seq<(int, int)>,
    insides: Seq<Seq<RaytracingWork>>,
    tile_width: int,
    tile_height: int,
) -> Seq<Seq<(int, int)>> {
    Seq::new(
        places.len(),
        |k: int| shift(all_cells(insides[k]), places[k].0 * tile_width, places[k].1 * tile_height),
    )
}

/// `order` holds each number below `count` once.
pub open spec fn is_order(order: Seq<u32>, count: int) -> bool {
    order.to_multiset() == range_values(0, count).to_multiset()
}

/// The cells of the rows of `order`, each row of `width` cells in its
/// direction, row after row.
pub open spec fn rows_cells(order: Seq<u32>, width: nat, reverse: bool) -> Seq<(int, int)> {
    Seq::new(order.len(), |i: int| line_cells(0, order[i] as int, width, reverse)).flatten()
}

/// The cells of the columns of `order`, each column of `height` cells in
/// its direction, column after column.
pub open spec fn columns_cells(order: Seq<u32>, height: nat, reverse: bool) -> Seq<(int, int)> {
    Seq::new(order.len(), |i: int| stripe_cells(order[i] as int, 0, height, reverse)).flatten()
}

/// The unit is an untouched row of the grid.
pub open spec fn is_row(unit: RaytracingWork, width: int, height: int, reverse: bool) -> bool {
    unit is Line && exists|y: int|
        0 <= y < height && #[trigger] line_cells(0, y, width as nat, reverse) == unit.remaining()
}

/// The unit is an untouched column of the grid.
pub open spec fn is_column(unit: RaytracingWork, width: int, height: int, reverse: bool) -> bool {
    unit is Stripe && exists|x: int|
        0 <= x < width && #[trigger] stripe_cells(x, 0, height as nat, reverse) == unit.remaining()
}

impl GenerationMode {
    /// No tile of the mode, at any depth, has a side of zero cells.
    pub open spec fn wf(self) -> bool
        decreases self,
    {
        match self {
            GenerationMode::Tile { tile_width, tile_height, sub_generation_mode, .. } => {
                tile_width > 0 && tile_height > 0 && sub_generation_mode.wf()
            },
            _ => true,
        }
    }

    /// The mode hands out single cells only: it shuffles the cells, or it
    /// is transparent.
    pub open spec fn flat(self) -> bool
        decreases self,
    {
        match self {
            GenerationMode::PixelRandom => true,
            GenerationMode::Line { transparent, .. } => transparent,
            GenerationMode::Stripe { transparent, .. } => transparent,
            GenerationMode::Tile { transparent, .. } => transparent,
        }
    }

    /// Into how many units the mode cuts a grid of `width` columns and
    /// `height` rows: one for each cell where the mode is flat, else one
    /// for each row, column or tile.
    pub open spec fn unit_count(self, width: int, height: int) -> int {
        match self {
            GenerationMode::PixelRandom => width * height,
            GenerationMode::Line { transparent, .. } => if transparent {
                width * height
            } else {
                height
            },
            GenerationMode::Stripe { transparent, .. } => if transparent {
                width * height
            } else {
                width
            },
            GenerationMode::Tile { tile_width, tile_height, transparent, .. } => if transparent {
                width * height
            } else {
                tile_count_of(width, tile_width as int) * tile_count_of(
                    height,
                    tile_height as int,
                )
            },
        }
    }

    /// What holds of the units that the mode cuts a grid of `width` columns
    /// and `height` rows into.
    ///
    /// Whatever the mode, the units hand out every cell of the grid exactly
    /// once, each unit lies in the grid, and a mode that is flat gives
    /// single cells only. Rows and columns come whole, one after the
    /// other, each in its direction: in their order where they are not
    /// shuffled, and as one untouched unit each where they are not
    /// transparent. Tiles that are not transparent come as one untouched
    /// unit for each tile of the grid, which holds what the mode for the
    /// inside of the tiles cuts the tile into. Tiles that are transparent
    /// come as single cells: tile after tile, the cells of what the mode
    /// for the inside cuts the tile into. Either way the tiles keep the
    /// order asked for along each axis that is not shuffled.
    pub open spec fn cuts(self, width: int, height: int, work: Seq<RaytracingWork>) -> bool
        decreases self, 0nat,
    {
        &&& covers_grid(all_cells(work), width, height)
        &&& all_within(work, width, height)
        &&& self.flat() ==> all_pixels(work)
        &&& match self {
            GenerationMode::PixelRandom => true,
            GenerationMode::Line { reverse_order_horizontal, random_order_vertical, transparent } => {
                &&& !transparent ==> work.len() == height && forall|i: int|
                    0 <= i < work.len() ==> is_row(
                        #[trigger] work[i],
                        width,
                        height,
                        reverse_order_horizontal,
                    )
                &&& !random_order_vertical ==> all_cells(work) == Seq::new(
                    height as nat,
                    |y: int| line_cells(0, y, width as nat, reverse_order_horizontal),
                ).flatten()
                &&& exists|order: Seq<u32>| #[trigger]
                    is_order(order, height) && all_cells(work) == rows_cells(
                        order,
                        width as nat,
                        reverse_order_horizontal,
                    )
            },
            GenerationMode::Stripe {
                random_order_horizontal,
                reverse_order_vertical,
                transparent,
            } => {
                &&& !transparent ==> work.len() == width && forall|i: int|
                    0 <= i < work.len() ==> is_column(
                        #[trigger] work[i],
                        width,
                        height,
                        reverse_order_vertical,
                    )
                &&& !random_order_horizontal ==> all_cells(work) == Seq::new(
                    width as nat,
                    |x: int| stripe_cells(x, 0, height as nat, reverse_order_vertical),
                ).flatten()
                &&& exists|order: Seq<u32>| #[trigger]
                    is_order(order, width) && all_cells(work) == columns_cells(
                        order,
                        height as nat,
                        reverse_order_vertical,
                    )
            },
            GenerationMode::Tile {
                tile_width,
                tile_height,
                transparent,
                dimension_order,
                sub_generation_mode,
            } => if transparent {
                exists|places: Seq<(int, int)>, insides: Seq<Seq<RaytracingWork>>| #[trigger]
                    one_for_each_tile(places, insides) && sub_generation_mode.flattens(
                        all_cells(work),
                        width,
                        height,
                        tile_width as int,
                        tile_height as int,
                        dimension_order,
                        places,
                        insides,
                    )
            } else {
                &&& work.len() == tile_count_of(width, tile_width as int) * tile_count_of(
                    height,
                    tile_height as int,
                )
                &&& forall|k: int|
                    0 <= k < work.len() ==> sub_generation_mode.cuts_tile(
                        #[trigger] work[k],
                        width,
                        height,
                        tile_width as int,
                        tile_height as int,
                    )
                &&& keeps_order(
                    dimension_order,
                    tile_count_of(width, tile_width as int),
                    tile_count_of(height, tile_height as int),
                    tile_places(work, tile_width as int, tile_height as int),
                )
            },
        }
    }

    /// `cells` are the cells of the tiles of the grid, tile after tile in
    /// the order in which the tiles are handed out, and inside each tile
    /// in the order of the units that this mode cuts the tile into.
    /// `places` holds the column and row of each tile, `insides` what the
    /// tile is cut into.
    pub open spec fn flattens(
        self,
        cells: Seq<(int, int)>,
        width: int,
        height: int,
        tile_width: int,
        tile_height: int,
        dimension_order: TileDimensionOrder,
        places: Seq<(int, int)>,
        insides: Seq<Seq<RaytracingWork>>,
    ) -> bool
        decreases self, 1nat,
    {
        &&& places.len() == tile_count_of(width, tile_width) * tile_count_of(height, tile_height)
        &&& insides.len() == places.len()
        &&& cells == tile_cells(places, insides, tile_width, tile_height).flatten()
        &&& forall|k: int|
            0 <= k < places.len() ==> {
                &&& 0 <= places[k].0 < tile_count_of(width, tile_width)
                &&& 0 <= places[k].1 < tile_count_of(height, tile_height)
                &&& self.cuts(
                    tile_extent_of(width, tile_width, places[k].0),
                    tile_extent_of(height, tile_height, places[k].1),
                    #[trigger] insides[k],
                )
            }
        &&& keeps_order(
            dimension_order,
            tile_count_of(width, tile_width),
            tile_count_of(height, tile_height),
            places,
        )
    }

    /// `unit` is an untouched tile of the grid of `width` columns and
    /// `height` rows cut into tiles of `tile_width` by `tile_height`
    /// cells: it is placed at the first cell of one of the tiles, and it
    /// holds what this mode cuts that tile into.
    pub open spec fn cuts_tile(
        self,
        unit: RaytracingWork,
        width: int,
        height: int,
        tile_width: int,
        tile_height: int,
    ) -> bool
        decreases self, 1nat,
    {
        let column = unit.anchor().0 / tile_width;
        let row = unit.anchor().1 / tile_height;
        &&& unit is Tile
        &&& unit.anchor() == (column * tile_width, row * tile_height)
        &&& 0 <= column < tile_count_of(width, tile_width)
        &&& 0 <= row < tile_count_of(height, tile_height)
        &&& unit.remaining() == shift(
            all_cells(unit.children()),
            unit.anchor().0,
            unit.anchor().1,
        )
        &&& self.cuts(
            tile_extent_of(width, tile_width, column),
            tile_extent_of(height, tile_height, row),
            unit.children(),
        )
    }

    /// Whether no tile of the mode, at any depth, has a side of zero cells.
    pub fn is_well_formed(&self) -> (well_formed: bool)
        ensures
            well_formed == self.wf(),
        decreases self,
    {
        match self {
            GenerationMode::Tile { tile_width, tile_height, sub_generation_mode, .. } => {
                *tile_width > 0 && *tile_height > 0 && sub_generation_mode.is_well_formed()
            },
            _ => true,
        }
    }

    /// Every cell of the grid as a unit of its own, shuffled.
    fn pixels(width: u32, height: u32) -> (work: Vec<RaytracingWork>)
        ensures
            covers_grid(all_cells(work@), width as int, height as int),
            all_within(work@, width as int, height as int),
            all_pixels(work@),
    {
        let mut coords: Vec<(u32, u32)> = Vec::new();
        let mut y: u32 = 0;
        proof {
            assert forall|c: (u32, u32)| #[trigger] coords@.to_multiset().count(c) == 0 by {
                lemma_empty_count(c);
            }
        }
        while y < height
            invariant
                y <= height,
                forall|c: (u32, u32)| #[trigger]
                    coords@.to_multiset().count(c) == if c.0 < width && c.1 < y {
                        1nat
                    } else {
                        0nat
                    },
            decreases height - y,
        {
            let mut x: u32 = 0;
            while x < width
                invariant
                    x <= width,
                    y < height,
                    forall|c: (u32, u32)| #[trigger]
                        coords@.to_multiset().count(c) == if c.0 < width && (c.1 < y || (c.1 == y
                            && c.0 < x)) {
                            1nat
                        } else {
                            0nat
                        },
                decreases width - x,
            {
                proof {
                    to_multiset_build(coords@, (x, y));
                }
                coords.push((x, y));
                x = x + 1;
            }
            y = y + 1;
        }
        let mut rand = rand::thread_rng();
        shuffle(&mut coords, &mut rand);
        let mut work: Vec<RaytracingWork> = Vec::new();
        let mut k: usize = 0;
        proof {
            assert(coords@.take(0) == Seq::<(u32, u32)>::empty());
            assert forall|cell: (int, int)| #[trigger]
                occurrences(all_cells(work@), cell) == 0 && coords@.take(0).to_multiset().count(
                    (cell.0 as u32, cell.1 as u32),
                ) == 0 by {
                lemma_occurrences_empty(cell);
                lemma_empty_count((cell.0 as u32, cell.1 as u32));
            }
        }
        while k < coords.len()
            invariant
                k <= coords@.len(),
                forall|c: (u32, u32)| #[trigger]
                    coords@.to_multiset().count(c) == if c.0 < width && c.1 < height {
                        1nat
                    } else {
                        0nat
                    },
                forall|cell: (int, int)| #[trigger]
                    occurrences(all_cells(work@), cell) == if 0 <= cell.0 <= u32::MAX && 0
                        <= cell.1 <= u32::MAX {
                        coords@.take(k as int).to_multiset().count((cell.0 as u32, cell.1 as u32))
                    } else {
                        0nat
                    },
                all_within(work@, width as int, height as int),
                all_pixels(work@),
            decreases coords@.len() - k,
        {
            let ghost units = work@;
            let (new_x, new_y) = coords[k];
            proof {
                lemma_count_of_element(coords@, k as int);
            }
            let new_work = RaytracingWork::pixel(new_x, new_y);
            work.push(new_work);
            proof {
                lemma_all_cells_push(units, new_work);
                assert forall|cell: (int, int)| #[trigger]
                    occurrences(all_cells(work@), cell) == if 0 <= cell.0 <= u32::MAX && 0
                        <= cell.1 <= u32::MAX {
                        coords@.take(k + 1).to_multiset().count((cell.0 as u32, cell.1 as u32))
                    } else {
                        0nat
                    } by {
                    lemma_occurrences_concat(all_cells(units), new_work.remaining(), cell);
                    lemma_occurrences_single((new_x as int, new_y as int), cell);
                    lemma_take_count(coords@, k as int, (cell.0 as u32, cell.1 as u32));
                    assert(occurrences(all_cells(units), cell) == if 0 <= cell.0 <= u32::MAX && 0
                        <= cell.1 <= u32::MAX {
                        coords@.take(k as int).to_multiset().count((cell.0 as u32, cell.1 as u32))
                    } else {
                        0nat
                    });
                }
            }
            k = k + 1;
        }
        proof {
            assert(coords@.take(k as int) == coords@);
            assert forall|cell: (int, int)| #[trigger]
                occurrences(all_cells(work@), cell) == if in_rect(
                    cell,
                    0,
                    0,
                    width as int,
                    height as int,
                ) {
                    1nat
                } else {
                    0nat
                } by {
                if 0 <= cell.0 <= u32::MAX && 0 <= cell.1 <= u32::MAX {
                    let c = (cell.0 as u32, cell.1 as u32);
                    assert(coords@.to_multiset().count(c) == if c.0 < width && c.1 < height {
                        1nat
                    } else {
                        0nat
                    });
                }
            }
        }
        work
    }

    /// One row unit for each row of the grid, or, where the mode is
    /// transparent, the cells of each row as units of their own. The rows
    /// come from top to bottom, or shuffled.
    fn rows(width: u32, height: u32, reverse: bool, random: bool, transparent: bool) -> (work: Vec<
        RaytracingWork,
    >)
        ensures
            covers_grid(all_cells(work@), width as int, height as int),
            all_within(work@, width as int, height as int),
            transparent ==> all_pixels(work@),
            !transparent ==> work@.len() == height && forall|i: int|
                0 <= i < work@.len() ==> is_row(
                    #[trigger] work@[i],
                    width as int,
                    height as int,
                    reverse,
                ),
            !random ==> all_cells(work@) == Seq::new(
                height as nat,
                |y: int| line_cells(0, y, width as nat, reverse),
            ).flatten(),
            exists|order: Seq<u32>| #[trigger]
                is_order(order, height as int) && all_cells(work@) == rows_cells(
                    order,
                    width as nat,
                    reverse,
                ),
    {
        let order = if random {
            TileAxisOrder::Random
        } else {
            TileAxisOrder::Forward
        };
        let line_order = Self::axis_order_range_to_values(0, height, order);
        let mut work: Vec<RaytracingWork> = Vec::new();
        let mut k: usize = 0;
        proof {
            assert(line_order@.take(0) == Seq::<u32>::empty());
            assert(rows_cells(Seq::<u32>::empty(), width as nat, reverse) == Seq::<(int, int)>::empty());
            assert forall|cell: (int, int)| #[trigger]
                occurrences(all_cells(work@), cell) == 0 && line_order@.take(
                    0,
                ).to_multiset().count(cell.1 as u32) == 0 by {
                lemma_occurrences_empty(cell);
                lemma_empty_count(cell.1 as u32);
            }
            assert(Seq::new(0, |y: int| line_cells(0, y, width as nat, reverse)).flatten()
                == Seq::<(int, int)>::empty());
        }
        while k < line_order.len()
            invariant
                k <= line_order@.len(),
                line_order@.to_multiset() == range_values(0, height as int).to_multiset(),
                !random ==> line_order@ == range_values(0, height as int),
                forall|cell: (int, int)| #[trigger]
                    occurrences(all_cells(work@), cell) == if 0 <= cell.0 < width && 0 <= cell.1
                        <= u32::MAX {
                        line_order@.take(k as int).to_multiset().count(cell.1 as u32)
                    } else {
                        0nat
                    },
                all_within(work@, width as int, height as int),
                transparent ==> all_pixels(work@),
                !transparent ==> work@.len() == k && forall|i: int|
                    0 <= i < work@.len() ==> is_row(
                        #[trigger] work@[i],
                        width as int,
                        height as int,
                        reverse,
                    ),
                !random ==> all_cells(work@) == Seq::new(
                    k as nat,
                    |y: int| line_cells(0, y, width as nat, reverse),
                ).flatten(),
                all_cells(work@) == rows_cells(line_order@.take(k as int), width as nat, reverse),
            decreases line_order@.len() - k,
        {
            let ghost units = work@;
            let new_y = line_order[k];
            proof {
                lemma_count_of_element(line_order@, k as int);
                lemma_range_count(0, height as int, new_y);
            }
            let new_work = RaytracingWork::line(0, new_y, width, reverse);
            let ghost cells = new_work.remaining();
            if transparent {
                let mut new_work = new_work.to_sub_work();
                let ghost pixels = new_work@;
                work.append(&mut new_work);
                proof {
                    lemma_all_cells_concat(units, pixels);
                    assert(all_within(pixels, width as int, height as int));
                }
            } else {
                work.push(new_work);
                proof {
                    lemma_all_cells_push(units, new_work);
                    assert(is_row(new_work, width as int, height as int, reverse)) by {
                        assert(line_cells(0, new_y as int, width as nat, reverse)
                            == new_work.remaining());
                    }
                }
            }
            proof {
                assert(all_cells(work@) == all_cells(units) + cells);
                assert forall|cell: (int, int)| #[trigger]
                    occurrences(all_cells(work@), cell) == if 0 <= cell.0 < width && 0 <= cell.1
                        <= u32::MAX {
                        line_order@.take(k + 1).to_multiset().count(cell.1 as u32)
                    } else {
                        0nat
                    } by {
                    lemma_occurrences_concat(all_cells(units), cells, cell);
                    lemma_line_occurrences(0, new_y as int, width as nat, reverse, cell);
                    lemma_take_count(line_order@, k as int, cell.1 as u32);
                    assert(occurrences(all_cells(units), cell) == if 0 <= cell.0 < width && 0
                        <= cell.1 <= u32::MAX {
                        line_order@.take(k as int).to_multiset().count(cell.1 as u32)
                    } else {
                        0nat
                    });
                }
                let done = Seq::new(
                    k as nat,
                    |i: int| line_cells(0, line_order@.take(k as int)[i] as int, width as nat, reverse),
                );
                let more = Seq::new(
                    (k + 1) as nat,
                    |i: int| line_cells(0, line_order@.take(k + 1)[i] as int, width as nat, reverse),
                );
                assert(more == done.push(cells));
                done.lemma_flatten_push(cells);
                if !random {
                    let all = Seq::new(
                        (k + 1) as nat,
                        |y: int| line_cells(0, y, width as nat, reverse),
                    );
                    assert(all.drop_last() == Seq::new(
                        k as nat,
                        |y: int| line_cells(0, y, width as nat, reverse),
                    ));
                    assert(all == all.drop_last().push(cells));
                    all.drop_last().lemma_flatten_push(cells);
                }
            }
            k = k + 1;
        }
        proof {
            line_order@.to_multiset_ensures();
            range_values(0, height as int).to_multiset_ensures();
            assert(line_order@.take(k as int) == line_order@);
            assert(is_order(line_order@, height as int));
            assert forall|cell: (int, int)| #[trigger]
                occurrences(all_cells(work@), cell) == if in_rect(
                    cell,
                    0,
                    0,
                    width as int,
                    height as int,
                ) {
                    1nat
                } else {
                    0nat
                } by {
                if 0 <= cell.1 <= u32::MAX {
                    lemma_range_count(0, height as int, cell.1 as u32);
                }
            }
        }
        work
    }

    /// One column unit for each column of the grid, or, where the mode is
    /// transparent, the cells of each column as units of their own. The
    /// columns come from left to right, or shuffled.
    fn columns(width: u32, height: u32, reverse: bool, random: bool, transparent: bool) -> (work: Vec<
        RaytracingWork,
    >)
        ensures
            covers_grid(all_cells(work@), width as int, height as int),
            all_within(work@, width as int, height as int),
            transparent ==> all_pixels(work@),
            !transparent ==> work@.len() == width && forall|i: int|
                0 <= i < work@.len() ==> is_column(
                    #[trigger] work@[i],
                    width as int,
                    height as int,
                    reverse,
                ),
            !random ==> all_cells(work@) == Seq::new(
                width as nat,
                |x: int| stripe_cells(x, 0, height as nat, reverse),
            ).flatten(),
            exists|order: Seq<u32>| #[trigger]
                is_order(order, width as int) && all_cells(work@) == columns_cells(
                    order,
                    height as nat,
                    reverse,
                ),
    {
        let order = if random {
            TileAxisOrder::Random
        } else {
            TileAxisOrder::Forward
        };
        let stripe_order = Self::axis_order_range_to_values(0, width, order);
        let mut work: Vec<RaytracingWork> = Vec::new();
        let mut k: usize = 0;
        proof {
            assert(stripe_order@.take(0) == Seq::<u32>::empty());
            assert(columns_cells(Seq::<u32>::empty(), height as nat, reverse) == Seq::<(int, int)>::empty());
            assert forall|cell: (int, int)| #[trigger]
                occurrences(all_cells(work@), cell) == 0 && stripe_order@.take(
                    0,
                ).to_multiset().count(cell.0 as u32) == 0 by {
                lemma_occurrences_empty(cell);
                lemma_empty_count(cell.0 as u32);
            }
            assert(Seq::new(0, |x: int| stripe_cells(x, 0, height as nat, reverse)).flatten()
                == Seq::<(int, int)>::empty());
        }
        while k < stripe_order.len()
            invariant
                k <= stripe_order@.len(),
                stripe_order@.to_multiset() == range_values(0, width as int).to_multiset(),
                !random ==> stripe_order@ == range_values(0, width as int),
                forall|cell: (int, int)| #[trigger]
                    occurrences(all_cells(work@), cell) == if 0 <= cell.1 < height && 0 <= cell.0
                        <= u32::MAX {
                        stripe_order@.take(k as int).to_multiset().count(cell.0 as u32)
                    } else {
                        0nat
                    },
                all_within(work@, width as int, height as int),
                transparent ==> all_pixels(work@),
                !transparent ==> work@.len() == k && forall|i: int|
                    0 <= i < work@.len() ==> is_column(
                        #[trigger] work@[i],
                        width as int,
                        height as int,
                        reverse,
                    ),
                !random ==> all_cells(work@) == Seq::new(
                    k as nat,
                    |x: int| stripe_cells(x, 0, height as nat, reverse),
                ).flatten(),
                all_cells(work@) == columns_cells(stripe_order@.take(k as int), height as nat, reverse),
            decreases stripe_order@.len() - k,
        {
            let ghost units = work@;
            let new_x = stripe_order[k];
            proof {
                lemma_count_of_element(stripe_order@, k as int);
                lemma_range_count(0, width as int, new_x);
            }
            let new_work = RaytracingWork::stripe(new_x, 0, height, reverse);
            let ghost cells = new_work.remaining();
            if transparent {
                let mut new_work = new_work.to_sub_work();
                let ghost pixels = new_work@;
                work.append(&mut new_work);
                proof {
                    lemma_all_cells_concat(units, pixels);
                    assert(all_within(pixels, width as int, height as int));
                }
            } else {
                work.push(new_work);
                proof {
                    lemma_all_cells_push(units, new_work);
                    assert(is_column(new_work, width as int, height as int, reverse)) by {
                        assert(stripe_cells(new_x as int, 0, height as nat, reverse)
                            == new_work.remaining());
                    }
                }
            }
            proof {
                assert(all_cells(work@) == all_cells(units) + cells);
                assert forall|cell: (int, int)| #[trigger]
                    occurrences(all_cells(work@), cell) == if 0 <= cell.1 < height && 0 <= cell.0
                        <= u32::MAX {
                        stripe_order@.take(k + 1).to_multiset().count(cell.0 as u32)
                    } else {
                        0nat
                    } by {
                    lemma_occurrences_concat(all_cells(units), cells, cell);
                    lemma_stripe_occurrences(new_x as int, 0, height as nat, reverse, cell);
                    lemma_take_count(stripe_order@, k as int, cell.0 as u32);
                    assert(occurrences(all_cells(units), cell) == if 0 <= cell.1 < height && 0
                        <= cell.0 <= u32::MAX {
                        stripe_order@.take(k as int).to_multiset().count(cell.0 as u32)
                    } else {
                        0nat
                    });
                }
                let done = Seq::new(
                    k as nat,
                    |i: int| stripe_cells(stripe_order@.take(k as int)[i] as int, 0, height as nat, reverse),
                );
                let more = Seq::new(
                    (k + 1) as nat,
                    |i: int| stripe_cells(stripe_order@.take(k + 1)[i] as int, 0, height as nat, reverse),
                );
                assert(more == done.push(cells));
                done.lemma_flatten_push(cells);
                if !random {
                    let all = Seq::new(
                        (k + 1) as nat,
                        |x: int| stripe_cells(x, 0, height as nat, reverse),
                    );
                    assert(all.drop_last() == Seq::new(
                        k as nat,
                        |x: int| stripe_cells(x, 0, height as nat, reverse),
                    ));
                    assert(all == all.drop_last().push(cells));
                    all.drop_last().lemma_flatten_push(cells);
                }
            }
            k = k + 1;
        }
        proof {
            stripe_order@.to_multiset_ensures();
            range_values(0, width as int).to_multiset_ensures();
            assert(stripe_order@.take(k as int) == stripe_order@);
            assert(is_order(stripe_order@, width as int));
            assert forall|cell: (int, int)| #[trigger]
                occurrences(all_cells(work@), cell) == if in_rect(
                    cell,
                    0,
                    0,
                    width as int,
                    height as int,
                ) {
                    1nat
                } else {
                    0nat
                } by {
                if 0 <= cell.0 <= u32::MAX {
                    lemma_range_count(0, width as int, cell.0 as u32);
                }
            }
        }
        work
    }

    /// The pairs of one value of `outer` and one value below `inner_end`:
    /// for each value of `outer`, in the order of `outer`, the values below
    /// `inner_end` in the order `inner_order`. Where `line_first` holds the
    /// outer value is the second part of the pair, else the first.
    fn cross(
        outer: &Vec<u32>,
        outer_end: u32,
        inner_end: u32,
        inner_order: TileAxisOrder,
        line_first: bool,
    ) -> (coordinates: Vec<(u32, u32)>)
        requires
            outer@.to_multiset() == range_values(0, outer_end as int).to_multiset(),
        ensures
            coordinates@.len() == outer@.len() * inner_end,
            forall|k: int|
                0 <= k < coordinates@.len() ==> outer_of(line_first, #[trigger] coordinates@[k])
                    == outer@[k / inner_end as int],
            inner_order != TileAxisOrder::Random ==> forall|k: int|
                0 <= k < coordinates@.len() ==> inner_of(line_first, #[trigger] coordinates@[k])
                    == axis_at(inner_order, inner_end as int, k % inner_end as int),
            forall|c: (u32, u32)| #[trigger]
                coordinates@.to_multiset().count(c) == if line_first {
                    if c.0 < inner_end && c.1 < outer_end {
                        1nat
                    } else {
                        0nat
                    }
                } else {
                    if c.0 < outer_end && c.1 < inner_end {
                        1nat
                    } else {
                        0nat
                    }
                },
    {
        let mut coordinates: Vec<(u32, u32)> = Vec::new();
        let mut r: usize = 0;
        proof {
            assert(outer@.take(0) == Seq::<u32>::empty());
            assert forall|c: (u32, u32)| #[trigger] coordinates@.to_multiset().count(c) == 0 by {
                lemma_empty_count(c);
            }
            assert forall|v: u32| #[trigger] outer@.take(0).to_multiset().count(v) == 0 by {
                lemma_empty_count(v);
            }
        }
        while r < outer.len()
            invariant
                r <= outer@.len(),
                coordinates@.len() == r * inner_end,
                forall|k: int|
                0 <= k < coordinates@.len() ==> outer_of(line_first, #[trigger] coordinates@[k])
                    == outer@[k / inner_end as int],
            inner_order != TileAxisOrder::Random ==> forall|k: int|
                0 <= k < coordinates@.len() ==> inner_of(line_first, #[trigger] coordinates@[k])
                    == axis_at(inner_order, inner_end as int, k % inner_end as int),
                outer@.to_multiset() == range_values(0, outer_end as int).to_multiset(),
                forall|c: (u32, u32)| #[trigger]
                    coordinates@.to_multiset().count(c) == if line_first {
                        if c.0 < inner_end {
                            outer@.take(r as int).to_multiset().count(c.1)
                        } else {
                            0nat
                        }
                    } else {
                        if c.1 < inner_end {
                            outer@.take(r as int).to_multiset().count(c.0)
                        } else {
                            0nat
                        }
                    },
            decreases outer@.len() - r,
        {
            let o = outer[r];
            let inner = Self::axis_order_range_to_values(0, inner_end, inner_order);
            let ghost before = coordinates@;
            let mut q: usize = 0;
            proof {
                assert(inner@.take(0) == Seq::<u32>::empty());
                assert forall|v: u32| #[trigger] inner@.take(0).to_multiset().count(v) == 0 by {
                    lemma_empty_count(v);
                }
            }
            while q < inner.len()
                invariant
                    q <= inner@.len(),
                    r < outer@.len(),
                    o == outer@[r as int],
                    inner@.len() == inner_end,
                    coordinates@.len() == r * inner_end + q,
                    inner_order == TileAxisOrder::Forward ==> inner@ == range_values(
                        0,
                        inner_end as int,
                    ),
                    inner_order == TileAxisOrder::Reverse ==> inner@ == range_values(
                        0,
                        inner_end as int,
                    ).reverse(),
                    forall|k: int|
                0 <= k < coordinates@.len() ==> outer_of(line_first, #[trigger] coordinates@[k])
                    == outer@[k / inner_end as int],
            inner_order != TileAxisOrder::Random ==> forall|k: int|
                0 <= k < coordinates@.len() ==> inner_of(line_first, #[trigger] coordinates@[k])
                    == axis_at(inner_order, inner_end as int, k % inner_end as int),
                    forall|c: (u32, u32)| #[trigger]
                        coordinates@.to_multiset().count(c) == before.to_multiset().count(c)
                            + if line_first {
                            if c.1 == o {
                                inner@.take(q as int).to_multiset().count(c.0)
                            } else {
                                0nat
                            }
                        } else {
                            if c.0 == o {
                                inner@.take(q as int).to_multiset().count(c.1)
                            } else {
                                0nat
                            }
                        },
                decreases inner@.len() - q,
            {
                let i = inner[q];
                let pair = if line_first {
                    (i, o)
                } else {
                    (o, i)
                };
                proof {
                    vstd::arithmetic::div_mod::lemma_fundamental_div_mod_converse(
                        r * inner_end + q,
                        inner_end as int,
                        r as int,
                        q as int,
                    );
                    to_multiset_build(coordinates@, pair);
                    assert forall|v: u32| #[trigger]
                        inner@.take(q + 1).to_multiset().count(v) == inner@.take(
                            q as int,
                        ).to_multiset().count(v) + if i == v {
                            1nat
                        } else {
                            0nat
                        } by {
                        lemma_take_count(inner@, q as int, v);
                    }
                }
                coordinates.push(pair);
                q = q + 1;
            }
            proof {
                assert((r + 1) * inner_end == r * inner_end + inner_end) by (nonlinear_arith);
                assert(inner@.take(q as int) == inner@);
                assert forall|c: (u32, u32)| #[trigger]
                    coordinates@.to_multiset().count(c) == if line_first {
                        if c.0 < inner_end {
                            outer@.take(r + 1).to_multiset().count(c.1)
                        } else {
                            0nat
                        }
                    } else {
                        if c.1 < inner_end {
                            outer@.take(r + 1).to_multiset().count(c.0)
                        } else {
                            0nat
                        }
                    } by {
                    lemma_range_count(0, inner_end as int, c.0);
                    lemma_range_count(0, inner_end as int, c.1);
                    lemma_take_count(outer@, r as int, c.0);
                    lemma_take_count(outer@, r as int, c.1);
                }
            }
            r = r + 1;
        }
        proof {
            assert(outer@.take(r as int) == outer@);
            assert forall|c: (u32, u32)| #[trigger]
                coordinates@.to_multiset().count(c) == if line_first {
                    if c.0 < inner_end && c.1 < outer_end {
                        1nat
                    } else {
                        0nat
                    }
                } else {
                    if c.0 < outer_end && c.1 < inner_end {
                        1nat
                    } else {
                        0nat
                    }
                } by {
                lemma_range_count(0, outer_end as int, c.0);
                lemma_range_count(0, outer_end as int, c.1);
            }
        }
        coordinates
    }

    /// The places of the tiles of a grid of `horizontal_count` columns and
    /// `vertical_count` rows of tiles, in the order in which the tiles are
    /// handed out.
    fn tile_coordinates(
        horizontal_count: u32,
        vertical_count: u32,
        dimension_order: TileDimensionOrder,
    ) -> (coordinates: Vec<(u32, u32)>)
        ensures
            coordinates@.len() == horizontal_count * vertical_count,
            forall|c: (u32, u32)| #[trigger]
                coordinates@.to_multiset().count(c) == if c.0 < horizontal_count && c.1
                    < vertical_count {
                    1nat
                } else {
                    0nat
                },
            keeps_order(
                dimension_order,
                horizontal_count as int,
                vertical_count as int,
                places_of(coordinates@),
            ),
    {
        match dimension_order {
            TileDimensionOrder::LineFirst { horizontal_order, vertical_order } => {
                let vertical = Self::axis_order_range_to_values(0, vertical_count, vertical_order);
                let coordinates = Self::cross(
                    &vertical,
                    vertical_count,
                    horizontal_count,
                    horizontal_order,
                    true,
                );
                proof {
                    assert(vertical_count * horizontal_count == horizontal_count * vertical_count)
                        by (nonlinear_arith);
                    let places = places_of(coordinates@);
                    assert forall|k: int| 0 <= k < places.len() implies 0 <= k / (horizontal_count as int)
                        < vertical_count && 0 <= k % (horizontal_count as int) < horizontal_count && #[trigger] places[k] == (
                        coordinates@[k].0 as int,
                        coordinates@[k].1 as int,
                    ) by {
                        lemma_index_parts(k, horizontal_count as int, vertical_count as int);
                    }
                }
                coordinates
            },
            TileDimensionOrder::StripeFirst { horizontal_order, vertical_order } => {
                let horizontal = Self::axis_order_range_to_values(
                    0,
                    horizontal_count,
                    horizontal_order,
                );
                let coordinates = Self::cross(
                    &horizontal,
                    horizontal_count,
                    vertical_count,
                    vertical_order,
                    false,
                );
                proof {
                    let places = places_of(coordinates@);
                    assert forall|k: int| 0 <= k < places.len() implies 0 <= k / (vertical_count as int)
                        < horizontal_count && 0 <= k % (vertical_count as int) < vertical_count && #[trigger] places[k] == (
                        coordinates@[k].0 as int,
                        coordinates@[k].1 as int,
                    ) by {
                        lemma_index_parts(k, vertical_count as int, horizontal_count as int);
                    }
                }
                coordinates
            },
            TileDimensionOrder::Random => {
                let vertical = Self::axis_order_range_to_values(
                    0,
                    vertical_count,
                    TileAxisOrder::Forward,
                );
                let mut coordinates = Self::cross(
                    &vertical,
                    vertical_count,
                    horizontal_count,
                    TileAxisOrder::Forward,
                    true,
                );
                let ghost ordered = coordinates@;
                let mut rand = rand::thread_rng();
                shuffle(&mut coordinates, &mut rand);
                proof {
                    ordered.to_multiset_ensures();
                    coordinates@.to_multiset_ensures();
                    assert(vertical_count * horizontal_count == horizontal_count * vertical_count)
                        by (nonlinear_arith);
                }
                coordinates
            },
        }
    }

    /// What is known of the units of a mode of tiles, put together.
    proof fn lemma_tiles_cut(
        self,
        tile_width: u32,
        tile_height: u32,
        transparent: bool,
        dimension_order: TileDimensionOrder,
        sub: GenerationMode,
        width: int,
        height: int,
        work: Seq<RaytracingWork>,
        places: Seq<(int, int)>,
        insides: Seq<Seq<RaytracingWork>>,
    )
        requires
            self == (GenerationMode::Tile {
                tile_width,
                tile_height,
                transparent,
                dimension_order,
                sub_generation_mode: Box::new(sub),
            }),
            covers_grid(all_cells(work), width, height),
            all_within(work, width, height),
            self.flat() ==> all_pixels(work),
            transparent ==> sub.flattens(
                all_cells(work),
                width,
                height,
                tile_width as int,
                tile_height as int,
                dimension_order,
                places,
                insides,
            ),
            !transparent ==> {
                &&& work.len() == tile_count_of(width, tile_width as int) * tile_count_of(
                    height,
                    tile_height as int,
                )
                &&& forall|k: int|
                    0 <= k < work.len() ==> sub.cuts_tile(
                        #[trigger] work[k],
                        width,
                        height,
                        tile_width as int,
                        tile_height as int,
                    )
                &&& keeps_order(
                    dimension_order,
                    tile_count_of(width, tile_width as int),
                    tile_count_of(height, tile_height as int),
                    tile_places(work, tile_width as int, tile_height as int),
                )
            },
        ensures
            self.cuts(width, height, work),
    {
        if transparent {
            assert(one_for_each_tile(places, insides));
        }
    }

    /// Cuts the grid of `width` columns and `height` rows into work units.
    ///
    /// Handed out one after the other, to the end, the units give every cell
    /// of the grid exactly once, and every unit lies in the grid.
    #[verifier::loop_isolation(false)]
    pub fn to_work(&self, width: u32, height: u32) -> (work: Vec<RaytracingWork>)
        requires
            self.wf(),
        ensures
            covers_grid(all_cells(work@), width as int, height as int),
            all_cells(work@).len() == width * height,
            all_within(work@, width as int, height as int),
            self.cuts(width as int, height as int, work@),
            work@.len() == self.unit_count(width as int, height as int),
        decreases self,
    {
        match self {
            GenerationMode::PixelRandom => {
                let work = Self::pixels(width, height);
                proof {
                    lemma_covers_len(all_cells(work@), width as int, height as int);
                    if self.flat() {
                        lemma_pixels_cells_len(work@);
                    }
                }
                work
            },
            GenerationMode::Line { reverse_order_horizontal, random_order_vertical, transparent } => {
                let work = Self::rows(
                    width,
                    height,
                    *reverse_order_horizontal,
                    *random_order_vertical,
                    *transparent,
                );
                proof {
                    lemma_covers_len(all_cells(work@), width as int, height as int);
                    if self.flat() {
                        lemma_pixels_cells_len(work@);
                    }
                }
                work
            },
            GenerationMode::Stripe {
                random_order_horizontal,
                reverse_order_vertical,
                transparent,
            } => {
                let work = Self::columns(
                    width,
                    height,
                    *reverse_order_vertical,
                    *random_order_horizontal,
                    *transparent,
                );
                proof {
                    lemma_covers_len(all_cells(work@), width as int, height as int);
                    if self.flat() {
                        lemma_pixels_cells_len(work@);
                    }
                }
                work
            },
            GenerationMode::Tile {
                tile_width,
                tile_height,
                transparent,
                dimension_order,
                sub_generation_mode,
            } => {
                let tile_width: u32 = *tile_width;
                let tile_height: u32 = *tile_height;
                let horizontal_count = tile_count(width, tile_width);
                let vertical_count = tile_count(height, tile_height);
                let coordinates = Self::tile_coordinates(
                    horizontal_count,
                    vertical_count,
                    *dimension_order,
                );
                let mut work: Vec<RaytracingWork> = Vec::new();
                let mut k: usize = 0;
                let ghost mut places: Seq<(int, int)> = Seq::empty();
                let ghost mut insides: Seq<Seq<RaytracingWork>> = Seq::empty();
                proof {
                    assert(coordinates@.take(0) == Seq::<(u32, u32)>::empty());
                    assert forall|c: (u32, u32)| #[trigger]
                        coordinates@.take(0).to_multiset().count(c) == 0 by {
                        lemma_empty_count(c);
                    }
                    assert forall|cell: (int, int)| #[trigger]
                        occurrences(all_cells(work@), cell) == 0 by {
                        lemma_occurrences_empty(cell);
                    }
                }
                while k < coordinates.len()
                    invariant
                        k <= coordinates@.len(),
                        forall|cell: (int, int)| #[trigger]
                            occurrences(all_cells(work@), cell) == if in_rect(
                                cell,
                                0,
                                0,
                                width as int,
                                height as int,
                            ) {
                                coordinates@.take(k as int).to_multiset().count(
                                    (
                                        (cell.0 / tile_width as int) as u32,
                                        (cell.1 / tile_height as int) as u32,
                                    ),
                                )
                            } else {
                                0nat
                            },
                        all_within(work@, width as int, height as int),
                        self.flat() ==> all_pixels(work@),
                        *transparent ==> {
                            &&& places.len() == k
                            &&& insides.len() == k
                            &&& all_cells(work@) == tile_cells(
                                places,
                                insides,
                                tile_width as int,
                                tile_height as int,
                            ).flatten()
                            &&& forall|j: int|
                                0 <= j < k ==> #[trigger] places[j] == (
                                    coordinates@[j].0 as int,
                                    coordinates@[j].1 as int,
                                )
                            &&& forall|j: int|
                                0 <= j < k ==> sub_generation_mode.cuts(
                                    tile_extent_of(width as int, tile_width as int, places[j].0),
                                    tile_extent_of(height as int, tile_height as int, places[j].1),
                                    #[trigger] insides[j],
                                )
                        },
                        !*transparent ==> work@.len() == k,
                        !*transparent ==> forall|j: int|
                            0 <= j < work@.len() ==> sub_generation_mode.cuts_tile(
                                #[trigger] work@[j],
                                width as int,
                                height as int,
                                tile_width as int,
                                tile_height as int,
                            ),
                        !*transparent ==> forall|j: int|
                            0 <= j < work@.len() ==> (#[trigger] work@[j]).anchor() == (
                                coordinates@[j].0 * tile_width,
                                coordinates@[j].1 * tile_height,
                            ),
                    decreases coordinates@.len() - k,
                {
                    let ghost units = work@;
                    let (new_x, new_y) = coordinates[k];
                    proof {
                        lemma_count_of_element(coordinates@, k as int);
                        lemma_tile_span(width as int, tile_width as int, new_x as int, 0);
                        lemma_tile_span(height as int, tile_height as int, new_y as int, 0);
                    }
                    let tile_w = tile_extent(width, tile_width, new_x);
                    let tile_h = tile_extent(height, tile_height, new_y);
                    let anchor_x: u32 = new_x * tile_width;
                    let anchor_y: u32 = new_y * tile_height;
                    let new_work = sub_generation_mode.to_work(tile_w, tile_h);
                    let ghost parts = new_work@;
                    let new_work = RaytracingWork::tile(anchor_x, anchor_y, new_work);
                    let ghost cells = new_work.remaining();
                    proof {
                        lemma_covers_shift(
                            all_cells(parts),
                            0,
                            0,
                            tile_w as int,
                            tile_h as int,
                            anchor_x as int,
                            anchor_y as int,
                        );
                        assert forall|i: int| 0 <= i < parts.len() implies (#[trigger] parts[i]).within(
                            width - anchor_x,
                            height - anchor_y,
                        ) by {
                            parts[i].lemma_within_monotonic(
                                tile_w as int,
                                tile_h as int,
                                width - anchor_x,
                                height - anchor_y,
                            );
                        }
                        assert(new_work.within(width as int, height as int));
                        new_work.lemma_within_monotonic(
                            width as int,
                            height as int,
                            u32::MAX + 1,
                            u32::MAX + 1,
                        );
                    }
                    if *transparent {
                        let mut new_work = new_work.to_sub_work();
                        let ghost pixels = new_work@;
                        work.append(&mut new_work);
                        proof {
                            let places_before = places;
                            let insides_before = insides;
                            let cells_before = tile_cells(
                                places,
                                insides,
                                tile_width as int,
                                tile_height as int,
                            );
                            places = places.push((new_x as int, new_y as int));
                            insides = insides.push(parts);
                            let cells_after = tile_cells(
                                places,
                                insides,
                                tile_width as int,
                                tile_height as int,
                            );
                            assert(cells_after == cells_before.push(cells)) by {
                                assert forall|j: int| 0 <= j < k implies cells_after[j]
                                    == cells_before[j] by {
                                    assert(places[j] == places_before[j]);
                                    assert(insides[j] == insides_before[j]);
                                }
                                assert(insides[k as int] == parts);
                                assert(places[k as int] == (new_x as int, new_y as int));
                            }
                            cells_before.lemma_flatten_push(cells);
                            assert forall|j: int| 0 <= j < k + 1 implies #[trigger] places[j] == (
                                coordinates@[j].0 as int,
                                coordinates@[j].1 as int,
                            ) by {
                                if j < k {
                                    assert(places[j] == places_before[j]);
                                }
                            }
                            assert forall|j: int| 0 <= j < k + 1 implies sub_generation_mode.cuts(
                                tile_extent_of(width as int, tile_width as int, places[j].0),
                                tile_extent_of(height as int, tile_height as int, places[j].1),
                                #[trigger] insides[j],
                            ) by {
                                if j < k {
                                    assert(places[j] == places_before[j]);
                                    assert(insides[j] == insides_before[j]);
                                } else {
                                    assert(insides[j] == parts);
                                    assert(places[j] == (new_x as int, new_y as int));
                                }
                            }
                            lemma_all_cells_concat(units, pixels);
                            assert(all_within(pixels, width as int, height as int));
                        }
                    } else {
                        work.push(new_work);
                        proof {
                            lemma_all_cells_push(units, new_work);
                            vstd::arithmetic::div_mod::lemma_fundamental_div_mod_converse(
                                anchor_x as int,
                                tile_width as int,
                                new_x as int,
                                0,
                            );
                            vstd::arithmetic::div_mod::lemma_fundamental_div_mod_converse(
                                anchor_y as int,
                                tile_height as int,
                                new_y as int,
                                0,
                            );
                            assert(sub_generation_mode.cuts_tile(
                                new_work,
                                width as int,
                                height as int,
                                tile_width as int,
                                tile_height as int,
                            ));
                        }
                    }
                    proof {
                        assert(all_cells(work@) == all_cells(units) + cells);
                        assert forall|cell: (int, int)| #[trigger]
                            occurrences(all_cells(work@), cell) == if in_rect(
                                cell,
                                0,
                                0,
                                width as int,
                                height as int,
                            ) {
                                coordinates@.take(k + 1).to_multiset().count(
                                    (
                                        (cell.0 / tile_width as int) as u32,
                                        (cell.1 / tile_height as int) as u32,
                                    ),
                                )
                            } else {
                                0nat
                            } by {
                            lemma_occurrences_concat(all_cells(units), cells, cell);
                            lemma_tile_span(width as int, tile_width as int, new_x as int, cell.0);
                            lemma_tile_span(
                                height as int,
                                tile_height as int,
                                new_y as int,
                                cell.1,
                            );
                            if in_rect(cell, 0, 0, width as int, height as int) {
                                lemma_tile_index(width as int, tile_width as int, cell.0);
                                lemma_tile_index(height as int, tile_height as int, cell.1);
                            }
                            lemma_take_count(
                                coordinates@,
                                k as int,
                                (
                                    (cell.0 / tile_width as int) as u32,
                                    (cell.1 / tile_height as int) as u32,
                                ),
                            );
                            assert(occurrences(cells, cell) == if in_rect(
                                cell,
                                anchor_x as int,
                                anchor_y as int,
                                tile_w as int,
                                tile_h as int,
                            ) {
                                1nat
                            } else {
                                0nat
                            });
                            assert(occurrences(all_cells(units), cell) == if in_rect(
                                cell,
                                0,
                                0,
                                width as int,
                                height as int,
                            ) {
                                coordinates@.take(k as int).to_multiset().count(
                                    (
                                        (cell.0 / tile_width as int) as u32,
                                        (cell.1 / tile_height as int) as u32,
                                    ),
                                )
                            } else {
                                0nat
                            });
                        }
                    }
                    k = k + 1;
                }
                proof {
                    assert(coordinates@.take(k as int) == coordinates@);
                    assert forall|cell: (int, int)| #[trigger]
                        occurrences(all_cells(work@), cell) == if in_rect(
                            cell,
                            0,
                            0,
                            width as int,
                            height as int,
                        ) {
                            1nat
                        } else {
                            0nat
                        } by {
                        if in_rect(cell, 0, 0, width as int, height as int) {
                            lemma_tile_index(width as int, tile_width as int, cell.0);
                            lemma_tile_index(height as int, tile_height as int, cell.1);
                        }
                    }
                    lemma_covers_len(all_cells(work@), width as int, height as int);
                    if self.flat() {
                        lemma_pixels_cells_len(work@);
                    }
                    if *transparent {
                        assert(places == places_of(coordinates@));
                    } else {
                        assert(tile_places(work@, tile_width as int, tile_height as int)
                            == places_of(coordinates@)) by {
                            assert forall|j: int| 0 <= j < work@.len() implies (
                            #[trigger] work@[j]).anchor().0 / (tile_width as int)
                                == coordinates@[j].0 && work@[j].anchor().1 / (tile_height as int)
                                == coordinates@[j].1 by {
                                vstd::arithmetic::div_mod::lemma_fundamental_div_mod_converse(
                                    coordinates@[j].0 * tile_width,
                                    tile_width as int,
                                    coordinates@[j].0 as int,
                                    0,
                                );
                                vstd::arithmetic::div_mod::lemma_fundamental_div_mod_converse(
                                    coordinates@[j].1 * tile_height,
                                    tile_height as int,
                                    coordinates@[j].1 as int,
                                    0,
                                );
                            }
                        }
                    }
                    if *transparent {
                        assert forall|j: int| 0 <= j < places.len() implies 0 <= (
                        #[trigger] places[j]).0 < horizontal_count && 0 <= places[j].1
                            < vertical_count by {
                            lemma_count_of_element(coordinates@, j);
                        }
                        assert(sub_generation_mode.flattens(
                            all_cells(work@),
                            width as int,
                            height as int,
                            tile_width as int,
                            tile_height as int,
                            *dimension_order,
                            places,
                            insides,
                        ));
                    }
                    self.lemma_tiles_cut(
                        tile_width,
                        tile_height,
                        *transparent,
                        *dimension_order,
                        **sub_generation_mode,
                        width as int,
                        height as int,
                        work@,
                        places,
                        insides,
                    );
                }
                work
            },
        }
    }

    /// The same mode once more.
    fn duplicate(&self) -> (copy: Self)
        ensures
            copy == *self,
        decreases self,
    {
        match self {
            GenerationMode::PixelRandom => GenerationMode::PixelRandom,
            GenerationMode::Line { reverse_order_horizontal, random_order_vertical, transparent } => {
                GenerationMode::Line {
                    reverse_order_horizontal: *reverse_order_horizontal,
                    random_order_vertical: *random_order_vertical,
                    transparent: *transparent,
                }
            },
            GenerationMode::Stripe {
                random_order_horizontal,
                reverse_order_vertical,
                transparent,
            } => {
                GenerationMode::Stripe {
                    random_order_horizontal: *random_order_horizontal,
                    reverse_order_vertical: *reverse_order_vertical,
                    transparent: *transparent,
                }
            },
            GenerationMode::Tile {
                tile_width,
                tile_height,
                transparent,
                dimension_order,
                sub_generation_mode,
            } => {
                GenerationMode::Tile {
                    tile_width: *tile_width,
                    tile_height: *tile_height,
                    transparent: *transparent,
                    dimension_order: *dimension_order,
                    sub_generation_mode: Box::new(sub_generation_mode.duplicate()),
                }
            },
        }
    }

    /// The units, taken together, hand out the cells of the grid without
    /// repetition: as many cells as the grid has, none twice, and a cell
    /// exactly if it is one of the grid.
    pub proof fn lemma_cut_hands_out_each_cell_once(
        self,
        width: int,
        height: int,
        work: Seq<RaytracingWork>,
    )
        requires
            0 <= width,
            0 <= height,
            self.cuts(width, height, work),
        ensures
            all_cells(work).len() == width * height,
            all_cells(work).no_duplicates(),
            forall|x: int, y: int|
                all_cells(work).contains((x, y)) <==> 0 <= x < width && 0 <= y < height,
    {
        lemma_covers_len(all_cells(work), width, height);
        lemma_covers_is_bijection(all_cells(work), 0, 0, width, height);
        assert forall|x: int, y: int|
            all_cells(work).contains((x, y)) <==> 0 <= x < width && 0 <= y < height by {
            assert(in_rect((x, y), 0, 0, width, height) <==> 0 <= x < width && 0 <= y < height);
        }
    }

    /// The generation mode that a tree of settings stands for. Every mode
    /// of tiles in the tree must have a tree below it.
    pub fn from_gui_mode_tree(tree: &GUIModeTree) -> (mode: Self)
        requires
            tree.complete(),
        ensures
            mode == mode_of_tree(*tree),
        decreases tree,
    {
        match &tree.settings {
            GUIModeSettings::PixelRandom => Self::PixelRandom,
            GUIModeSettings::Line { reverse_order_horizontal, random_order_vertical } => {
                Self::Line {
                    reverse_order_horizontal: *reverse_order_horizontal,
                    random_order_vertical: *random_order_vertical,
                    transparent: false,
                }
            },
            GUIModeSettings::PixelLine { reverse_order_horizontal, random_order_vertical } => {
                Self::Line {
                    reverse_order_horizontal: *reverse_order_horizontal,
                    random_order_vertical: *random_order_vertical,
                    transparent: true,
                }
            },
            GUIModeSettings::Stripe { random_order_horizontal, reverse_order_vertical } => {
                Self::Stripe {
                    random_order_horizontal: *random_order_horizontal,
                    reverse_order_vertical: *reverse_order_vertical,
                    transparent: false,
                }
            },
            GUIModeSettings::PixelStripe { random_order_horizontal, reverse_order_vertical } => {
                Self::Stripe {
                    random_order_horizontal: *random_order_horizontal,
                    reverse_order_vertical: *reverse_order_vertical,
                    transparent: true,
                }
            },
            GUIModeSettings::LineFirstTile {
                tile_width,
                tile_height,
                horizontal_order,
                vertical_order,
            } => Self::tile_from_gui_mode_tree(
                tree,
                *tile_width,
                *tile_height,
                Self::indices_to_tile_dimension_order(*horizontal_order, *vertical_order, 0),
                false,
            ),
            GUIModeSettings::StripeFirstTile {
                tile_width,
                tile_height,
                horizontal_order,
                vertical_order,
            } => Self::tile_from_gui_mode_tree(
                tree,
                *tile_width,
                *tile_height,
                Self::indices_to_tile_dimension_order(*horizontal_order, *vertical_order, 1),
                false,
            ),
            GUIModeSettings::LineFirstPixelTile {
                tile_width,
                tile_height,
                horizontal_order,
                vertical_order,
            } => Self::tile_from_gui_mode_tree(
                tree,
                *tile_width,
                *tile_height,
                Self::indices_to_tile_dimension_order(*horizontal_order, *vertical_order, 0),
                true,
            ),
            GUIModeSettings::StripeFirstPixelTile {
                tile_width,
                tile_height,
                horizontal_order,
                vertical_order,
            } => Self::tile_from_gui_mode_tree(
                tree,
                *tile_width,
                *tile_height,
                Self::indices_to_tile_dimension_order(*horizontal_order, *vertical_order, 1),
                true,
            ),
        }
    }

    /// The mode of tiles that a tree of settings stands for.
    fn tile_from_gui_mode_tree(
        tree: &GUIModeTree,
        tile_width: u32,
        tile_height: u32,
        dimension_order: TileDimensionOrder,
        transparent: bool,
    ) -> (mode: Self)
        requires
            tree.complete(),
            is_tile_settings(tree.settings),
        ensures
            mode == tile_mode_of_tree(*tree, tile_width, tile_height, dimension_order, transparent),
        decreases tree.sub_tree,
    {
        let sub_generation_mode = match &tree.sub_tree {
            Some(sub_tree) => Self::from_gui_mode_tree(sub_tree),
            None => Self::PixelRandom,
        };
        Self::Tile {
            tile_width,
            tile_height,
            transparent,
            dimension_order,
            sub_generation_mode: Box::new(sub_generation_mode),
        }
    }

    /// The order of the tiles that three indices choose.
    fn indices_to_tile_dimension_order(
        horizontal_order: usize,
        vertical_order: usize,
        dimension_order: usize,
    ) -> (order: TileDimensionOrder)
        ensures
            order == dimension_order_of(
                horizontal_order as int,
                vertical_order as int,
                dimension_order as int,
            ),
    {
        let horizontal_order = Self::index_to_tile_axis_order(horizontal_order);
        let vertical_order = Self::index_to_tile_axis_order(vertical_order);
        match dimension_order {
            0 => TileDimensionOrder::LineFirst { horizontal_order, vertical_order },
            1 => TileDimensionOrder::StripeFirst { horizontal_order, vertical_order },
            _ => TileDimensionOrder::Random,
        }
    }

    /// The order along an axis that an index chooses.
    fn index_to_tile_axis_order(index: usize) -> (order: TileAxisOrder)
        ensures
            order == axis_order_of(index as int),
    {
        match index {
            1 => TileAxisOrder::Reverse,
            2 => TileAxisOrder::Random,
            _ => TileAxisOrder::Forward,
        }
    }

    /// The values of the range from `start` to `end` in the given order:
    /// rising, falling, or shuffled.
    fn axis_order_range_to_values(start: u32, end: u32, order: TileAxisOrder) -> (values: Vec<u32>)
        ensures
            values@.len() == range_values(start as int, end as int).len(),
            values@.to_multiset() == range_values(start as int, end as int).to_multiset(),
            order == TileAxisOrder::Forward ==> values@ == range_values(start as int, end as int),
            order == TileAxisOrder::Reverse ==> values@ == range_values(
                start as int,
                end as int,
            ).reverse(),
    {
        let mut values: Vec<u32> = Vec::new();
        let mut next: u32 = start;
        while next < end
            invariant
                start <= next <= end || (end < start && next == start),
                values@ == range_values(start as int, next as int),
            decreases end - next,
        {
            values.push(next);
            next = next + 1;
            assert(values@ == range_values(start as int, next as int));
        }
        assert(values@ == range_values(start as int, end as int));
        match order {
            TileAxisOrder::Forward => values,
            TileAxisOrder::Reverse => {
                let ghost rising = values@;
                let mut falling: Vec<u32> = Vec::new();
                let mut left: usize = values.len();
                while left > 0
                    invariant
                        left <= values@.len(),
                        values@ == rising,
                        falling@.len() == rising.len() - left,
                        forall|j: int|
                            0 <= j < falling@.len() ==> falling@[j] == rising[rising.len() - 1
                                - j],
                    decreases left,
                {
                    left = left - 1;
                    falling.push(values[left]);
                }
                proof {
                    assert(falling@ == rising.reverse());
                    rising.lemma_reverse_to_multiset();
                }
                falling
            },
            TileAxisOrder::Random => {
                let ghost rising = values@;
                let mut rand = rand::thread_rng();
                shuffle(&mut values, &mut rand);
                proof {
                    rising.to_multiset_ensures();
                    values@.to_multiset_ensures();
                }
                values
            },
        }
    }
}

/// The messages that hand the units of `work` to the workers, one for each
/// unit, in their order.
pub open spec fn work_messages(work: Seq<RaytracingWork>) -> Seq<Work<RaytracingWork>> {
    Seq::new(work.len(), |i: int| Work::Work(work[i]))
}

/// A grid and the mode by which it is cut.
pub struct RaytracingWorkGenerator {
    pub width: u32,
    pub height: u32,
    pub generation_mode: GenerationMode,
}

impl RaytracingWorkGenerator {
    /// How many units of what the grid was cut into were handed to the
    /// pool: all of them where all were taken, those that were taken and
    /// the one that was not where the pool runs, none where it does not.
    pub open spec fn handed_over(self, running: bool, generated: bool, taken: int) -> int {
        if generated {
            self.generation_mode.unit_count(self.width as int, self.height as int)
        } else if running {
            taken + 1
        } else {
            0
        }
    }

    /// Cuts the grid into work units and adds them to the pool, in their
    /// order, each once. Ends with a failure at the first unit that the
    /// pool does not take, and adds none after it: a pool that does not run
    /// takes none. Where the grid is cut into no unit at all there is
    /// nothing to add, which is no failure.
    pub fn generate<CTX: WorkContext, R: WorkResult>(
        &self,
        pool: &mut Workers<CTX, RaytracingWork, R>,
    ) -> (generated: Result<(), ()>)
        requires
            self.generation_mode.wf(),
        ensures
            final(pool).status() == old(pool).status(),
            final(pool).worker_count() == old(pool).worker_count(),
            final(pool).shared() == old(pool).shared(),
            self.generation_mode.unit_count(self.width as int, self.height as int) == 0
                ==> generated is Ok,
            old(pool).status() != WorkersStatus::Running && self.generation_mode.unit_count(
                self.width as int,
                self.height as int,
            ) > 0 ==> generated is Err,
            generated is Ok ==> final(pool).taken() == old(pool).taken()
                + self.generation_mode.unit_count(self.width as int, self.height as int),
            generated is Err ==> old(pool).taken() <= final(pool).taken() < old(pool).taken()
                + self.generation_mode.unit_count(self.width as int, self.height as int),
            exists|work: Seq<RaytracingWork>|
                {
                    &&& self.generation_mode.cuts(self.width as int, self.height as int, work)
                    &&& work.len() == self.generation_mode.unit_count(
                        self.width as int,
                        self.height as int,
                    )
                    &&& final(pool).handed() == old(pool).handed() + (#[trigger] work_messages(
                        work,
                    )).take(
                        self.handed_over(
                            old(pool).status() == WorkersStatus::Running,
                            generated is Ok,
                            final(pool).taken() - old(pool).taken(),
                        ),
                    )
                },
    {
        let work = self.generation_mode.to_work(self.width, self.height);
        let ghost cut = work@;
        proof {
            assert(work_messages(cut).take(0) == Seq::<Work<RaytracingWork>>::empty());
            assert(pool.handed() + Seq::<Work<RaytracingWork>>::empty() == pool.handed());
        }
        for unit in units: work
            invariant
                units.seq() == cut,
                self.generation_mode.cuts(self.width as int, self.height as int, cut),
                cut.len() == self.generation_mode.unit_count(
                    self.width as int,
                    self.height as int,
                ),
                pool.status() == old(pool).status(),
                pool.worker_count() == old(pool).worker_count(),
                pool.shared() == old(pool).shared(),
                pool.taken() == old(pool).taken() + units.index(),
                pool.handed() == old(pool).handed() + work_messages(cut).take(
                    units.index() as int,
                ),
                old(pool).status() != WorkersStatus::Running ==> units.index() == 0,
        {
            let ghost before = pool.handed();
            let added = pool.add_work(unit);
            proof {
                let messages = work_messages(cut);
                let done = units.index() as int;
                assert(messages[done] == Work::Work(unit));
                assert(messages.take(done + 1) == messages.take(done).push(messages[done]));
                assert(old(pool).handed() + messages.take(done).push(messages[done]) == (old(
                    pool,
                ).handed() + messages.take(done)).push(messages[done]));
            }
            if added.is_err() {
                return Err(());
            }
        }
        proof {
            assert(work_messages(cut).take(cut.len() as int) == work_messages(cut));
        }
        Ok(())
    }
}

} // verus!
