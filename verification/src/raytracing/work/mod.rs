//! Resumable work units over grid cells.
//!
//! A unit is a cursor over one or more cells. Its model is the sequence of
//! cells that it has not handed out yet, in the order in which it will hand
//! them out: [`RaytracingWork::remaining`]. Where a unit lies is described
//! by [`RaytracingWork::within`].

pub mod coverage;
pub mod generator;

use vstd::prelude::*;

verus! {

/// The cells of a horizontal run of `width` cells whose leftmost cell is
/// `(x, y)`, in the order in which the run hands them out.
pub open spec fn line_cells(x: int, y: int, width: nat, reverse: bool) -> Seq<(int, int)> {
    Seq::new(
        width,
        |i: int|
            if reverse {
                (x + width - 1 - i, y)
            } else {
                (x + i, y)
            },
    )
}

/// The cells of a vertical run of `height` cells whose topmost cell is
/// `(x, y)`, in the order in which the run hands them out.
pub open spec fn stripe_cells(x: int, y: int, height: nat, reverse: bool) -> Seq<(int, int)> {
    Seq::new(
        height,
        |i: int|
            if reverse {
                (x, y + height - 1 - i)
            } else {
                (x, y + i)
            },
    )
}

/// `cells`, each moved by `(dx, dy)`.
pub open spec fn shift(cells: Seq<(int, int)>, dx: int, dy: int) -> Seq<(int, int)> {
    Seq::new(cells.len(), |i: int| (cells[i].0 + dx, cells[i].1 + dy))
}

/// Every cell of `cells` lies in the grid of `width` columns and `height`
/// rows.
pub open spec fn cells_within(cells: Seq<(int, int)>, width: int, height: int) -> bool {
    forall|i: int|
        0 <= i < cells.len() ==> 0 <= (#[trigger] cells[i]).0 < width && 0 <= cells[i].1 < height
}

/// The cells that the units of `units` will hand out, unit after unit.
pub open spec fn all_cells(units: Seq<RaytracingWork>) -> Seq<(int, int)>
    decreases units.len(),
{
    if units.len() == 0 {
        Seq::empty()
    } else {
        all_cells(units.drop_last()) + units.last().remaining()
    }
}

/// Every unit of `units` lies in the grid of `width` columns and `height`
/// rows.
pub open spec fn all_within(units: Seq<RaytracingWork>, width: int, height: int) -> bool {
    forall|i: int| 0 <= i < units.len() ==> (#[trigger] units[i]).within(width, height)
}

/// Every unit of `units` is a single cell that has not been handed out.
pub open spec fn all_pixels(units: Seq<RaytracingWork>) -> bool {
    forall|i: int|
        0 <= i < units.len() ==> (#[trigger] units[i]) is Pixel && units[i].remaining().len() == 1
}

/// `copy` is a unit of the same kind as `unit`, placed where `unit` is, that
/// hands out the same cells and lies in the same grids.
pub open spec fn is_copy(copy: RaytracingWork, unit: RaytracingWork) -> bool {
    &&& copy is Pixel <==> unit is Pixel
    &&& copy is Line <==> unit is Line
    &&& copy is Stripe <==> unit is Stripe
    &&& copy is Tile <==> unit is Tile
    &&& copy.remaining() == unit.remaining()
    &&& copy.anchor() == unit.anchor()
    &&& forall|w: int, h: int| #[trigger] copy.within(w, h) == unit.within(w, h)
}

/// Adding a unit at the end adds its cells at the end.
pub proof fn lemma_all_cells_push(units: Seq<RaytracingWork>, unit: RaytracingWork)
    ensures
        all_cells(units.push(unit)) == all_cells(units) + unit.remaining(),
{
    assert(units.push(unit).drop_last() == units);
}

/// The cells of two lists of units, one after the other.
pub proof fn lemma_all_cells_concat(first: Seq<RaytracingWork>, second: Seq<RaytracingWork>)
    ensures
        all_cells(first + second) == all_cells(first) + all_cells(second),
    decreases second.len(),
{
    if second.len() == 0 {
        assert(first + second == first);
    } else {
        lemma_all_cells_concat(first, second.drop_last());
        assert((first + second).drop_last() == first + second.drop_last());
        assert((first + second).last() == second.last());
    }
}

/// Units that are single cells hand out as many cells as they are units.
pub proof fn lemma_pixels_cells_len(units: Seq<RaytracingWork>)
    requires
        all_pixels(units),
    ensures
        all_cells(units).len() == units.len(),
    decreases units.len(),
{
    if units.len() > 0 {
        lemma_pixels_cells_len(units.drop_last());
        assert(units.last() == units[units.len() - 1]);
    }
}

/// A single cell, and whether it was handed out.
#[derive(Clone, Debug)]
pub struct PixelWork {
    x: u32,
    y: u32,
    taken: bool,
}

/// A row of cells, and how many of them were handed out.
#[derive(Clone, Debug)]
pub struct LineWork {
    x: u32,
    y: u32,
    width: u32,
    current_x: u32,
    reverse: bool,
}

/// A column of cells, and how many of them were handed out.
#[derive(Clone, Debug)]
pub struct StripeWork {
    x: u32,
    y: u32,
    height: u32,
    current_y: u32,
    reverse: bool,
}

/// An anchor and a list of slots. A slot holds a unit, placed relative to
/// the anchor, until that unit has handed out all of its cells.
#[derive(Debug)]
pub struct TileWork {
    x: u32,
    y: u32,
    sub_generation_work: Vec<Option<RaytracingWork>>,
}

/// A unit of work: a single cell, a row, a column, or a tile of units.
#[derive(Debug)]
pub enum RaytracingWork {
    Pixel(PixelWork),
    Line(LineWork),
    Stripe(StripeWork),
    Tile(TileWork),
}

/// The cells that a slot still holds: none once it has been cleared.
spec fn slot_cells(slot: Option<RaytracingWork>) -> Seq<(int, int)>
    decreases slot, 0nat,
{
    match slot {
        None => Seq::empty(),
        Some(unit) => unit.remaining(),
    }
}

/// The cells that the slots of a tile still hold, relative to the tile's
/// anchor, slot after slot.
spec fn slots_cells(slots: Seq<Option<RaytracingWork>>) -> Seq<(int, int)>
    decreases slots, 1nat,
{
    if slots.len() == 0 {
        Seq::empty()
    } else {
        slots_cells(slots.drop_last()) + slot_cells(slots.last())
    }
}

/// The units in the slots that are still filled.
spec fn filled(slots: Seq<Option<RaytracingWork>>) -> Seq<RaytracingWork>
    decreases slots.len(),
{
    if slots.len() == 0 {
        Seq::empty()
    } else {
        match slots.last() {
            None => filled(slots.drop_last()),
            Some(unit) => filled(slots.drop_last()).push(unit),
        }
    }
}

/// Every filled slot holds a unit that lies in the grid of `width` columns
/// and `height` rows.
spec fn slots_within(slots: Seq<Option<RaytracingWork>>, width: int, height: int) -> bool
    decreases slots,
{
    forall|i: int|
        0 <= i < slots.len() ==> match (#[trigger] slots[i]) {
            None => true,
            Some(unit) => unit.within(width, height),
        }
}

/// A slot that is filled holds a unit that lies in the grid of `width`
/// columns and `height` rows.
spec fn slot_within(slot: Option<RaytracingWork>, width: int, height: int) -> bool {
    match slot {
        None => true,
        Some(unit) => unit.within(width, height),
    }
}

/// The cells of a list of slots are those of the slots before one of them,
/// of that slot, and of the slots after it.
proof fn lemma_slots_cells_split(slots: Seq<Option<RaytracingWork>>, i: int)
    requires
        0 <= i < slots.len(),
    ensures
        slots_cells(slots) == slots_cells(slots.take(i)) + slot_cells(slots[i]) + slots_cells(
            slots.skip(i + 1),
        ),
    decreases slots.len(),
{
    if i == slots.len() - 1 {
        assert(slots.drop_last() == slots.take(i));
        assert(slots.skip(i + 1) == Seq::<Option<RaytracingWork>>::empty());
    } else {
        lemma_slots_cells_split(slots.drop_last(), i);
        assert(slots.drop_last().take(i) == slots.take(i));
        assert(slots.drop_last().skip(i + 1) == slots.skip(i + 1).drop_last());
        assert(slots.skip(i + 1).last() == slots.last());
    }
}

/// Slots that hold no cells hold none together.
proof fn lemma_slots_cells_empty(slots: Seq<Option<RaytracingWork>>)
    requires
        forall|j: int| 0 <= j < slots.len() ==> slot_cells(#[trigger] slots[j]).len() == 0,
    ensures
        slots_cells(slots) == Seq::<(int, int)>::empty(),
    decreases slots.len(),
{
    if slots.len() > 0 {
        lemma_slots_cells_empty(slots.drop_last());
        assert(slot_cells(slots[slots.len() - 1]).len() == 0);
    }
}

/// Two lists of slots that hold the same cells slot by slot hold the same
/// cells.
proof fn lemma_slots_cells_same(a: Seq<Option<RaytracingWork>>, b: Seq<Option<RaytracingWork>>)
    requires
        a.len() == b.len(),
        forall|j: int| 0 <= j < a.len() ==> slot_cells(#[trigger] a[j]) == slot_cells(b[j]),
    ensures
        slots_cells(a) == slots_cells(b),
    decreases a.len(),
{
    if a.len() > 0 {
        lemma_slots_cells_same(a.drop_last(), b.drop_last());
        assert(slot_cells(a[a.len() - 1]) == slot_cells(b[a.len() - 1]));
    }
}

/// Slots whose cells lie in a grid hold cells of that grid only.
proof fn lemma_slots_cells_within(slots: Seq<Option<RaytracingWork>>, width: int, height: int)
    requires
        forall|j: int|
            0 <= j < slots.len() ==> cells_within(slot_cells(#[trigger] slots[j]), width, height),
    ensures
        cells_within(slots_cells(slots), width, height),
    decreases slots.len(),
{
    if slots.len() > 0 {
        lemma_slots_cells_within(slots.drop_last(), width, height);
        assert(cells_within(slot_cells(slots[slots.len() - 1]), width, height));
    }
}

/// Slots filled with the units of a list, one each, hold these units and
/// their cells.
proof fn lemma_slots_of_units(slots: Seq<Option<RaytracingWork>>, units: Seq<RaytracingWork>)
    requires
        slots.len() == units.len(),
        forall|j: int| 0 <= j < slots.len() ==> #[trigger] slots[j] == Some(units[j]),
    ensures
        slots_cells(slots) == all_cells(units),
        filled(slots) == units,
    decreases slots.len(),
{
    if slots.len() == 0 {
        assert(units == Seq::<RaytracingWork>::empty());
    } else {
        assert(units == units.drop_last().push(units.last()));
        lemma_slots_of_units(slots.drop_last(), units.drop_last());
        assert(slots.last() == Some(units.last()));
        assert(slot_cells(slots.last()) == units.last().remaining());
    }
}

impl TileWork {
    /// The cells that the tile has not handed out yet, slot after slot, each
    /// moved by the tile's anchor.
    spec fn cells(self) -> Seq<(int, int)>
        decreases self, 2nat,
    {
        shift(slots_cells(self.sub_generation_work@), self.x as int, self.y as int)
    }

    /// The anchor lies in the grid or on its far border, and every filled
    /// slot holds a unit that lies in what is left of the grid beyond the
    /// anchor.
    spec fn within(self, width: int, height: int) -> bool
        decreases self, 1nat,
    {
        &&& self.x <= width
        &&& self.y <= height
        &&& slots_within(self.sub_generation_work@, width - self.x, height - self.y)
    }

    /// A tile that lies in a grid hands out cells of that grid only.
    proof fn lemma_cells_within(self, width: int, height: int)
        requires
            self.within(width, height),
        ensures
            cells_within(self.cells(), width, height),
        decreases self, 0nat,
    {
        let slots = self.sub_generation_work@;
        assert forall|j: int| 0 <= j < slots.len() implies cells_within(
            slot_cells(#[trigger] slots[j]),
            width - self.x,
            height - self.y,
        ) by {
            match slots[j] {
                None => {},
                Some(unit) => {
                    unit.lemma_within_cells(width - self.x, height - self.y);
                },
            }
        }
        lemma_slots_cells_within(slots, width - self.x, height - self.y);
    }

    /// Hands out the next cell of the first slot that has one left, moved by
    /// the anchor, and clears the slots before it.
    fn next_cell(&mut self) -> (cell: Option<(u32, u32)>)
        requires
            old(self).within(u32::MAX + 1, u32::MAX + 1),
        ensures
            final(self).x == old(self).x,
            final(self).y == old(self).y,
            forall|w: int, h: int| old(self).within(w, h) ==> #[trigger] final(self).within(w, h),
            match cell {
                Some(c) => {
                    &&& old(self).cells().len() > 0
                    &&& (c.0 as int, c.1 as int) == old(self).cells()[0]
                    &&& final(self).cells() == old(self).cells().skip(1)
                },
                None => {
                    &&& old(self).cells().len() == 0
                    &&& final(self).cells().len() == 0
                },
            },
        decreases *old(self),
    {
        let mut i: usize = 0;
        while i < self.sub_generation_work.len()
            invariant
                i <= self.sub_generation_work@.len(),
                self.sub_generation_work@.len() == old(self).sub_generation_work@.len(),
                self.x == old(self).x,
                self.y == old(self).y,
                old(self).within(u32::MAX + 1, u32::MAX + 1),
                forall|j: int|
                    i <= j < self.sub_generation_work@.len() ==> self.sub_generation_work@[j]
                        == old(self).sub_generation_work@[j],
                forall|j: int| 0 <= j < i ==> (#[trigger] self.sub_generation_work@[j]) is None,
                forall|j: int|
                    0 <= j < i ==> slot_cells(#[trigger] old(self).sub_generation_work@[j]).len()
                        == 0,
            decreases self.sub_generation_work@.len() - i,
        {
            let ghost slot = self.sub_generation_work@[i as int];
            let mut found: Option<(u32, u32)> = None;
            let mut clear: bool = false;
            proof {
                if slot is Some {
                    assert(old(self).sub_generation_work@[i as int] == slot);
                    slot->0.lemma_within_monotonic(
                        u32::MAX + 1 - self.x,
                        u32::MAX + 1 - self.y,
                        u32::MAX + 1,
                        u32::MAX + 1,
                    );
                    slot->0.lemma_within_cells(u32::MAX + 1 - self.x, u32::MAX + 1 - self.y);
                }
            }
            match &mut self.sub_generation_work[i] {
                None => {},
                Some(work) => {
                    found = work.get_next_work_pixel();
                    clear = found.is_none();
                },
            }
            match found {
                Some((pixel_x, pixel_y)) => {
                    proof {
                        let before = old(self).sub_generation_work@;
                        let after = self.sub_generation_work@;
                        let child = slot->0;
                        let first = child.remaining()[0];
                        assert(shift(child.remaining(), self.x as int, self.y as int)[0] == (
                            first.0 + self.x,
                            first.1 + self.y,
                        ));
                        lemma_slots_cells_split(before, i as int);
                        lemma_slots_cells_split(after, i as int);
                        lemma_slots_cells_empty(before.take(i as int));
                        lemma_slots_cells_empty(after.take(i as int));
                        assert(after.skip(i + 1) == before.skip(i + 1));
                        let rest = slots_cells(after.skip(i + 1));
                        assert(slots_cells(before) == child.remaining() + rest);
                        assert(slots_cells(after) == child.remaining().skip(1) + rest);
                        assert(self.cells() == old(self).cells().skip(1));
                        assert forall|w: int, h: int| old(self).within(w, h) implies (
                        #[trigger] self.within(w, h)) by {
                            assert forall|j: int| 0 <= j < after.len() implies match (
                            #[trigger] after[j]) {
                                None => true,
                                Some(unit) => unit.within(w - self.x, h - self.y),
                            } by {
                                if j == i {
                                    assert(before[j] == slot);
                                } else {
                                    assert(after[j] == before[j] || after[j] is None);
                                }
                            }
                        }
                    }
                    return Some((self.x + pixel_x, self.y + pixel_y));
                },
                None => {},
            }
            if clear {
                self.sub_generation_work[i] = None;
            }
            i += 1;
        }
        proof {
            lemma_slots_cells_empty(old(self).sub_generation_work@);
            lemma_slots_cells_empty(self.sub_generation_work@);
        }
        None
    }

    /// A tile with a copy of each unit that this tile holds.
    fn duplicate(&self) -> (copy: Self)
        ensures
            copy.x == self.x,
            copy.y == self.y,
            copy.cells() == self.cells(),
            forall|w: int, h: int| #[trigger] copy.within(w, h) == self.within(w, h),
        decreases self,
    {
        let mut slots: Vec<Option<RaytracingWork>> = Vec::new();
        let mut i: usize = 0;
        while i < self.sub_generation_work.len()
            invariant
                i <= self.sub_generation_work@.len(),
                slots@.len() == i,
                forall|j: int|
                    0 <= j < i ==> slot_cells(#[trigger] slots@[j]) == slot_cells(
                        self.sub_generation_work@[j],
                    ),
                forall|j: int, w: int, h: int|
                    0 <= j < i ==> #[trigger] slot_within(slots@[j], w, h) == slot_within(
                        self.sub_generation_work@[j],
                        w,
                        h,
                    ),
            decreases self.sub_generation_work@.len() - i,
        {
            let slot = match &self.sub_generation_work[i] {
                None => None,
                Some(unit) => Some(unit.duplicate()),
            };
            slots.push(slot);
            i += 1;
        }
        let copy = TileWork { x: self.x, y: self.y, sub_generation_work: slots };
        proof {
            lemma_slots_cells_same(slots@, self.sub_generation_work@);
            assert forall|w: int, h: int| #[trigger] copy.within(w, h) == self.within(w, h) by {
                let a = slots@;
                let b = self.sub_generation_work@;
                if slots_within(a, w - self.x, h - self.y) {
                    assert forall|j: int| 0 <= j < b.len() implies match (#[trigger] b[j]) {
                        None => true,
                        Some(unit) => unit.within(w - self.x, h - self.y),
                    } by {
                        assert(slot_within(a[j], w - self.x, h - self.y) == slot_within(
                            b[j],
                            w - self.x,
                            h - self.y,
                        ));
                    }
                }
                if slots_within(b, w - self.x, h - self.y) {
                    assert forall|j: int| 0 <= j < a.len() implies match (#[trigger] a[j]) {
                        None => true,
                        Some(unit) => unit.within(w - self.x, h - self.y),
                    } by {
                        assert(slot_within(a[j], w - self.x, h - self.y) == slot_within(
                            b[j],
                            w - self.x,
                            h - self.y,
                        ));
                    }
                }
            }
        }
        copy
    }

    /// Whether the tile lies in the grid of `width` columns and `height`
    /// rows.
    fn lies_within(&self, width: u64, height: u64) -> (inside: bool)
        ensures
            inside == self.within(width as int, height as int),
        decreases self,
    {
        if self.x as u64 > width || self.y as u64 > height {
            return false;
        }
        let mut i: usize = 0;
        while i < self.sub_generation_work.len()
            invariant
                i <= self.sub_generation_work@.len(),
                self.x <= width,
                self.y <= height,
                forall|j: int|
                    0 <= j < i ==> slot_within(
                        #[trigger] self.sub_generation_work@[j],
                        width - self.x,
                        height - self.y,
                    ),
            decreases self.sub_generation_work@.len() - i,
        {
            match &self.sub_generation_work[i] {
                None => {},
                Some(unit) => {
                    if !unit.lies_in(width - self.x as u64, height - self.y as u64) {
                        assert(!slot_within(
                            self.sub_generation_work@[i as int],
                            width - self.x,
                            height - self.y,
                        ));
                        return false;
                    }
                },
            }
            i += 1;
        }
        proof {
            assert forall|j: int| 0 <= j < self.sub_generation_work@.len() implies match (
            #[trigger] self.sub_generation_work@[j]) {
                None => true,
                Some(unit) => unit.within(width - self.x, height - self.y),
            } by {
                assert(slot_within(self.sub_generation_work@[j], width - self.x, height - self.y));
            }
        }
        true
    }

    /// Whether no slot has a cell left.
    fn is_exhausted(&self) -> (exhausted: bool)
        ensures
            exhausted == (self.cells().len() == 0),
        decreases self,
    {
        let mut i: usize = 0;
        while i < self.sub_generation_work.len()
            invariant
                i <= self.sub_generation_work@.len(),
                forall|j: int|
                    0 <= j < i ==> slot_cells(#[trigger] self.sub_generation_work@[j]).len() == 0,
            decreases self.sub_generation_work@.len() - i,
        {
            match &self.sub_generation_work[i] {
                None => {},
                Some(unit) => {
                    if !unit.is_exhausted() {
                        proof {
                            lemma_slots_cells_split(self.sub_generation_work@, i as int);
                        }
                        return false;
                    }
                },
            }
            i += 1;
        }
        proof {
            lemma_slots_cells_empty(self.sub_generation_work@);
        }
        true
    }
}

impl RaytracingWork {
    /// The cells that this unit has not handed out yet, in the order in
    /// which `get_next_work_pixel` will hand them out.
    pub closed spec fn remaining(self) -> Seq<(int, int)>
        decreases self, 3nat,
    {
        match self {
            RaytracingWork::Pixel(work) => if work.taken {
                Seq::empty()
            } else {
                seq![(work.x as int, work.y as int)]
            },
            RaytracingWork::Line(work) => if work.current_x <= work.width {
                line_cells(work.x as int, work.y as int, work.width as nat, work.reverse).skip(
                    work.current_x as int,
                )
            } else {
                Seq::empty()
            },
            RaytracingWork::Stripe(work) => if work.current_y <= work.height {
                stripe_cells(work.x as int, work.y as int, work.height as nat, work.reverse).skip(
                    work.current_y as int,
                )
            } else {
                Seq::empty()
            },
            RaytracingWork::Tile(work) => work.cells(),
        }
    }

    /// The unit lies in the grid of `width` columns and `height` rows: its
    /// whole run does, handed out or not, and for a tile its anchor and
    /// every unit it still holds, placed at the anchor.
    pub closed spec fn within(self, width: int, height: int) -> bool
        decreases self, 2nat,
    {
        match self {
            RaytracingWork::Pixel(work) => work.x < width && work.y < height,
            RaytracingWork::Line(work) => work.current_x <= work.width && work.x + work.width
                <= width && work.y < height,
            RaytracingWork::Stripe(work) => work.current_y <= work.height && work.x < width
                && work.y + work.height <= height,
            RaytracingWork::Tile(work) => work.within(width, height),
        }
    }

    /// The units that a tile still holds, in the order of their slots. A
    /// unit of another kind holds none.
    pub closed spec fn children(self) -> Seq<RaytracingWork> {
        match self {
            RaytracingWork::Tile(work) => filled(work.sub_generation_work@),
            _ => Seq::empty(),
        }
    }

    /// The cell that the unit is placed at: the first cell of a run, and for
    /// a tile the cell by which the units it holds are moved.
    pub closed spec fn anchor(self) -> (int, int) {
        match self {
            RaytracingWork::Pixel(work) => (work.x as int, work.y as int),
            RaytracingWork::Line(work) => (work.x as int, work.y as int),
            RaytracingWork::Stripe(work) => (work.x as int, work.y as int),
            RaytracingWork::Tile(work) => (work.x as int, work.y as int),
        }
    }

    /// Every coordinate of the unit fits a `u32`, so that each cell it hands
    /// out can be computed: the unit lies in the grid of all such cells.
    pub open spec fn wf(self) -> bool {
        self.within(u32::MAX + 1, u32::MAX + 1)
    }

    /// A unit that lies in a grid lies in every larger grid.
    pub proof fn lemma_within_monotonic(self, width: int, height: int, wider: int, higher: int)
        requires
            self.within(width, height),
            width <= wider,
            height <= higher,
        ensures
            self.within(wider, higher),
        decreases self,
    {
        match self {
            RaytracingWork::Tile(work) => {
                let slots = work.sub_generation_work@;
                assert forall|i: int| 0 <= i < slots.len() implies match (#[trigger] slots[i]) {
                    None => true,
                    Some(unit) => unit.within(wider - work.x, higher - work.y),
                } by {
                    match slots[i] {
                        None => {},
                        Some(unit) => {
                            unit.lemma_within_monotonic(
                                width - work.x,
                                height - work.y,
                                wider - work.x,
                                higher - work.y,
                            );
                        },
                    }
                }
            },
            _ => {},
        }
    }

    /// A unit that lies in a grid hands out cells of that grid only.
    pub proof fn lemma_within_cells(self, width: int, height: int)
        requires
            self.within(width, height),
        ensures
            cells_within(self.remaining(), width, height),
        decreases self, 1nat,
    {
        match self {
            RaytracingWork::Tile(work) => {
                work.lemma_cells_within(width, height);
            },
            _ => {},
        }
    }

    /// A single cell.
    pub fn pixel(x: u32, y: u32) -> (work: Self)
        ensures
            work is Pixel,
            work.anchor() == (x as int, y as int),
            work.remaining() == seq![(x as int, y as int)],
            forall|w: int, h: int| #[trigger] work.within(w, h) <==> x < w && y < h,
    {
        Self::Pixel(PixelWork { x, y, taken: false })
    }

    /// A row of `width` cells whose leftmost cell is `(x, y)`, handed out
    /// from the left, or from the right where `reverse` holds.
    pub fn line(x: u32, y: u32, width: u32, reverse: bool) -> (work: Self)
        ensures
            work is Line,
            work.anchor() == (x as int, y as int),
            work.remaining() == line_cells(x as int, y as int, width as nat, reverse),
            forall|w: int, h: int| #[trigger] work.within(w, h) <==> x + width <= w && y < h,
    {
        Self::Line(LineWork { x, y, width, current_x: 0, reverse })
    }

    /// A column of `height` cells whose topmost cell is `(x, y)`, handed
    /// out from the top, or from the bottom where `reverse` holds.
    pub fn stripe(x: u32, y: u32, height: u32, reverse: bool) -> (work: Self)
        ensures
            work is Stripe,
            work.anchor() == (x as int, y as int),
            work.remaining() == stripe_cells(x as int, y as int, height as nat, reverse),
            forall|w: int, h: int| #[trigger] work.within(w, h) <==> x < w && y + height <= h,
    {
        Self::Stripe(StripeWork { x, y, height, current_y: 0, reverse })
    }

    /// A tile that holds the units of `sub_work`, one in each slot, and
    /// hands out their cells unit after unit, each moved by `(x, y)`.
    pub fn tile(x: u32, y: u32, sub_work: Vec<Self>) -> (work: Self)
        ensures
            work is Tile,
            work.anchor() == (x as int, y as int),
            work.children() == sub_work@,
            work.remaining() == shift(all_cells(sub_work@), x as int, y as int),
            forall|w: int, h: int| #[trigger]
                work.within(w, h) <==> x <= w && y <= h && all_within(sub_work@, w - x, h - y),
    {
        let ghost units = sub_work@;
        let mut slots: Vec<Option<Self>> = Vec::new();
        for unit in it: sub_work
            invariant
                it.seq() == units,
                slots@.len() == it.index(),
                forall|j: int| 0 <= j < slots@.len() ==> slots@[j] == Some(units[j]),
        {
            slots.push(Some(unit));
        }
        let work = Self::Tile(TileWork { x, y, sub_generation_work: slots });
        proof {
            lemma_slots_of_units(slots@, units);
            assert forall|w: int, h: int| #[trigger]
                work.within(w, h) <==> x <= w && y <= h && all_within(units, w - x, h - y) by {
                if slots_within(slots@, w - x, h - y) {
                    assert forall|i: int| 0 <= i < units.len() implies (#[trigger] units[i]).within(
                        w - x,
                        h - y,
                    ) by {
                        assert(slots@[i] == Some(units[i]));
                    }
                }
                if all_within(units, w - x, h - y) {
                    assert forall|i: int| 0 <= i < slots@.len() implies match (#[trigger] slots@[i]) {
                        None => true,
                        Some(unit) => unit.within(w - x, h - y),
                    } by {
                        assert(slots@[i] == Some(units[i]));
                    }
                }
            }
        }
        work
    }


    /// Hands out the next cell of the unit, if it has one left.
    pub fn get_next_work_pixel(&mut self) -> (cell: Option<(u32, u32)>)
        requires
            old(self).wf(),
        ensures
            final(self).anchor() == old(self).anchor(),
            forall|w: int, h: int| old(self).within(w, h) ==> #[trigger] final(self).within(w, h),
            match cell {
                Some(c) => {
                    &&& old(self).remaining().len() > 0
                    &&& (c.0 as int, c.1 as int) == old(self).remaining()[0]
                    &&& final(self).remaining() == old(self).remaining().skip(1)
                },
                None => {
                    &&& old(self).remaining().len() == 0
                    &&& final(self).remaining().len() == 0
                },
            },
        decreases *old(self),
    {
        match self {
            RaytracingWork::Pixel(work) => {
                if work.taken {
                    return None;
                }
                work.taken = true;
                assert(seq![(work.x as int, work.y as int)].skip(1) == Seq::<(int, int)>::empty());
                Some((work.x, work.y))
            },
            RaytracingWork::Line(work) => {
                if work.current_x >= work.width {
                    return None;
                }
                let offset: u32 = if work.reverse {
                    work.width - 1 - work.current_x
                } else {
                    work.current_x
                };
                proof {
                    let cells = line_cells(
                        work.x as int,
                        work.y as int,
                        work.width as nat,
                        work.reverse,
                    );
                    assert(cells.skip(work.current_x as int).skip(1) == cells.skip(
                        work.current_x + 1,
                    ));
                }
                work.current_x = work.current_x + 1;
                Some((work.x + offset, work.y))
            },
            RaytracingWork::Stripe(work) => {
                if work.current_y >= work.height {
                    return None;
                }
                let offset: u32 = if work.reverse {
                    work.height - 1 - work.current_y
                } else {
                    work.current_y
                };
                proof {
                    let cells = stripe_cells(
                        work.x as int,
                        work.y as int,
                        work.height as nat,
                        work.reverse,
                    );
                    assert(cells.skip(work.current_y as int).skip(1) == cells.skip(
                        work.current_y + 1,
                    ));
                }
                work.current_y = work.current_y + 1;
                Some((work.x, work.y + offset))
            },
            RaytracingWork::Tile(tile_work) => {
                let ghost before = *tile_work;
                let cell = tile_work.next_cell();
                proof {
                    assert forall|w: int, h: int|
                        RaytracingWork::Tile(before).within(w, h) implies #[trigger] (
                    RaytracingWork::Tile(*tile_work).within(w, h)) by {
                        assert(before.within(w, h));
                        assert(tile_work.within(w, h));
                    }
                }
                cell
            },
        }
    }

    /// Splits the unit into single cells, which together hand out the same
    /// cells in the same order: a single cell stays as it is, and a row, a
    /// column or a tile becomes one unit for each cell it has left, placed
    /// where the cell lies in the grid.
    pub fn to_sub_work(self) -> (work: Vec<RaytracingWork>)
        requires
            self.wf(),
        ensures
            all_cells(work@) == self.remaining(),
            forall|w: int, h: int| self.within(w, h) ==> #[trigger] all_within(work@, w, h),
            self is Pixel ==> work@ == seq![self],
            !(self is Pixel) ==> all_pixels(work@) && work@.len() == self.remaining().len(),
    {
        match self {
            RaytracingWork::Pixel(pixel) => {
                let mut work: Vec<RaytracingWork> = Vec::new();
                work.push(RaytracingWork::Pixel(pixel));
                proof {
                    assert(work@ == seq![self]);
                    lemma_all_cells_push(Seq::empty(), self);
                    assert(work@ == Seq::<RaytracingWork>::empty().push(self));
                    assert(Seq::<(int, int)>::empty() + self.remaining() == self.remaining());
                }
                work
            },
            RaytracingWork::Line(line) => Self::drain(RaytracingWork::Line(line)),
            RaytracingWork::Stripe(stripe) => Self::drain(RaytracingWork::Stripe(stripe)),
            RaytracingWork::Tile(tile) => Self::drain(RaytracingWork::Tile(tile)),
        }
    }

    /// Hands out every cell that is left, each as a unit of its own.
    fn drain(unit: Self) -> (work: Vec<RaytracingWork>)
        requires
            unit.wf(),
        ensures
            all_cells(work@) == unit.remaining(),
            work@.len() == unit.remaining().len(),
            all_pixels(work@),
            forall|w: int, h: int| unit.within(w, h) ==> #[trigger] all_within(work@, w, h),
    {
        let ghost start = unit;
        let ghost cells = unit.remaining();
        let mut unit = unit;
        let mut work: Vec<RaytracingWork> = Vec::new();
        let mut next = unit.get_next_work_pixel();
        while next.is_some()
            invariant
                unit.wf(),
                work@.len() <= cells.len(),
                match next {
                    Some(c) => {
                        &&& work@.len() < cells.len()
                        &&& (c.0 as int, c.1 as int) == cells[work@.len() as int]
                        &&& unit.remaining() == cells.skip(work@.len() as int + 1)
                    },
                    None => work@.len() == cells.len(),
                },
                all_cells(work@) == cells.take(work@.len() as int),
                all_pixels(work@),
                forall|w: int, h: int|
                    cells_within(cells, w, h) ==> #[trigger] all_within(work@, w, h),
            decreases cells.len() - work@.len(),
        {
            let ghost units = work@;
            let (x, y) = next.unwrap();
            let pixel = RaytracingWork::pixel(x, y);
            work.push(pixel);
            proof {
                lemma_all_cells_push(units, pixel);
                assert(cells.take(units.len() as int) + seq![cells[units.len() as int]]
                    == cells.take(units.len() as int + 1));
                assert forall|w: int, h: int| cells_within(cells, w, h) implies (
                #[trigger] all_within(work@, w, h)) by {
                    assert(all_within(units, w, h));
                    assert(0 <= cells[units.len() as int].0 < w);
                }
                if units.len() + 2 <= cells.len() {
                    assert(cells.skip(units.len() as int + 1).skip(1) == cells.skip(
                        units.len() as int + 2,
                    ));
                }
            }
            next = unit.get_next_work_pixel();
        }
        proof {
            assert(cells.take(cells.len() as int) == cells);
            assert forall|w: int, h: int| start.within(w, h) implies #[trigger] all_within(
                work@,
                w,
                h,
            ) by {
                start.lemma_within_cells(w, h);
            }
        }
        work
    }

    /// A unit that goes on where this unit stands.
    fn duplicate(&self) -> (copy: Self)
        ensures
            is_copy(copy, *self),
        decreases self,
    {
        match self {
            RaytracingWork::Pixel(work) => {
                RaytracingWork::Pixel(PixelWork { x: work.x, y: work.y, taken: work.taken })
            },
            RaytracingWork::Line(work) => {
                RaytracingWork::Line(
                    LineWork {
                        x: work.x,
                        y: work.y,
                        width: work.width,
                        current_x: work.current_x,
                        reverse: work.reverse,
                    },
                )
            },
            RaytracingWork::Stripe(work) => {
                RaytracingWork::Stripe(
                    StripeWork {
                        x: work.x,
                        y: work.y,
                        height: work.height,
                        current_y: work.current_y,
                        reverse: work.reverse,
                    },
                )
            },
            RaytracingWork::Tile(work) => {
                let copy = work.duplicate();
                proof {
                        assert forall|w: int, h: int| #[trigger]
                        RaytracingWork::Tile(copy).within(w, h) == self.within(w, h) by {
                        assert(copy.within(w, h) == work.within(w, h));
                    }
                }
                RaytracingWork::Tile(copy)
            },
        }
    }

    /// Whether the unit lies in the grid of `width` columns and `height`
    /// rows.
    pub fn lies_within(&self, width: u32, height: u32) -> (inside: bool)
        ensures
            inside == self.within(width as int, height as int),
    {
        self.lies_in(width as u64, height as u64)
    }

    /// Whether the unit lies in the grid of `width` columns and `height`
    /// rows, which may be the grid of all cells that fit a `u32`.
    fn lies_in(&self, width: u64, height: u64) -> (inside: bool)
        ensures
            inside == self.within(width as int, height as int),
        decreases self,
    {
        match self {
            RaytracingWork::Pixel(work) => (work.x as u64) < width && (work.y as u64) < height,
            RaytracingWork::Line(work) => work.current_x <= work.width && work.x as u64
                + work.width as u64 <= width && (work.y as u64) < height,
            RaytracingWork::Stripe(work) => work.current_y <= work.height && (work.x as u64)
                < width && work.y as u64 + work.height as u64 <= height,
            RaytracingWork::Tile(work) => work.lies_within(width, height),
        }
    }

    /// Whether the unit is well formed, so that its cells can be taken.
    pub fn is_well_formed(&self) -> (well_formed: bool)
        ensures
            well_formed == self.wf(),
    {
        self.lies_in(4294967296u64, 4294967296u64)
    }

    /// Whether the unit has handed out all of its cells.
    pub fn is_exhausted(&self) -> (exhausted: bool)
        ensures
            exhausted == (self.remaining().len() == 0),
        decreases self,
    {
        match self {
            RaytracingWork::Pixel(work) => work.taken,
            RaytracingWork::Line(work) => work.current_x >= work.width,
            RaytracingWork::Stripe(work) => work.current_y >= work.height,
            RaytracingWork::Tile(work) => work.is_exhausted(),
        }
    }
}

impl Clone for RaytracingWork {
    fn clone(&self) -> (copy: Self)
        ensures
            is_copy(copy, *self),
    {
        self.duplicate()
    }
}

} // verus!
