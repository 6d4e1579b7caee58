//! Regions of the terrain grid: the coarse partition of the grid into
//! regions, the kind that each region is given at random, and the random
//! spanning tree that links neighbouring regions.

use crate::field::{FIELD_COLUMN_SIZE, FIELD_ROW_SIZE};
use crate::grid::Direction;
use crate::random::{draw_at, low_byte, scaled, skip, Random};
use crate::random::{lemma_scaled_bounds, lemma_skip_one_more};
use vstd::prelude::*;

verus! {

/// The least number of rows and of columns that a region spans.
pub const AREA_SIZE_MIN: usize = 8;

/// The margin that a room or a relay point keeps to the border of its region,
/// on every side.
pub const AREA_PADDING: usize = 2;

/// The least number of rows and of columns of a room.
pub const ROOM_SIZE_MIN: usize = AREA_SIZE_MIN - AREA_PADDING * 2;

/// The least number of grid rows and columns that a partition gives to each
/// region, the wall line before it included.
pub const AREA_SPAN_MIN: usize = 10;

/// The largest number of regions of a partition.
pub const AREA_COUNT_MAX: usize = 24;

/// The least number of rooms of a partition that is accepted.
pub const ROOM_COUNT_MIN: usize = 4;

/// How many partitions are drawn before the synthesis gives up.
pub const SYNTHESIS_ATTEMPTS: usize = 64;

/// A byte draw below this bound makes a region wall-filled.
pub const WALL_FILLED_BELOW: u8 = 3;

/// A byte draw below this bound, and not below `WALL_FILLED_BELOW`, makes a
/// region a pathway; any other byte makes it a room.
pub const PATH_WAY_BELOW: u8 = 16;

/// Why a generation failed.
#[derive(Copy, Clone, Debug, PartialEq, Eq, Structural)]
pub enum GenerationError {
    /// The shape asks for no region, for regions of less than
    /// `AREA_SPAN_MIN` rows or columns, or for more than `AREA_COUNT_MAX`
    /// regions.
    InvalidShape,
    /// The draws did not give an acceptable result within the budget.
    GenerationExhausted,
}

/// What a region holds. Coordinates are local to the region: row `0`,
/// column `0` is the region's first cell.
#[derive(Copy, Clone, Debug, PartialEq, Eq, Structural)]
pub enum AreaKind {
    /// An open rectangle of `row` rows and `column` columns whose first cell
    /// is at row `x`, column `y`.
    Room { x: usize, y: usize, row: usize, column: usize },
    /// No open area, but a relay point at row `relay_x`, column `relay_y`
    /// through which corridors cross the region.
    PathWay { relay_x: usize, relay_y: usize },
    /// Solid rock: nothing is opened here but the corridors that are led
    /// through the region, which cross it at its centre.
    WallFilled,
    /// Not assigned yet.
    Unassigned,
}

/// One region of the partition: a rectangle of `rows` by `columns` cells
/// whose first cell is the cell at row `x`, column `y` of the grid.
#[derive(Copy, Clone, Debug, PartialEq, Eq, Structural)]
pub struct Area {
    pub kind: AreaKind,
    pub x: usize,
    pub y: usize,
    pub rows: usize,
    pub columns: usize,
}

impl AreaKind {
    /// Whether the geometry lies inside a region of `rows` by `columns`
    /// cells and keeps the padding margin to its border: a room has at least
    /// `ROOM_SIZE_MIN` rows and columns.
    pub open spec fn fits(self, rows: int, columns: int) -> bool {
        match self {
            AreaKind::Room { x, y, row, column } => {
                &&& row >= ROOM_SIZE_MIN
                &&& column >= ROOM_SIZE_MIN
                &&& x >= AREA_PADDING
                &&& y >= AREA_PADDING
                &&& x + row + AREA_PADDING <= rows
                &&& y + column + AREA_PADDING <= columns
            },
            AreaKind::PathWay { relay_x, relay_y } => {
                &&& AREA_PADDING <= relay_x
                &&& relay_x + AREA_PADDING < rows
                &&& AREA_PADDING <= relay_y
                &&& relay_y + AREA_PADDING < columns
            },
            AreaKind::WallFilled => true,
            AreaKind::Unassigned => true,
        }
    }

    /// How many draws follow the byte draw `selection` when a kind is drawn.
    pub open spec fn draws_after(selection: u8) -> nat {
        if selection < WALL_FILLED_BELOW {
            0
        } else if selection < PATH_WAY_BELOW {
            2
        } else {
            4
        }
    }

    /// The kind that the byte draw `selection` and the draws `d1` to `d4`
    /// after it give to a region of `rows` by `columns` cells.
    ///
    /// A pathway places its relay with `d1` (row) and `d2` (column), each
    /// uniformly among the cells that keep the padding. A room takes its
    /// number of rows from `d1` and of columns from `d2`, each between
    /// `ROOM_SIZE_MIN` and what the padding leaves, and then its place from
    /// `d3` (row) and `d4` (column), among the places that keep the padding.
    pub open spec fn drawn(
        selection: u8,
        d1: u32,
        d2: u32,
        d3: u32,
        d4: u32,
        rows: int,
        columns: int,
    ) -> AreaKind {
        if selection < WALL_FILLED_BELOW {
            AreaKind::WallFilled
        } else if selection < PATH_WAY_BELOW {
            AreaKind::PathWay {
                relay_x: (AREA_PADDING + scaled(d1, (rows - 2 * AREA_PADDING - 1) as u32)) as usize,
                relay_y: (AREA_PADDING + scaled(d2, (columns - 2 * AREA_PADDING - 1) as u32)) as usize,
            }
        } else {
            let row = ROOM_SIZE_MIN + scaled(d1, (rows - 2 * AREA_PADDING - ROOM_SIZE_MIN) as u32);
            let column = ROOM_SIZE_MIN + scaled(
                d2,
                (columns - 2 * AREA_PADDING - ROOM_SIZE_MIN) as u32,
            );
            AreaKind::Room {
                x: (AREA_PADDING + scaled(d3, (rows - row - 2 * AREA_PADDING) as u32)) as usize,
                y: (AREA_PADDING + scaled(d4, (columns - column - 2 * AREA_PADDING) as u32)) as usize,
                row: row as usize,
                column: column as usize,
            }
        }
    }

    /// Every kind that can be drawn for a region fits the region.
    pub proof fn lemma_drawn_fits(
        selection: u8,
        d1: u32,
        d2: u32,
        d3: u32,
        d4: u32,
        rows: int,
        columns: int,
    )
        requires
            AREA_SIZE_MIN <= rows <= u32::MAX,
            AREA_SIZE_MIN <= columns <= u32::MAX,
        ensures
            AreaKind::drawn(selection, d1, d2, d3, d4, rows, columns).fits(rows, columns),
            AreaKind::drawn(selection, d1, d2, d3, d4, rows, columns) !is Unassigned,
    {
        lemma_scaled_bounds(d1, (rows - 2 * AREA_PADDING - 1) as u32);
        lemma_scaled_bounds(d2, (columns - 2 * AREA_PADDING - 1) as u32);
        lemma_scaled_bounds(d1, (rows - 2 * AREA_PADDING - ROOM_SIZE_MIN) as u32);
        lemma_scaled_bounds(d2, (columns - 2 * AREA_PADDING - ROOM_SIZE_MIN) as u32);
        let row = ROOM_SIZE_MIN + scaled(d1, (rows - 2 * AREA_PADDING - ROOM_SIZE_MIN) as u32);
        let column = ROOM_SIZE_MIN + scaled(
            d2,
            (columns - 2 * AREA_PADDING - ROOM_SIZE_MIN) as u32,
        );
        lemma_scaled_bounds(d3, (rows - row - 2 * AREA_PADDING) as u32);
        lemma_scaled_bounds(d4, (columns - column - 2 * AREA_PADDING) as u32);
    }
}

impl Area {
    /// Whether the region lies in the grid with a wall line before its first
    /// row and its first column, spans at least `AREA_SIZE_MIN` rows and
    /// columns, and holds a kind that fits it.
    pub open spec fn well_formed(self) -> bool {
        &&& self.rows >= AREA_SIZE_MIN
        &&& self.columns >= AREA_SIZE_MIN
        &&& self.x >= 1
        &&& self.y >= 1
        &&& self.x + self.rows <= FIELD_ROW_SIZE
        &&& self.y + self.columns <= FIELD_COLUMN_SIZE
        &&& self.kind.fits(self.rows as int, self.columns as int)
    }

    /// Whether the region holds a room.
    pub open spec fn is_room(self) -> bool {
        self.kind is Room
    }

    /// The grid cell, as `(row, column)`, that stands for the region when a
    /// corridor is led to it: the centre of the room, the relay point of a
    /// pathway, and else the centre of the region.
    pub open spec fn spec_anchor(self) -> (int, int) {
        match self.kind {
            AreaKind::Room { x, y, row, column } => (
                self.x + x + row / 2,
                self.y + y + column / 2,
            ),
            AreaKind::PathWay { relay_x, relay_y } => (self.x + relay_x, self.y + relay_y),
            AreaKind::WallFilled => (self.x + self.rows / 2, self.y + self.columns / 2),
            AreaKind::Unassigned => (self.x + self.rows / 2, self.y + self.columns / 2),
        }
    }

    /// The grid cell on the line around the region that is reached from the
    /// anchor by going straight in `direction`: the wall line before the
    /// first row or column, or the line after the last. A diagonal goes to
    /// both lines, and so to a corner.
    pub open spec fn spec_border(self, direction: Direction) -> (int, int) {
        let anchor = self.spec_anchor();
        (
            if direction.dx() < 0 {
                self.x - 1
            } else if direction.dx() > 0 {
                self.x + self.rows
            } else {
                anchor.0
            },
            if direction.dy() < 0 {
                self.y - 1
            } else if direction.dy() > 0 {
                self.y + self.columns
            } else {
                anchor.1
            },
        )
    }

    /// The anchor of a well-formed region keeps the padding margin to the
    /// border of the region, and so lies inside the outer ring of the grid.
    pub proof fn lemma_anchor_inside(self)
        requires
            self.well_formed(),
        ensures
            self.x + AREA_PADDING <= self.spec_anchor().0 < self.x + self.rows - AREA_PADDING,
            self.y + AREA_PADDING <= self.spec_anchor().1 < self.y + self.columns - AREA_PADDING,
            self.is_room() ==> self.in_room(self.spec_anchor().0, self.spec_anchor().1),
    {
    }

    /// Whether the region holds a room and the grid cell `(row, column)`
    /// lies in it.
    pub open spec fn in_room(self, row: int, column: int) -> bool {
        self.kind matches AreaKind::Room { x, y, row: room_rows, column: room_columns }
            && self.x + x <= row < self.x + x + room_rows
            && self.y + y <= column < self.y + y + room_columns
    }

    /// The region of `rows` by `columns` cells, with its first cell at row
    /// `x`, column `y` of the grid, whose kind the next draws of `source`
    /// give: the byte draw that selects the kind, and the draws after it.
    pub open spec fn drawn<R: Random>(
        source: R,
        x: usize,
        y: usize,
        rows: usize,
        columns: usize,
    ) -> Area {
        Area {
            kind: AreaKind::drawn(
                low_byte(draw_at(source, 0)),
                draw_at(source, 1),
                draw_at(source, 2),
                draw_at(source, 3),
                draw_at(source, 4),
                rows as int,
                columns as int,
            ),
            x,
            y,
            rows,
            columns,
        }
    }

    /// The source that is left of `source` when the kind of one region was
    /// drawn from it.
    pub open spec fn source_after<R: Random>(source: R) -> R {
        skip(source, 1 + AreaKind::draws_after(low_byte(draw_at(source, 0))))
    }

    /// Draws the kind of the region of `rows` by `columns` cells whose first
    /// cell is at row `x`, column `y` of the grid: one byte draw that selects
    /// among wall-filled, pathway and room, then the draws that place the
    /// relay or size and place the room.
    pub fn gen<R: Random>(rnd: &mut R, x: usize, y: usize, rows: usize, columns: usize) -> (area:
        Area)
        requires
            rows >= AREA_SIZE_MIN,
            columns >= AREA_SIZE_MIN,
            rows <= u32::MAX,
            columns <= u32::MAX,
        ensures
            area == Area::drawn(*old(rnd), x, y, rows, columns),
            *final(rnd) == Area::source_after(*old(rnd)),
            area.kind.fits(rows as int, columns as int),
            area.kind !is Unassigned,
    {
        proof {
            AreaKind::lemma_drawn_fits(
                low_byte(draw_at(*old(rnd), 0)),
                draw_at(*old(rnd), 1),
                draw_at(*old(rnd), 2),
                draw_at(*old(rnd), 3),
                draw_at(*old(rnd), 4),
                rows as int,
                columns as int,
            );
            lemma_skip_one_more(*old(rnd), 0);
            lemma_skip_one_more(*old(rnd), 1);
            lemma_skip_one_more(*old(rnd), 2);
            lemma_skip_one_more(*old(rnd), 3);
            lemma_skip_one_more(*old(rnd), 4);
        }
        let kind_selection = rnd.gen_u8();
        let kind = if kind_selection < WALL_FILLED_BELOW {
            AreaKind::WallFilled
        } else if kind_selection < PATH_WAY_BELOW {
            let relay_x = AREA_PADDING + rnd.gen_max((rows - AREA_PADDING * 2 - 1) as u32) as usize;
            let relay_y = AREA_PADDING + rnd.gen_max((columns - AREA_PADDING * 2 - 1) as u32) as usize;
            AreaKind::PathWay { relay_x, relay_y }
        } else {
            let room_rows = ROOM_SIZE_MIN + rnd.gen_max(
                (rows - AREA_PADDING * 2 - ROOM_SIZE_MIN) as u32,
            ) as usize;
            let room_columns = ROOM_SIZE_MIN + rnd.gen_max(
                (columns - AREA_PADDING * 2 - ROOM_SIZE_MIN) as u32,
            ) as usize;
            let room_x = AREA_PADDING + rnd.gen_max(
                (rows - room_rows - AREA_PADDING * 2) as u32,
            ) as usize;
            let room_y = AREA_PADDING + rnd.gen_max(
                (columns - room_columns - AREA_PADDING * 2) as u32,
            ) as usize;
            AreaKind::Room { x: room_x, y: room_y, row: room_rows, column: room_columns }
        };
        Area { kind, x, y, rows, columns }
    }

    /// The place of the region in the coarse grid of regions, as `(row,
    /// column)`: how many spans of a region and its wall line lie before it.
    pub open spec fn spec_coarse(self) -> (int, int) {
        ((self.x - 1) / (self.rows + 1), (self.y - 1) / (self.columns + 1))
    }

    /// The place of the region in the coarse grid of regions.
    pub fn coarse(&self) -> (p: (usize, usize))
        requires
            self.well_formed(),
        ensures
            (p.0 as int, p.1 as int) == self.spec_coarse(),
    {
        ((self.x - 1) / (self.rows + 1), (self.y - 1) / (self.columns + 1))
    }

    /// The anchor of the region, as `(row, column)` of the grid.
    pub fn anchor(&self) -> (p: (usize, usize))
        requires
            self.well_formed(),
        ensures
            (p.0 as int, p.1 as int) == self.spec_anchor(),
    {
        match self.kind {
            AreaKind::Room { x, y, row, column } => (self.x + x + row / 2, self.y + y + column / 2),
            AreaKind::PathWay { relay_x, relay_y } => (self.x + relay_x, self.y + relay_y),
            AreaKind::WallFilled => (self.x + self.rows / 2, self.y + self.columns / 2),
            AreaKind::Unassigned => (self.x + self.rows / 2, self.y + self.columns / 2),
        }
    }

    /// The straight stretch by which the region reaches out in `direction`:
    /// from its anchor to the line around the region on that side. A
    /// corridor to the neighbour on that side starts with this stretch.
    pub fn reach_out(&self, direction: Direction) -> (r: ((usize, usize), (usize, usize)))
        requires
            self.well_formed(),
        ensures
            (r.0.0 as int, r.0.1 as int) == self.spec_anchor(),
            (r.1.0 as int, r.1.1 as int) == self.spec_border(direction),
    {
        let anchor = self.anchor();
        let row = match direction {
            Direction::Up | Direction::UpLeft | Direction::UpRight => self.x - 1,
            Direction::Down | Direction::DownLeft | Direction::DownRight => self.x + self.rows,
            Direction::Left | Direction::Right => anchor.0,
        };
        let column = match direction {
            Direction::Left | Direction::UpLeft | Direction::DownLeft => self.y - 1,
            Direction::Right | Direction::UpRight | Direction::DownRight => self.y + self.columns,
            Direction::Up | Direction::Down => anchor.1,
        };
        (anchor, (row, column))
    }
}

/// Whether the grid can be split into `rows` by `columns` regions: there is
/// at least one region, each region gets at least `AREA_SPAN_MIN` grid rows
/// and columns, and there are at most `AREA_COUNT_MAX` regions.
pub open spec fn valid_shape(rows: int, columns: int) -> bool {
    &&& rows >= 1
    &&& columns >= 1
    &&& FIELD_ROW_SIZE as int / rows >= AREA_SPAN_MIN
    &&& FIELD_COLUMN_SIZE as int / columns >= AREA_SPAN_MIN
    &&& rows * columns <= AREA_COUNT_MAX
}

/// The number of grid rows that each region of a partition into `rows` rows
/// of regions is given: one wall line and the rows of the region.
pub open spec fn row_span(rows: int) -> int {
    FIELD_ROW_SIZE as int / rows
}

/// The number of grid columns that each region of a partition into `columns`
/// columns of regions is given: one wall line and the columns of the region.
pub open spec fn column_span(columns: int) -> int {
    FIELD_COLUMN_SIZE as int / columns
}

/// The grid row of the first cell of the region that stands at `index`, in
/// row-major order, in a partition into `rows` by `columns` regions: the
/// row after the wall line that starts the span of its row of regions.
pub open spec fn region_x(index: int, rows: int, columns: int) -> int {
    (index / columns) * row_span(rows) + 1
}

/// The grid column of the first cell of the region that stands at `index`,
/// in row-major order, in a partition into `columns` columns of regions.
pub open spec fn region_y(index: int, columns: int) -> int {
    (index % columns) * column_span(columns) + 1
}

/// The source that is left of `source` when the kinds of `count` regions
/// were drawn from it, one after the other.
pub open spec fn partition_source<R: Random>(source: R, count: nat) -> R
    decreases count,
{
    if count == 0 {
        source
    } else {
        Area::source_after(partition_source(source, (count - 1) as nat))
    }
}

/// The partition of the grid into `rows` by `columns` regions that the
/// draws of `source` give: the regions in row-major order, each with the
/// kind drawn for it from what the regions before it left of the source.
pub open spec fn partitioned<R: Random>(source: R, rows: int, columns: int) -> Seq<Area> {
    Seq::new(
        (rows * columns) as nat,
        |k: int|
            Area::drawn(
                partition_source(source, k as nat),
                region_x(k, rows, columns) as usize,
                region_y(k, columns) as usize,
                (row_span(rows) - 1) as usize,
                (column_span(columns) - 1) as usize,
            ),
    )
}

/// What the synthesis gives from `source` in at most `attempts` partitions:
/// the first partition with at least `ROOM_COUNT_MIN` rooms, or nothing
/// where every partition has fewer; and what is left of the source.
pub open spec fn synthesized<R: Random>(source: R, rows: int, columns: int, attempts: nat) -> (
    Option<Seq<Area>>,
    R,
)
    decreases attempts,
{
    if attempts == 0 {
        (None, source)
    } else {
        let areas = partitioned(source, rows, columns);
        let rest = partition_source(source, (rows * columns) as nat);
        if room_count(areas) >= ROOM_COUNT_MIN {
            (Some(areas), rest)
        } else {
            synthesized(rest, rows, columns, (attempts - 1) as nat)
        }
    }
}

/// Whether `area` is the region that stands at `index`, in row-major order,
/// in a partition of the grid into `rows` by `columns` regions: it follows
/// the wall line that starts its span, fills the rest of the span, and holds
/// an assigned kind that fits it.
pub open spec fn placed(area: Area, index: int, rows: int, columns: int) -> bool {
    &&& area.x == region_x(index, rows, columns)
    &&& area.y == region_y(index, columns)
    &&& area.rows == row_span(rows) - 1
    &&& area.columns == column_span(columns) - 1
    &&& area.kind.fits(area.rows as int, area.columns as int)
    &&& area.kind !is Unassigned
}

/// Whether `areas` holds the regions of a partition of the grid into `rows`
/// by `columns` regions, in row-major order.
pub open spec fn is_partition(areas: Seq<Area>, rows: int, columns: int) -> bool {
    &&& areas.len() == rows * columns
    &&& forall|k: int| 0 <= k < areas.len() ==> placed(#[trigger] areas[k], k, rows, columns)
}

/// The number of regions among `areas` that hold a room.
pub open spec fn room_count(areas: Seq<Area>) -> nat
    decreases areas.len(),
{
    if areas.len() == 0 {
        0
    } else {
        room_count(areas.drop_last()) + if areas.last().is_room() {
            1nat
        } else {
            0nat
        }
    }
}

/// There are no more rooms than regions.
pub proof fn lemma_room_count_bound(areas: Seq<Area>)
    ensures
        room_count(areas) <= areas.len(),
    decreases areas.len(),
{
    if areas.len() > 0 {
        lemma_room_count_bound(areas.drop_last());
    }
}

/// A valid shape has at most four rows and at most six columns of regions.
pub proof fn lemma_shape_bounds(rows: int, columns: int)
    requires
        valid_shape(rows, columns),
    ensures
        1 <= rows <= 4,
        1 <= columns <= 6,
        AREA_SPAN_MIN <= row_span(rows) <= FIELD_ROW_SIZE,
        AREA_SPAN_MIN <= column_span(columns) <= FIELD_COLUMN_SIZE,
        rows * row_span(rows) <= FIELD_ROW_SIZE,
        columns * column_span(columns) <= FIELD_COLUMN_SIZE,
{
    assert(rows <= 4 && rows * (41int / rows) <= 41 && 41int / rows <= 41) by (nonlinear_arith)
        requires
            rows >= 1,
            41int / rows >= 10,
    ;
    assert(columns <= 6 && columns * (63int / columns) <= 63 && 63int / columns <= 63)
        by (nonlinear_arith)
        requires
            columns >= 1,
            63int / columns >= 10,
    ;
}

/// The region at `index` of a partition lies in the grid, after a wall line
/// on its upper and on its left side, and spans at least `AREA_SIZE_MIN`
/// rows and columns.
pub proof fn lemma_placed_well_formed(area: Area, index: int, rows: int, columns: int)
    requires
        valid_shape(rows, columns),
        0 <= index < rows * columns,
        placed(area, index, rows, columns),
    ensures
        area.well_formed(),
        0 <= index / columns < rows,
        0 <= index % columns < columns,
{
    lemma_shape_bounds(rows, columns);
    let i = index / columns;
    let j = index % columns;
    assert(0 <= i < rows && 0 <= j < columns && index == i * columns + j) by (nonlinear_arith)
        requires
            columns >= 1,
            0 <= index < rows * columns,
            i == index / columns,
            j == index % columns,
    ;
    assert((i + 1) * row_span(rows) <= rows * row_span(rows)) by (nonlinear_arith)
        requires
            0 <= i < rows,
            row_span(rows) >= 0,
    ;
    assert((j + 1) * column_span(columns) <= columns * column_span(columns))
        by (nonlinear_arith)
        requires
            0 <= j < columns,
            column_span(columns) >= 0,
    ;
    assert((i + 1) * row_span(rows) == i * row_span(rows) + row_span(rows))
        by (nonlinear_arith);
    assert((j + 1) * column_span(columns) == j * column_span(columns) + column_span(columns))
        by (nonlinear_arith);
    assert(i * row_span(rows) >= 0) by (nonlinear_arith)
        requires
            i >= 0,
            row_span(rows) >= 0,
    ;
    assert(j * column_span(columns) >= 0) by (nonlinear_arith)
        requires
            j >= 0,
            column_span(columns) >= 0,
    ;
}

/// The region at `index` of a partition stands in the coarse grid of
/// regions at row `index / columns`, column `index % columns`.
pub proof fn lemma_placed_coarse(area: Area, index: int, rows: int, columns: int)
    requires
        valid_shape(rows, columns),
        0 <= index < rows * columns,
        placed(area, index, rows, columns),
    ensures
        area.spec_coarse() == (index / columns, index % columns),
{
    lemma_shape_bounds(rows, columns);
    lemma_placed_well_formed(area, index, rows, columns);
    let i = index / columns;
    let j = index % columns;
    let rs = row_span(rows);
    let cs = column_span(columns);
    assert((i * rs) / rs == i) by (nonlinear_arith)
        requires
            rs > 0,
    ;
    assert((j * cs) / cs == j) by (nonlinear_arith)
        requires
            cs > 0,
    ;
}

/// One region alone is a valid shape.
pub proof fn lemma_unit_shape()
    ensures
        valid_shape(1, 1),
{
}

/// Every region of a partition is well formed.
pub proof fn lemma_partition_well_formed(areas: Seq<Area>, rows: int, columns: int)
    requires
        valid_shape(rows, columns),
        is_partition(areas, rows, columns),
    ensures
        forall|k: int| 0 <= k < areas.len() ==> (#[trigger] areas[k]).well_formed(),
{
    assert forall|k: int| 0 <= k < areas.len() implies (#[trigger] areas[k]).well_formed() by {
        lemma_placed_well_formed(areas[k], k, rows, columns);
    }
}

/// Tells whether `rows` by `columns` is a valid shape.
pub fn check_shape(rows: usize, columns: usize) -> (ok: bool)
    ensures
        ok == valid_shape(rows as int, columns as int),
{
    if rows < 1 || columns < 1 {
        return false;
    }
    if FIELD_ROW_SIZE / rows < AREA_SPAN_MIN || FIELD_COLUMN_SIZE / columns < AREA_SPAN_MIN {
        return false;
    }
    proof {
        assert(rows <= 4) by (nonlinear_arith)
            requires
                rows >= 1,
                41int / (rows as int) >= 10,
        ;
        assert(columns <= 6) by (nonlinear_arith)
            requires
                columns >= 1,
                63int / (columns as int) >= 10,
        ;
        assert(rows * columns <= 24) by (nonlinear_arith)
            requires
                0 <= rows <= 4,
                0 <= columns <= 6,
        ;
    }
    rows * columns <= AREA_COUNT_MAX
}

/// Counts the regions that hold a room.
pub fn count_rooms(areas: &Vec<Area>) -> (count: usize)
    ensures
        count == room_count(areas@),
{
    let mut count: usize = 0;
    let mut k: usize = 0;
    while k < areas.len()
        invariant
            k <= areas.len(),
            count == room_count(areas@.take(k as int)),
            count <= k,
        decreases areas.len() - k,
    {
        proof {
            assert(areas@.take(k + 1).drop_last() =~= areas@.take(k as int));
        }
        if let AreaKind::Room { .. } = areas[k].kind {
            count += 1;
        }
        k += 1;
    }
    proof {
        assert(areas@.take(k as int) =~= areas@);
    }
    count
}

/// Draws one partition of the grid into `rows` by `columns` regions: the
/// regions in row-major order, each with a kind drawn for it in turn.
pub fn partition<R: Random>(rnd: &mut R, rows: usize, columns: usize) -> (areas: Vec<Area>)
    requires
        valid_shape(rows as int, columns as int),
    ensures
        areas@ == partitioned(*old(rnd), rows as int, columns as int),
        *final(rnd) == partition_source(*old(rnd), (rows * columns) as nat),
        is_partition(areas@, rows as int, columns as int),
{
    proof {
        lemma_shape_bounds(rows as int, columns as int);
    }
    let span_r = FIELD_ROW_SIZE / rows;
    let span_c = FIELD_COLUMN_SIZE / columns;
    let count = rows * columns;
    let mut areas: Vec<Area> = Vec::new();
    let mut k: usize = 0;
    while k < count
        invariant
            valid_shape(rows as int, columns as int),
            1 <= rows <= 4,
            1 <= columns <= 6,
            count == rows * columns,
            span_r == row_span(rows as int),
            span_c == column_span(columns as int),
            AREA_SPAN_MIN <= span_r <= FIELD_ROW_SIZE,
            AREA_SPAN_MIN <= span_c <= FIELD_COLUMN_SIZE,
            k <= count,
            areas.len() == k,
            *rnd == partition_source(*old(rnd), k as nat),
            forall|i: int|
                0 <= i < k ==> placed(#[trigger] areas[i], i, rows as int, columns as int),
            forall|i: int|
                0 <= i < k ==> #[trigger] areas[i] == partitioned(
                    *old(rnd),
                    rows as int,
                    columns as int,
                )[i],
        decreases count - k,
    {
        proof {
            let i = k as int / columns as int;
            let j = k as int % columns as int;
            assert(0 <= i < rows && 0 <= j < columns) by (nonlinear_arith)
                requires
                    columns >= 1,
                    0 <= k < rows * columns,
                    i == k as int / columns as int,
                    j == k as int % columns as int,
            ;
            assert(0 <= i * span_r <= 4 * 41) by (nonlinear_arith)
                requires
                    0 <= i < 4,
                    0 <= span_r <= 41,
            ;
            assert(0 <= j * span_c <= 6 * 63) by (nonlinear_arith)
                requires
                    0 <= j < 6,
                    0 <= span_c <= 63,
            ;
        }
        let area = Area::gen(
            rnd,
            (k / columns) * span_r + 1,
            (k % columns) * span_c + 1,
            span_r - 1,
            span_c - 1,
        );
        areas.push(area);
        k += 1;
    }
    areas
}

/// Draws partitions of the grid into `rows` by `columns` regions until one
/// holds at least `ROOM_COUNT_MIN` rooms, and returns that one. A partition
/// with fewer rooms is thrown away whole. After `SYNTHESIS_ATTEMPTS`
/// partitions the synthesis gives up.
///
/// An invalid shape is refused before anything is drawn.
pub fn synthesize<R: Random>(rnd: &mut R, rows: usize, columns: usize) -> (r: Result<
    Vec<Area>,
    GenerationError,
>)
    ensures
        !valid_shape(rows as int, columns as int) ==> r == Err::<Vec<Area>, GenerationError>(
            GenerationError::InvalidShape,
        ) && *final(rnd) == *old(rnd),
        valid_shape(rows as int, columns as int) ==> *final(rnd) == synthesized(
            *old(rnd),
            rows as int,
            columns as int,
            SYNTHESIS_ATTEMPTS as nat,
        ).1 && match r {
            Ok(areas) => synthesized(
                *old(rnd),
                rows as int,
                columns as int,
                SYNTHESIS_ATTEMPTS as nat,
            ).0 == Some(areas@) && is_partition(areas@, rows as int, columns as int) && room_count(
                areas@,
            ) >= ROOM_COUNT_MIN,
            Err(e) => e == GenerationError::GenerationExhausted && synthesized(
                *old(rnd),
                rows as int,
                columns as int,
                SYNTHESIS_ATTEMPTS as nat,
            ).0 is None,
        },
        rows * columns < ROOM_COUNT_MIN ==> r is Err,
{
    if !check_shape(rows, columns) {
        return Err(GenerationError::InvalidShape);
    }
    let mut attempt: usize = 0;
    while attempt < SYNTHESIS_ATTEMPTS
        invariant
            valid_shape(rows as int, columns as int),
            attempt <= SYNTHESIS_ATTEMPTS,
            synthesized(*old(rnd), rows as int, columns as int, SYNTHESIS_ATTEMPTS as nat)
                == synthesized(
                *rnd,
                rows as int,
                columns as int,
                (SYNTHESIS_ATTEMPTS - attempt) as nat,
            ),
        decreases SYNTHESIS_ATTEMPTS - attempt,
    {
        let areas = partition(rnd, rows, columns);
        let room_cnt = count_rooms(&areas);
        if room_cnt >= ROOM_COUNT_MIN {
            proof {
                lemma_room_count_bound(areas@);
            }
            return Ok(areas);
        }
        attempt += 1;
    }
    Err(GenerationError::GenerationExhausted)
}

/// How many pairs of regions are drawn before the connection gives up.
pub const CONNECT_ATTEMPTS: usize = 10000;

/// Whether the region at index `target` is the right or the lower neighbour
/// of the region at index `source`, in a partition into `rows` by `columns`
/// regions held in row-major order.
pub open spec fn adjacent(source: int, target: int, rows: int, columns: int) -> bool {
    &&& 0 <= source
    &&& target < rows * columns
    &&& (target == source + columns || (target == source + 1 && target % columns != 0))
}

/// Whether one of `links` joins the regions `a` and `b`, in either direction.
pub open spec fn linked(links: Seq<(usize, usize)>, a: int, b: int) -> bool {
    exists|k: int|
        0 <= k < links.len() && (((#[trigger] links[k]).0 == a && links[k].1 == b) || (links[k].0
            == b && links[k].1 == a))
}

/// Whether the step from `path[i]` to `path[i + 1]` goes along one of `links`.
pub open spec fn step_linked(links: Seq<(usize, usize)>, path: Seq<int>, i: int) -> bool {
    linked(links, path[i], path[i + 1])
}

/// Whether `path` is a walk over `links`: a sequence of regions, not empty,
/// in which each region is joined to the next by a link.
pub open spec fn is_walk(links: Seq<(usize, usize)>, path: Seq<int>) -> bool {
    &&& path.len() >= 1
    &&& forall|i: int| 0 <= i < path.len() - 1 ==> #[trigger] step_linked(links, path, i)
}

/// Whether a walk over `links` leads from region `a` to region `b`.
pub open spec fn reachable(links: Seq<(usize, usize)>, a: int, b: int) -> bool {
    exists|path: Seq<int>| #[trigger] is_walk(links, path) && path.first() == a && path.last() == b
}

/// Whether `links` is a spanning tree of the regions of a partition into
/// `rows` by `columns` regions: one link less than there are regions, each
/// from a region to its right or lower neighbour, and a walk from every
/// region to every other.
pub open spec fn is_spanning_tree(links: Seq<(usize, usize)>, rows: int, columns: int) -> bool {
    &&& links.len() == rows * columns - 1
    &&& forall|k: int|
        0 <= k < links.len() ==> adjacent(
            (#[trigger] links[k]).0 as int,
            links[k].1 as int,
            rows,
            columns,
        )
    &&& forall|a: int, b: int|
        0 <= a < rows * columns && 0 <= b < rows * columns ==> #[trigger] reachable(links, a, b)
}

/// The group ids after the group of id `from` was merged into the group of
/// id `into`: every region that carried `from` carries `into`.
pub open spec fn merged(groups: Seq<usize>, from: usize, into: usize) -> Seq<usize> {
    Seq::new(
        groups.len(),
        |i: int|
            if groups[i] == from {
                into
            } else {
                groups[i]
            },
    )
}

/// The number of regions before index `upto` that carry their own index as
/// group id: the regions after which the groups are named.
pub open spec fn root_count(groups: Seq<usize>, upto: int) -> int
    decreases upto,
{
    if upto <= 0 {
        0
    } else {
        root_count(groups, upto - 1) + if groups[upto - 1] == upto - 1 {
            1int
        } else {
            0int
        }
    }
}

/// Whether every group id is the index of a region that carries it itself.
pub open spec fn rooted(groups: Seq<usize>) -> bool {
    forall|i: int|
        0 <= i < groups.len() ==> 0 <= #[trigger] groups[i] < groups.len() && groups[groups[i] as int]
            == groups[i]
}

/// The neighbour of the region at index `source` to which a link is tried:
/// the lower neighbour if `vertical`, else the right neighbour; `None` where
/// the region has no such neighbour, because it stands in the last row or in
/// the last column of the partition.
pub open spec fn spec_neighbour(source: int, vertical: bool, rows: int, columns: int) -> Option<
    usize,
> {
    if vertical {
        if source + columns >= rows * columns {
            None
        } else {
            Some((source + columns) as usize)
        }
    } else {
        if (source + 1) % columns == 0 {
            None
        } else {
            Some((source + 1) as usize)
        }
    }
}

/// The group ids before any link is made: each region carries its own index.
pub open spec fn initial_groups(count: int) -> Seq<usize> {
    Seq::new(count as nat, |i: int| i as usize)
}

/// The group ids, the links and the source after at most `attempts` more
/// pairs were drawn from `source`, starting from the group ids `groups` and
/// the links `links`.
///
/// Nothing is drawn once one link less than there are regions was made. A
/// pair takes two draws: the first, scaled to `0..=2`, asks for the lower
/// neighbour where it is `1` and else for the right one; the second, scaled
/// to the indices of the regions, is the region. The pair makes a link
/// where the neighbour exists and is in another group.
pub open spec fn connecting<R: Random>(
    source: R,
    groups: Seq<usize>,
    links: Seq<(usize, usize)>,
    rows: int,
    columns: int,
    attempts: nat,
) -> (Seq<usize>, Seq<(usize, usize)>, R)
    decreases attempts,
{
    if links.len() + 1 >= rows * columns || attempts == 0 {
        (groups, links, source)
    } else {
        let vertical = scaled(draw_at(source, 0), 2) == 1;
        let from = scaled(draw_at(source, 1), (rows * columns - 1) as u32);
        let rest = skip(source, 2);
        match spec_neighbour(from, vertical, rows, columns) {
            Some(to) if groups[from] != groups[to as int] => connecting(
                rest,
                merged(groups, groups[to as int], groups[from]),
                links.push((from as usize, to)),
                rows,
                columns,
                (attempts - 1) as nat,
            ),
            _ => connecting(rest, groups, links, rows, columns, (attempts - 1) as nat),
        }
    }
}

/// What the connection gives from `source`: the links, in the order in
/// which they were made, or nothing where `CONNECT_ATTEMPTS` pairs did not
/// link all regions; and what is left of the source.
pub open spec fn connected<R: Random>(source: R, rows: int, columns: int) -> (
    Option<Seq<(usize, usize)>>,
    R,
) {
    let end = connecting(
        source,
        initial_groups(rows * columns),
        Seq::empty(),
        rows,
        columns,
        CONNECT_ATTEMPTS as nat,
    );
    (
        if end.1.len() + 1 == rows * columns {
            Some(end.1)
        } else {
            None
        },
        end.2,
    )
}

/// A walk stays a walk when a link is added.
proof fn lemma_walk_with_more_links(links: Seq<(usize, usize)>, link: (usize, usize), path: Seq<int>)
    requires
        is_walk(links, path),
    ensures
        is_walk(links.push(link), path),
{
    let more = links.push(link);
    assert forall|i: int| 0 <= i < path.len() - 1 implies #[trigger] step_linked(more, path, i) by {
        assert(step_linked(links, path, i));
        let k = choose|k: int|
            0 <= k < links.len() && (((#[trigger] links[k]).0 == path[i] && links[k].1 == path[i
                + 1]) || (links[k].0 == path[i + 1] && links[k].1 == path[i]));
        assert(more[k] == links[k]);
    }
}

/// Two walks of which the first ends where a link to the start of the
/// second begins make one walk.
proof fn lemma_walks_join(links: Seq<(usize, usize)>, first: Seq<int>, second: Seq<int>)
    requires
        is_walk(links, first),
        is_walk(links, second),
        linked(links, first.last(), second.first()),
    ensures
        is_walk(links, first + second),
        (first + second).first() == first.first(),
        (first + second).last() == second.last(),
{
    let path = first + second;
    assert forall|i: int| 0 <= i < path.len() - 1 implies #[trigger] step_linked(links, path, i) by {
        if i < first.len() - 1 {
            assert(step_linked(links, first, i));
        } else if i == first.len() - 1 {
            assert(path[i] == first.last());
            assert(path[i + 1] == second.first());
        } else {
            assert(step_linked(links, second, i - first.len()));
            assert(path[i] == second[i - first.len()]);
            assert(path[i + 1] == second[i - first.len() + 1]);
        }
    }
}

/// Every region is reached from itself.
proof fn lemma_reachable_self(links: Seq<(usize, usize)>, a: int)
    ensures
        reachable(links, a, a),
{
    let path = seq![a];
    assert(is_walk(links, path));
    assert(path.first() == a && path.last() == a);
}

/// If being in one group means being joined by a walk, then it still does
/// after the groups of two regions were merged and a link between the two
/// was added.
proof fn lemma_merge_keeps_walks(
    groups: Seq<usize>,
    links: Seq<(usize, usize)>,
    source: usize,
    target: usize,
)
    requires
        source < groups.len(),
        target < groups.len(),
        forall|a: int, b: int|
            0 <= a < groups.len() && 0 <= b < groups.len() && groups[a] == groups[b]
                ==> #[trigger] reachable(links, a, b),
    ensures
        forall|a: int, b: int|
            0 <= a < groups.len() && 0 <= b < groups.len() && merged(
                groups,
                groups[target as int],
                groups[source as int],
            )[a] == merged(groups, groups[target as int], groups[source as int])[b]
                ==> #[trigger] reachable(links.push((source, target)), a, b),
{
    let more = links.push((source, target));
    let after = merged(groups, groups[target as int], groups[source as int]);
    assert(more[links.len() as int] == (source, target));
    assert(linked(more, source as int, target as int));
    assert(linked(more, target as int, source as int));
    assert forall|a: int, b: int|
        0 <= a < groups.len() && 0 <= b < groups.len() && after[a] == after[b] implies #[trigger] reachable(
        more,
        a,
        b,
    ) by {
        if groups[a] == groups[b] {
            assert(reachable(links, a, b));
            let path = choose|path: Seq<int>| #[trigger]
                is_walk(links, path) && path.first() == a && path.last() == b;
            lemma_walk_with_more_links(links, (source, target), path);
        } else if groups[a] == groups[target as int] {
            assert(groups[b] == groups[source as int]);
            assert(reachable(links, a, target as int));
            assert(reachable(links, source as int, b));
            let first = choose|path: Seq<int>| #[trigger]
                is_walk(links, path) && path.first() == a && path.last() == target;
            let second = choose|path: Seq<int>| #[trigger]
                is_walk(links, path) && path.first() == source && path.last() == b;
            lemma_walk_with_more_links(links, (source, target), first);
            lemma_walk_with_more_links(links, (source, target), second);
            lemma_walks_join(more, first, second);
        } else {
            assert(groups[b] == groups[target as int]);
            assert(groups[a] == groups[source as int]);
            assert(reachable(links, a, source as int));
            assert(reachable(links, target as int, b));
            let first = choose|path: Seq<int>| #[trigger]
                is_walk(links, path) && path.first() == a && path.last() == source;
            let second = choose|path: Seq<int>| #[trigger]
                is_walk(links, path) && path.first() == target && path.last() == b;
            lemma_walk_with_more_links(links, (source, target), first);
            lemma_walk_with_more_links(links, (source, target), second);
            lemma_walks_join(more, first, second);
        }
    }
}

/// The count of roots grows with the bound, by one at each root.
proof fn lemma_root_count_grows(groups: Seq<usize>, lower: int, upper: int)
    requires
        0 <= lower <= upper,
    ensures
        0 <= root_count(groups, lower) <= root_count(groups, upper) <= root_count(groups, lower)
            + (upper - lower),
        lower < upper && groups[lower] == lower ==> root_count(groups, lower) < root_count(
            groups,
            upper,
        ),
    decreases upper,
{
    if lower < upper {
        lemma_root_count_grows(groups, lower, upper - 1);
    } else {
        lemma_root_count_nonnegative(groups, lower);
    }
}

/// The count of roots is not negative.
proof fn lemma_root_count_nonnegative(groups: Seq<usize>, upto: int)
    ensures
        0 <= root_count(groups, upto),
    decreases upto,
{
    if upto > 0 {
        lemma_root_count_nonnegative(groups, upto - 1);
    }
}

/// A merge of two different groups takes away exactly one root: the one
/// that the merged group was named after.
proof fn lemma_merge_removes_root(groups: Seq<usize>, from: usize, into: usize, upto: int)
    requires
        rooted(groups),
        from != into,
        from < groups.len(),
        into < groups.len(),
        groups[from as int] == from,
        groups[into as int] == into,
        0 <= upto <= groups.len(),
    ensures
        root_count(merged(groups, from, into), upto) == root_count(groups, upto) - if from < upto {
            1int
        } else {
            0int
        },
        rooted(merged(groups, from, into)),
    decreases upto,
{
    let after = merged(groups, from, into);
    assert forall|i: int| 0 <= i < after.len() implies 0 <= #[trigger] after[i] < after.len()
        && after[after[i] as int] == after[i] by {
        assert(groups[groups[i] as int] == groups[i]);
    }
    if upto > 0 {
        lemma_merge_removes_root(groups, from, into, upto - 1);
        let i = upto - 1;
        assert(groups[groups[i] as int] == groups[i]);
    }
}

/// Where one root is left, all regions carry the same group id.
proof fn lemma_one_root_one_group(groups: Seq<usize>, a: int, b: int)
    requires
        rooted(groups),
        root_count(groups, groups.len() as int) == 1,
        0 <= a < groups.len(),
        0 <= b < groups.len(),
    ensures
        groups[a] == groups[b],
{
    let ra = groups[a] as int;
    let rb = groups[b] as int;
    assert(groups[ra] == ra);
    assert(groups[rb] == rb);
    let n = groups.len() as int;
    if ra < rb {
        lemma_root_count_grows(groups, 0, ra);
        lemma_root_count_grows(groups, ra, rb);
        lemma_root_count_grows(groups, rb, n);
    } else if rb < ra {
        lemma_root_count_grows(groups, 0, rb);
        lemma_root_count_grows(groups, rb, ra);
        lemma_root_count_grows(groups, ra, n);
    }
}

/// The neighbour of the region at index `source` to which a link is tried:
/// the lower neighbour if `vertical`, else the right neighbour; `None` where
/// the region has no such neighbour.
pub fn neighbour(source: usize, vertical: bool, rows: usize, columns: usize) -> (target: Option<
    usize,
>)
    requires
        valid_shape(rows as int, columns as int),
        source < rows * columns,
    ensures
        target == spec_neighbour(source as int, vertical, rows as int, columns as int),
        target matches Some(t) ==> adjacent(source as int, t as int, rows as int, columns as int),
{
    proof {
        lemma_shape_bounds(rows as int, columns as int);
        assert(rows * columns <= 24) by (nonlinear_arith)
            requires
                0 <= rows <= 4,
                0 <= columns <= 6,
        ;
    }
    if vertical {
        if source + columns >= rows * columns {
            None
        } else {
            Some(source + columns)
        }
    } else {
        if (source + 1) % columns == 0 {
            None
        } else {
            proof {
                assert(source + 1 < rows * columns) by (nonlinear_arith)
                    requires
                        columns >= 1,
                        0 <= source < rows * columns,
                        (source + 1) % (columns as int) != 0,
                ;
            }
            Some(source + 1)
        }
    }
}

/// Merges the group of the region `target` into the group of the region
/// `source`, unless the two regions are in one group already. Returns
/// whether it merged.
pub fn merge(groups: &mut Vec<usize>, source: usize, target: usize) -> (done: bool)
    requires
        source < old(groups).len(),
        target < old(groups).len(),
    ensures
        done == (old(groups)[source as int] != old(groups)[target as int]),
        !done ==> final(groups)@ == old(groups)@,
        done ==> final(groups)@ == merged(
            old(groups)@,
            old(groups)[target as int],
            old(groups)[source as int],
        ),
{
    let keep = groups[source];
    let overwrite_group = groups[target];
    if keep == overwrite_group {
        return false;
    }
    let mut i: usize = 0;
    while i < groups.len()
        invariant
            i <= groups.len(),
            groups.len() == old(groups).len(),
            keep != overwrite_group,
            forall|k: int|
                0 <= k < i ==> #[trigger] groups[k] == merged(old(groups)@, overwrite_group, keep)[k],
            forall|k: int| i <= k < groups.len() ==> #[trigger] groups[k] == old(groups)[k],
        decreases groups.len() - i,
    {
        if groups[i] == overwrite_group {
            groups[i] = keep;
        }
        i += 1;
    }
    proof {
        assert(groups@ =~= merged(old(groups)@, overwrite_group, keep));
    }
    true
}

/// Links the regions of a partition into `rows` by `columns` regions into
/// one group, along a random spanning tree.
///
/// Each region starts as a group of its own. A pair is drawn again and
/// again: first the direction, the lower neighbour with one chance in three
/// and else the right one, then the region. Where the region has no such
/// neighbour, or the two are in one group already, nothing happens. Else the
/// two groups are merged, and the pair is added to the links. This ends when
/// one group is left. After `CONNECT_ATTEMPTS` pairs the connection gives up.
///
/// The links are returned in the order in which they were made, each as the
/// pair of the region drawn and its neighbour. An invalid shape is refused
/// before anything is drawn.
pub fn connect<R: Random>(rnd: &mut R, rows: usize, columns: usize) -> (r: Result<
    Vec<(usize, usize)>,
    GenerationError,
>)
    ensures
        !valid_shape(rows as int, columns as int) ==> r == Err::<
            Vec<(usize, usize)>,
            GenerationError,
        >(GenerationError::InvalidShape) && *final(rnd) == *old(rnd),
        valid_shape(rows as int, columns as int) ==> *final(rnd) == connected(
            *old(rnd),
            rows as int,
            columns as int,
        ).1 && match r {
            Ok(links) => connected(*old(rnd), rows as int, columns as int).0 == Some(links@)
                && is_spanning_tree(links@, rows as int, columns as int),
            Err(e) => e == GenerationError::GenerationExhausted && connected(
                *old(rnd),
                rows as int,
                columns as int,
            ).0 is None,
        },
        rows == 1 && columns == 1 ==> r is Ok && *final(rnd) == *old(rnd),
{
    proof {
        lemma_unit_shape();
    }
    if !check_shape(rows, columns) {
        return Err(GenerationError::InvalidShape);
    }
    proof {
        lemma_shape_bounds(rows as int, columns as int);
        assert(1 <= rows * columns) by (nonlinear_arith)
            requires
                1 <= rows,
                1 <= columns,
        ;
    }
    let count = rows * columns;
    let mut groups: Vec<usize> = Vec::new();
    let mut i: usize = 0;
    while i < count
        invariant
            i <= count,
            groups.len() == i,
            forall|k: int| 0 <= k < i ==> #[trigger] groups[k] == k,
            root_count(groups@, i as int) == i,
        decreases count - i,
    {
        proof {
            lemma_root_count_same(groups@, groups@.push(i), i as int);
        }
        groups.push(i);
        i += 1;
    }
    let mut links: Vec<(usize, usize)> = Vec::new();
    proof {
        assert(groups@ =~= initial_groups(count as int));
        assert(links@ =~= Seq::<(usize, usize)>::empty());
        assert forall|a: int, b: int|
            0 <= a < count && 0 <= b < count && groups[a] == groups[b] implies #[trigger] reachable(
            links@,
            a,
            b,
        ) by {
            lemma_reachable_self(links@, a);
        }
    }
    let mut attempt: usize = 0;
    while links.len() + 1 < count && attempt < CONNECT_ATTEMPTS
        invariant
            valid_shape(rows as int, columns as int),
            count == rows * columns,
            1 <= count <= AREA_COUNT_MAX,
            attempt <= CONNECT_ATTEMPTS,
            groups.len() == count,
            rooted(groups@),
            links.len() + root_count(groups@, count as int) == count,
            links.len() < count,
            forall|k: int|
                0 <= k < links.len() ==> adjacent(
                    (#[trigger] links[k]).0 as int,
                    links[k].1 as int,
                    rows as int,
                    columns as int,
                ),
            forall|a: int, b: int|
                0 <= a < count && 0 <= b < count && groups[a] == groups[b] ==> #[trigger] reachable(
                    links@,
                    a,
                    b,
                ),
            connecting(
                *old(rnd),
                initial_groups(count as int),
                Seq::empty(),
                rows as int,
                columns as int,
                CONNECT_ATTEMPTS as nat,
            ) == connecting(
                *rnd,
                groups@,
                links@,
                rows as int,
                columns as int,
                (CONNECT_ATTEMPTS - attempt) as nat,
            ),
            count == 1 ==> *rnd == *old(rnd),
        decreases CONNECT_ATTEMPTS - attempt,
    {
        proof {
            lemma_skip_one_more(*rnd, 0);
            lemma_skip_one_more(*rnd, 1);
        }
        attempt += 1;
        let vertical = rnd.gen_max(2) == 1;
        let si = rnd.gen_max((count - 1) as u32) as usize;
        if let Some(ti) = neighbour(si, vertical, rows, columns) {
            let ghost before = groups@;
            if merge(&mut groups, si, ti) {
                proof {
                    assert(before[before[si as int] as int] == before[si as int]);
                    assert(before[before[ti as int] as int] == before[ti as int]);
                    lemma_merge_removes_root(
                        before,
                        before[ti as int],
                        before[si as int],
                        count as int,
                    );
                    lemma_merge_keeps_walks(before, links@, si, ti);
                    lemma_root_count_nonnegative(groups@, count as int);
                }
                links.push((si, ti));
            }
        }
    }
    if links.len() + 1 == count {
        proof {
            assert forall|a: int, b: int| 0 <= a < count && 0 <= b < count implies #[trigger] reachable(
                links@,
                a,
                b,
            ) by {
                lemma_one_root_one_group(groups@, a, b);
            }
        }
        Ok(links)
    } else {
        Err(GenerationError::GenerationExhausted)
    }
}

/// The count of roots below a bound depends only on the ids below the bound.
proof fn lemma_root_count_same(first: Seq<usize>, second: Seq<usize>, upto: int)
    requires
        0 <= upto <= first.len(),
        upto <= second.len(),
        forall|k: int| 0 <= k < upto ==> first[k] == second[k],
    ensures
        root_count(first, upto) == root_count(second, upto),
    decreases upto,
{
    if upto > 0 {
        lemma_root_count_same(first, second, upto - 1);
    }
}

} // verus!
