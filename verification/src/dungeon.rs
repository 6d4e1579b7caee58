//! The terrain of a dungeon, painted from a partition of the grid and the
//! links between its regions, and the dungeon that holds it.

use crate::field::{in_field, is_edge, Field, FieldPointDefault};
use crate::field::{FIELD_COLUMN_SIZE, FIELD_ROW_SIZE};
use crate::field_gen::{adjacent, connect, is_partition, is_spanning_tree, room_count, synthesize};
use crate::field_gen::{connected, synthesized, SYNTHESIS_ATTEMPTS};
use crate::field_gen::{lemma_partition_well_formed, lemma_shape_bounds};
use crate::field_gen::{column_span, placed, row_span, valid_shape};
use crate::field_gen::{Area, AreaKind, GenerationError, ROOM_COUNT_MIN};
use crate::grid::Direction;
use crate::random::Random;
use core::ops::Neg;
use vstd::prelude::*;
use vstd::string::StringExecFns;

verus! {

/// One cell of terrain.
#[derive(Debug, Copy, Clone, PartialEq, Eq, Structural)]
pub enum Floor {
    Wall,
    Ground,
    Water,
}

impl FieldPointDefault for Floor {
    /// The outer ring of a terrain starts as wall.
    open spec fn edge() -> Floor {
        Floor::Wall
    }

    /// The inside of a terrain starts as ground.
    open spec fn inter() -> Floor {
        Floor::Ground
    }

    fn default_edge() -> (r: Floor)
        ensures
            r == Floor::Wall,
    {
        Floor::Wall
    }

    fn default_inter() -> (r: Floor)
        ensures
            r == Floor::Ground,
    {
        Floor::Ground
    }
}

impl Floor {
    /// The character that shows the cell: `#` for wall, a space for ground,
    /// `.` for water.
    pub open spec fn spec_glyph(self) -> char {
        match self {
            Floor::Wall => '#',
            Floor::Ground => ' ',
            Floor::Water => '.',
        }
    }

    /// The character that shows the cell.
    pub fn glyph(&self) -> (c: char)
        ensures
            c == self.spec_glyph(),
    {
        match self {
            Floor::Wall => '#',
            Floor::Ground => ' ',
            Floor::Water => '.',
        }
    }
}

/// Whether `v` lies between `a` and `b`, whichever of the two is the smaller.
pub open spec fn between(a: int, b: int, v: int) -> bool {
    (a <= v <= b) || (b <= v <= a)
}

/// Whether the cell `(row, column)` lies on the straight stretch of cells
/// from `p` to `q`, the two ends included. Two cells that share neither
/// their row nor their column have no stretch between them.
pub open spec fn on_stretch(p: (int, int), q: (int, int), row: int, column: int) -> bool {
    ||| (p.0 == q.0 && row == p.0 && between(p.1, q.1, column))
    ||| (p.1 == q.1 && column == p.1 && between(p.0, q.0, row))
}

/// Whether `b` is the neighbour of `a` on the side `direction`, right or
/// down, with one wall line between the two.
pub open spec fn faces(a: Area, b: Area, direction: Direction) -> bool {
    match direction {
        Direction::Right => a.y + a.columns + 1 == b.y,
        Direction::Down => a.x + a.rows + 1 == b.x,
        _ => false,
    }
}

/// Whether the cell `(row, column)` lies on the corridor from region `a` to
/// the region `b` on its side `direction`.
///
/// The corridor has three straight stretches: from the anchor of `a` to the
/// wall line between the two regions, along that wall line, and from the
/// wall line to the anchor of `b`.
pub open spec fn on_corridor(a: Area, b: Area, direction: Direction, row: int, column: int) -> bool {
    ||| on_stretch(a.spec_anchor(), a.spec_border(direction), row, column)
    ||| on_stretch(a.spec_border(direction), b.spec_border(direction.opposite()), row, column)
    ||| on_stretch(b.spec_border(direction.opposite()), b.spec_anchor(), row, column)
}

/// The side on which a link leaves its first region: down where the second
/// region is `columns` places on in row-major order, else right.
pub open spec fn link_direction(link: (usize, usize), columns: int) -> Direction {
    if link.1 == link.0 + columns {
        Direction::Down
    } else {
        Direction::Right
    }
}

/// Whether the cell `(row, column)` lies on the corridor of `link`.
pub open spec fn on_link(
    areas: Seq<Area>,
    link: (usize, usize),
    columns: int,
    row: int,
    column: int,
) -> bool {
    on_corridor(
        areas[link.0 as int],
        areas[link.1 as int],
        link_direction(link, columns),
        row,
        column,
    )
}

/// Whether the cell `(row, column)` lies in the room of one of `areas`.
pub open spec fn in_some_room(areas: Seq<Area>, row: int, column: int) -> bool {
    exists|k: int| 0 <= k < areas.len() && (#[trigger] areas[k]).in_room(row, column)
}

/// Whether the cell `(row, column)` lies on the corridor of one of `links`.
pub open spec fn on_some_corridor(
    areas: Seq<Area>,
    links: Seq<(usize, usize)>,
    columns: int,
    row: int,
    column: int,
) -> bool {
    exists|k: int|
        0 <= k < links.len() && on_link(areas, #[trigger] links[k], columns, row, column)
}

/// The terrain at `(row, column)` of the dungeon with the regions `areas`
/// and the links `links`: ground in a room, water on a corridor outside the
/// rooms, wall everywhere else.
pub open spec fn terrain(
    areas: Seq<Area>,
    links: Seq<(usize, usize)>,
    columns: int,
    row: int,
    column: int,
) -> Floor {
    if in_some_room(areas, row, column) {
        Floor::Ground
    } else if on_some_corridor(areas, links, columns, row, column) {
        Floor::Water
    } else {
        Floor::Wall
    }
}

/// Whether `floors` is the terrain of the regions `areas` and the links
/// `links`, cell by cell.
pub open spec fn is_terrain(
    floors: Field<Floor>,
    areas: Seq<Area>,
    links: Seq<(usize, usize)>,
    columns: int,
) -> bool {
    forall|row: int, column: int|
        in_field(row, column) ==> #[trigger] floors.cell(row, column) == terrain(
            areas,
            links,
            columns,
            row,
            column,
        )
}

/// Makes every cell of the room of `area` ground. A region without a room
/// changes nothing.
pub fn carve_room(field: &mut Field<Floor>, area: &Area)
    requires
        area.well_formed(),
    ensures
        forall|row: int, column: int|
            in_field(row, column) ==> #[trigger] final(field).cell(row, column) == (if area.in_room(
                row,
                column,
            ) {
                Floor::Ground
            } else {
                old(field).cell(row, column)
            }),
{
    if let AreaKind::Room { x, y, row, column } = area.kind {
        let top = area.x + x;
        let left = area.y + y;
        let mut i: usize = 0;
        while i < row
            invariant
                area.well_formed(),
                area.kind == (AreaKind::Room { x, y, row, column }),
                top == area.x + x,
                left == area.y + y,
                i <= row,
                forall|r: int, c: int|
                    in_field(r, c) ==> #[trigger] field.cell(r, c) == (if area.in_room(r, c) && r
                        < top + i {
                        Floor::Ground
                    } else {
                        old(field).cell(r, c)
                    }),
            decreases row - i,
        {
            let mut j: usize = 0;
            while j < column
                invariant
                    area.well_formed(),
                    area.kind == (AreaKind::Room { x, y, row, column }),
                    top == area.x + x,
                    left == area.y + y,
                    i < row,
                    j <= column,
                    forall|r: int, c: int|
                        in_field(r, c) ==> #[trigger] field.cell(r, c) == (if area.in_room(r, c)
                            && (r < top + i || (r == top + i && c < left + j)) {
                            Floor::Ground
                        } else {
                            old(field).cell(r, c)
                        }),
                decreases column - j,
            {
                field.set(top + i, left + j, Floor::Ground);
                j += 1;
            }
            i += 1;
        }
    }
}

/// Makes every cell on the straight stretch from `from` to `to` water, the
/// two ends included.
pub fn carve_stretch(field: &mut Field<Floor>, from: (usize, usize), to: (usize, usize))
    requires
        in_field(from.0 as int, from.1 as int),
        in_field(to.0 as int, to.1 as int),
        from.0 == to.0 || from.1 == to.1,
    ensures
        forall|row: int, column: int|
            in_field(row, column) ==> #[trigger] final(field).cell(row, column) == (if on_stretch(
                (from.0 as int, from.1 as int),
                (to.0 as int, to.1 as int),
                row,
                column,
            ) {
                Floor::Water
            } else {
                old(field).cell(row, column)
            }),
{
    if from.0 == to.0 {
        let (low, high) = if from.1 <= to.1 {
            (from.1, to.1)
        } else {
            (to.1, from.1)
        };
        let mut c: usize = low;
        while c <= high
            invariant
                from.0 < FIELD_ROW_SIZE,
                low <= c <= high + 1,
                high < FIELD_COLUMN_SIZE,
                forall|row: int, column: int|
                    in_field(row, column) ==> #[trigger] field.cell(row, column) == (if row
                        == from.0 && low <= column < c {
                        Floor::Water
                    } else {
                        old(field).cell(row, column)
                    }),
            decreases high + 1 - c,
        {
            field.set(from.0, c, Floor::Water);
            c += 1;
        }
    } else {
        let (low, high) = if from.0 <= to.0 {
            (from.0, to.0)
        } else {
            (to.0, from.0)
        };
        let mut r: usize = low;
        while r <= high
            invariant
                from.1 < FIELD_COLUMN_SIZE,
                low <= r <= high + 1,
                high < FIELD_ROW_SIZE,
                forall|row: int, column: int|
                    in_field(row, column) ==> #[trigger] field.cell(row, column) == (if column
                        == from.1 && low <= row < r {
                        Floor::Water
                    } else {
                        old(field).cell(row, column)
                    }),
            decreases high + 1 - r,
        {
            field.set(r, from.1, Floor::Water);
            r += 1;
        }
    }
}

/// Carves the corridor from region `a` to the region `b` on its side
/// `direction`: every cell on it becomes water.
pub fn carve_corridor(field: &mut Field<Floor>, a: &Area, b: &Area, direction: Direction)
    requires
        a.well_formed(),
        b.well_formed(),
        faces(*a, *b, direction),
    ensures
        forall|row: int, column: int|
            in_field(row, column) ==> #[trigger] final(field).cell(row, column) == (if on_corridor(
                *a,
                *b,
                direction,
                row,
                column,
            ) {
                Floor::Water
            } else {
                old(field).cell(row, column)
            }),
{
    proof {
        a.lemma_anchor_inside();
        b.lemma_anchor_inside();
    }
    let (start, leave) = a.reach_out(direction);
    let (end, enter) = b.reach_out(direction.neg());
    carve_stretch(field, start, leave);
    carve_stretch(field, leave, enter);
    carve_stretch(field, enter, end);
}

/// In a partition, the right or lower neighbour of a region faces it: one
/// wall line lies between the two.
pub proof fn lemma_link_faces(areas: Seq<Area>, link: (usize, usize), rows: int, columns: int)
    requires
        valid_shape(rows, columns),
        is_partition(areas, rows, columns),
        adjacent(link.0 as int, link.1 as int, rows, columns),
    ensures
        link.0 < link.1 < areas.len(),
        areas[link.0 as int].well_formed(),
        areas[link.1 as int].well_formed(),
        faces(areas[link.0 as int], areas[link.1 as int], link_direction(link, columns)),
{
    lemma_shape_bounds(rows, columns);
    lemma_partition_well_formed(areas, rows, columns);
    let s = link.0 as int;
    let t = link.1 as int;
    let a = areas[s];
    let b = areas[t];
    assert(placed(a, s, rows, columns));
    assert(placed(b, t, rows, columns));
    let rs = row_span(rows);
    let cs = column_span(columns);
    if t == s + columns {
        assert(t / columns == s / columns + 1) by {
            if columns == 1 {
            } else if columns == 2 {
            } else if columns == 3 {
            } else if columns == 4 {
            } else if columns == 5 {
            } else {
            }
        }
        assert((s / columns + 1) * rs == (s / columns) * rs + rs) by (nonlinear_arith);
    } else {
        assert(t % columns == s % columns + 1) by {
            if columns == 1 {
            } else if columns == 2 {
            } else if columns == 3 {
            } else if columns == 4 {
            } else if columns == 5 {
            } else {
            }
        }
        assert((s % columns + 1) * cs == (s % columns) * cs + cs) by (nonlinear_arith);
    }
}

/// A cell lies on a corridor of the first `k + 1` links exactly if it lies
/// on a corridor of the first `k` links or on the corridor of the link `k`.
proof fn lemma_corridors_one_more(
    areas: Seq<Area>,
    links: Seq<(usize, usize)>,
    k: int,
    columns: int,
    row: int,
    column: int,
)
    requires
        0 <= k < links.len(),
    ensures
        on_some_corridor(areas, links.take(k + 1), columns, row, column) == (on_some_corridor(
            areas,
            links.take(k),
            columns,
            row,
            column,
        ) || on_link(areas, links[k], columns, row, column)),
{
    let more = links.take(k + 1);
    let fewer = links.take(k);
    if on_some_corridor(areas, fewer, columns, row, column) {
        let i = choose|i: int|
            0 <= i < fewer.len() && on_link(areas, #[trigger] fewer[i], columns, row, column);
        assert(more[i] == fewer[i]);
    }
    if on_link(areas, links[k], columns, row, column) {
        assert(more[k] == links[k]);
    }
    if on_some_corridor(areas, more, columns, row, column) {
        let i = choose|i: int|
            0 <= i < more.len() && on_link(areas, #[trigger] more[i], columns, row, column);
        if i < k {
            assert(fewer[i] == more[i]);
        } else {
            assert(more[i] == links[k]);
        }
    }
}

/// A cell lies in a room of the first `k + 1` regions exactly if it lies in
/// a room of the first `k` regions or in the room of the region `k`.
proof fn lemma_rooms_one_more(areas: Seq<Area>, k: int, row: int, column: int)
    requires
        0 <= k < areas.len(),
    ensures
        in_some_room(areas.take(k + 1), row, column) == (in_some_room(areas.take(k), row, column)
            || areas[k].in_room(row, column)),
{
    let more = areas.take(k + 1);
    let fewer = areas.take(k);
    if in_some_room(fewer, row, column) {
        let i = choose|i: int| 0 <= i < fewer.len() && (#[trigger] fewer[i]).in_room(row, column);
        assert(more[i] == fewer[i]);
    }
    if areas[k].in_room(row, column) {
        assert(more[k] == areas[k]);
    }
    if in_some_room(more, row, column) {
        let i = choose|i: int| 0 <= i < more.len() && (#[trigger] more[i]).in_room(row, column);
        if i < k {
            assert(fewer[i] == more[i]);
        } else {
            assert(more[i] == areas[k]);
        }
    }
}

/// Paints the terrain of a partition and its links on solid rock: first the
/// corridor of each link, then the room of each region.
pub fn paint(areas: &Vec<Area>, links: &Vec<(usize, usize)>, rows: usize, columns: usize) -> (floors:
    Field<Floor>)
    requires
        valid_shape(rows as int, columns as int),
        is_partition(areas@, rows as int, columns as int),
        forall|k: int|
            0 <= k < links.len() ==> adjacent(
                (#[trigger] links[k]).0 as int,
                links[k].1 as int,
                rows as int,
                columns as int,
            ),
    ensures
        is_terrain(floors, areas@, links@, columns as int),
{
    let mut floors = Field::filled(Floor::Wall);
    let mut k: usize = 0;
    while k < links.len()
        invariant
            valid_shape(rows as int, columns as int),
            is_partition(areas@, rows as int, columns as int),
            forall|i: int|
                0 <= i < links.len() ==> adjacent(
                    (#[trigger] links[i]).0 as int,
                    links[i].1 as int,
                    rows as int,
                    columns as int,
                ),
            k <= links.len(),
            forall|row: int, column: int|
                in_field(row, column) ==> #[trigger] floors.cell(row, column) == (
                if on_some_corridor(areas@, links@.take(k as int), columns as int, row, column) {
                    Floor::Water
                } else {
                    Floor::Wall
                }),
        decreases links.len() - k,
    {
        let (source, target) = links[k];
        proof {
            lemma_shape_bounds(rows as int, columns as int);
            lemma_link_faces(areas@, links[k as int], rows as int, columns as int);
        }
        let direction = if target == source + columns {
            Direction::Down
        } else {
            Direction::Right
        };
        carve_corridor(&mut floors, &areas[source], &areas[target], direction);
        proof {
            assert forall|row: int, column: int| in_field(row, column) implies #[trigger] floors.cell(
                row,
                column,
            ) == (if on_some_corridor(
                areas@,
                links@.take(k + 1),
                columns as int,
                row,
                column,
            ) {
                Floor::Water
            } else {
                Floor::Wall
            }) by {
                lemma_corridors_one_more(areas@, links@, k as int, columns as int, row, column);
            }
        }
        k += 1;
    }
    proof {
        assert(links@.take(k as int) =~= links@);
        lemma_partition_well_formed(areas@, rows as int, columns as int);
    }
    let mut j: usize = 0;
    while j < areas.len()
        invariant
            j <= areas.len(),
            forall|i: int| 0 <= i < areas.len() ==> (#[trigger] areas[i]).well_formed(),
            forall|row: int, column: int|
                in_field(row, column) ==> #[trigger] floors.cell(row, column) == (if in_some_room(
                    areas@.take(j as int),
                    row,
                    column,
                ) {
                    Floor::Ground
                } else if on_some_corridor(areas@, links@, columns as int, row, column) {
                    Floor::Water
                } else {
                    Floor::Wall
                }),
        decreases areas.len() - j,
    {
        carve_room(&mut floors, &areas[j]);
        proof {
            assert forall|row: int, column: int| in_field(row, column) implies #[trigger] floors.cell(
                row,
                column,
            ) == (if in_some_room(areas@.take(j + 1), row, column) {
                Floor::Ground
            } else if on_some_corridor(areas@, links@, columns as int, row, column) {
                Floor::Water
            } else {
                Floor::Wall
            }) by {
                lemma_rooms_one_more(areas@, j as int, row, column);
            }
        }
        j += 1;
    }
    proof {
        assert(areas@.take(j as int) =~= areas@);
    }
    floors
}

/// Whether `areas` and `links` make the layout of a dungeon of `rows` by
/// `columns` regions: a partition with at least `ROOM_COUNT_MIN` rooms, and
/// a spanning tree of its regions.
pub open spec fn is_layout(
    areas: Seq<Area>,
    links: Seq<(usize, usize)>,
    rows: int,
    columns: int,
) -> bool {
    &&& is_partition(areas, rows, columns)
    &&& room_count(areas) >= ROOM_COUNT_MIN
    &&& is_spanning_tree(links, rows, columns)
}

/// What the generation gives from `source`: the layout of a dungeon of
/// `rows` by `columns` regions, its regions and its links, or nothing where
/// the synthesis or the connection is exhausted; and what is left of the
/// source. The connection draws from what the synthesis left.
pub open spec fn layout_of<R: Random>(source: R, rows: int, columns: int) -> (
    Option<(Seq<Area>, Seq<(usize, usize)>)>,
    R,
) {
    let synthesis = synthesized(source, rows, columns, SYNTHESIS_ATTEMPTS as nat);
    match synthesis.0 {
        None => (None, synthesis.1),
        Some(areas) => {
            let connection = connected(synthesis.1, rows, columns);
            match connection.0 {
                None => (None, connection.1),
                Some(links) => (Some((areas, links)), connection.1),
            }
        },
    }
}

/// Whether `floors` is the terrain of the layout that the generation gives
/// from `source`, and that layout is the layout of a dungeon of `rows` by
/// `columns` regions.
pub open spec fn is_generated<R: Random>(
    floors: Field<Floor>,
    source: R,
    rows: int,
    columns: int,
) -> bool {
    layout_of(source, rows, columns).0 matches Some(layout) && is_layout(
        layout.0,
        layout.1,
        rows,
        columns,
    ) && is_terrain(floors, layout.0, layout.1, columns)
}

/// A layout has one terrain: two fields that are both the terrain of the
/// same regions and links are the same field, and show as the same text.
pub proof fn lemma_terrain_unique(
    first: Field<Floor>,
    second: Field<Floor>,
    areas: Seq<Area>,
    links: Seq<(usize, usize)>,
    columns: int,
)
    requires
        is_terrain(first, areas, links, columns),
        is_terrain(second, areas, links, columns),
    ensures
        first == second,
        first.rendered() == second.rendered(),
{
    assert forall|row: int, column: int| in_field(row, column) implies #[trigger] first.cell(
        row,
        column,
    ) == second.cell(row, column) by {
        assert(first.cell(row, column) == terrain(areas, links, columns, row, column));
        assert(second.cell(row, column) == terrain(areas, links, columns, row, column));
    }
    Field::lemma_ext_equal(first, second);
}

/// Generation is a function of the source and the shape: two terrains
/// generated from the same source for the same shape are the same field,
/// and show as the same text.
pub proof fn lemma_generated_unique<R: Random>(
    first: Field<Floor>,
    second: Field<Floor>,
    source: R,
    rows: int,
    columns: int,
)
    requires
        is_generated(first, source, rows, columns),
        is_generated(second, source, rows, columns),
    ensures
        first == second,
        first.rendered() == second.rendered(),
{
    let layout = layout_of(source, rows, columns).0->Some_0;
    lemma_terrain_unique(first, second, layout.0, layout.1, columns);
}

/// The outer ring of the terrain of a layout is wall: no room and no
/// corridor touches the first or last row or column of the grid.
pub proof fn lemma_terrain_ring_is_wall(
    areas: Seq<Area>,
    links: Seq<(usize, usize)>,
    rows: int,
    columns: int,
    row: int,
    column: int,
)
    requires
        valid_shape(rows, columns),
        is_layout(areas, links, rows, columns),
        in_field(row, column),
        is_edge(row, column),
    ensures
        terrain(areas, links, columns, row, column) == Floor::Wall,
{
    lemma_partition_well_formed(areas, rows, columns);
    if in_some_room(areas, row, column) {
        let k = choose|k: int| 0 <= k < areas.len() && (#[trigger] areas[k]).in_room(row, column);
        assert(areas[k].well_formed());
    }
    if on_some_corridor(areas, links, columns, row, column) {
        let k = choose|k: int|
            0 <= k < links.len() && on_link(areas, #[trigger] links[k], columns, row, column);
        lemma_link_faces(areas, links[k], rows, columns);
        areas[links[k].0 as int].lemma_anchor_inside();
        areas[links[k].1 as int].lemma_anchor_inside();
    }
}

impl Field<Floor> {
    /// Generates the terrain of a dungeon of `rows` by `columns` regions:
    /// draws a partition with enough rooms, links its regions along a random
    /// spanning tree, and paints the rooms and the corridors of the links.
    ///
    /// An invalid shape is refused before anything is drawn. The generation
    /// is exhausted when the partitions drawn hold too few rooms or the
    /// pairs drawn do not link all regions.
    pub fn gen_field_tree_dip<R: Random>(rnd: &mut R, rows: usize, columns: usize) -> (r: Result<
        Field<Floor>,
        GenerationError,
    >)
        ensures
            !valid_shape(rows as int, columns as int) ==> r == Err::<Field<Floor>, GenerationError>(
                GenerationError::InvalidShape,
            ) && *final(rnd) == *old(rnd),
            valid_shape(rows as int, columns as int) ==> *final(rnd) == layout_of(
                *old(rnd),
                rows as int,
                columns as int,
            ).1 && match r {
                Ok(floors) => is_generated(floors, *old(rnd), rows as int, columns as int),
                Err(e) => e == GenerationError::GenerationExhausted && layout_of(
                    *old(rnd),
                    rows as int,
                    columns as int,
                ).0 is None,
            },
            rows * columns < ROOM_COUNT_MIN ==> r is Err,
    {
        let areas = match synthesize(rnd, rows, columns) {
            Ok(areas) => areas,
            Err(e) => {
                return Err(e);
            },
        };
        let links = match connect(rnd, rows, columns) {
            Ok(links) => links,
            Err(e) => {
                return Err(e);
            },
        };
        Ok(paint(&areas, &links, rows, columns))
    }

    /// The text that shows the terrain: one line for each row, from the
    /// first row to the last, one character for each cell of the row, and a
    /// line break between one line and the next.
    pub open spec fn rendered(&self) -> Seq<char> {
        Seq::new(
            (FIELD_ROW_SIZE * (FIELD_COLUMN_SIZE + 1) - 1) as nat,
            |i: int|
                if i % (FIELD_COLUMN_SIZE + 1) == FIELD_COLUMN_SIZE as int {
                    '\n'
                } else {
                    self.cell(
                        i / (FIELD_COLUMN_SIZE + 1),
                        i % (FIELD_COLUMN_SIZE + 1),
                    ).spec_glyph()
                },
        )
    }

    /// Renders the terrain as text.
    pub fn render(&self) -> (text: String)
        ensures
            text@ == self.rendered(),
    {
        let mut text = String::new();
        let mut row: usize = 0;
        while row < FIELD_ROW_SIZE
            invariant
                row <= FIELD_ROW_SIZE,
                text@.len() == (if row == 0 {
                    0
                } else {
                    row * (FIELD_COLUMN_SIZE + 1) - 1
                }),
                text@ == self.rendered().take(text@.len() as int),
            decreases FIELD_ROW_SIZE - row,
        {
            if row > 0 {
                proof {
                    reveal_strlit("\n");
                    assert(self.rendered().take(text@.len() as int + 1) =~= text@ + "\n"@);
                }
                text.append("\n");
            }
            let mut column: usize = 0;
            while column < FIELD_COLUMN_SIZE
                invariant
                    row < FIELD_ROW_SIZE,
                    column <= FIELD_COLUMN_SIZE,
                    text@.len() == row * (FIELD_COLUMN_SIZE + 1) + column,
                    text@ == self.rendered().take(text@.len() as int),
                decreases FIELD_COLUMN_SIZE - column,
            {
                let floor = *self.get(row, column);
                proof {
                    reveal_strlit("#");
                    reveal_strlit(" ");
                    reveal_strlit(".");
                    let i = text@.len() as int;
                    assert(i == row * 64 + column);
                    assert(i / 64 == row && i % 64 == column);
                    assert(self.rendered().len() == 2623);
                    assert(self.rendered()[i] == floor.spec_glyph());
                    assert(self.rendered().take(text@.len() as int + 1) =~= text@.push(
                        floor.spec_glyph(),
                    ));
                    assert(text@ + seq![floor.spec_glyph()] =~= text@.push(floor.spec_glyph()));
                }
                match floor {
                    Floor::Wall => text.append("#"),
                    Floor::Ground => text.append(" "),
                    Floor::Water => text.append("."),
                }
                column += 1;
            }
            row += 1;
        }
        proof {
            assert(self.rendered().take(text@.len() as int) =~= self.rendered());
        }
        text
    }
}

/// A dungeon: its terrain, and for each cell who stands on it, what lies on
/// it and whether it has been seen.
#[derive(Clone, Debug, PartialEq, Eq)]
pub struct Dungeon {
    /// Who stands on each cell: `0` for nobody.
    pub individuals: Field<u8>,
    /// What lies on each cell: `0` for nothing.
    pub items: Field<u8>,
    /// The terrain.
    pub floors: Field<Floor>,
    /// Whether each cell has been seen: `0` for unseen.
    pub visible: Field<u8>,
}

impl Default for Dungeon {
    /// The dungeon with the default terrain, a wall around open ground, and
    /// nothing in it.
    fn default() -> (dungeon: Dungeon)
        ensures
            dungeon.individuals.is_default(),
            dungeon.items.is_default(),
            dungeon.floors.is_default(),
            dungeon.visible.is_default(),
    {
        Dungeon {
            individuals: Field::default(),
            items: Field::default(),
            floors: Field::default(),
            visible: Field::default(),
        }
    }
}

impl Dungeon {
    /// Generates a dungeon of `rows` by `columns` regions: the terrain is
    /// generated, and nothing is put in it.
    pub fn generate<R: Random>(rnd: &mut R, rows: usize, columns: usize) -> (r: Result<
        Dungeon,
        GenerationError,
    >)
        ensures
            !valid_shape(rows as int, columns as int) ==> r == Err::<Dungeon, GenerationError>(
                GenerationError::InvalidShape,
            ) && *final(rnd) == *old(rnd),
            valid_shape(rows as int, columns as int) ==> *final(rnd) == layout_of(
                *old(rnd),
                rows as int,
                columns as int,
            ).1 && match r {
                Ok(dungeon) => is_generated(dungeon.floors, *old(rnd), rows as int, columns as int)
                    && dungeon.individuals.is_default() && dungeon.items.is_default()
                    && dungeon.visible.is_default(),
                Err(e) => e == GenerationError::GenerationExhausted && layout_of(
                    *old(rnd),
                    rows as int,
                    columns as int,
                ).0 is None,
            },
            rows * columns < ROOM_COUNT_MIN ==> r is Err,
    {
        match Field::gen_field_tree_dip(rnd, rows, columns) {
            Ok(floors) => Ok(
                Dungeon {
                    individuals: Field::default(),
                    floors,
                    items: Field::default(),
                    visible: Field::default(),
                },
            ),
            Err(e) => Err(e),
        }
    }

    /// Generates a dungeon of four by six regions.
    pub fn new_random<R: Random>(rnd: &mut R) -> (r: Result<Dungeon, GenerationError>)
        ensures
            *final(rnd) == layout_of(*old(rnd), 4, 6).1,
            match r {
                Ok(dungeon) => is_generated(dungeon.floors, *old(rnd), 4, 6)
                    && dungeon.individuals.is_default() && dungeon.items.is_default()
                    && dungeon.visible.is_default(),
                Err(e) => e == GenerationError::GenerationExhausted && layout_of(
                    *old(rnd),
                    4,
                    6,
                ).0 is None,
            },
    {
        proof {
            assert(valid_shape(4, 6));
        }
        Dungeon::generate(rnd, 4, 6)
    }

    /// Renders the terrain of the dungeon as text.
    pub fn render(&self) -> (text: String)
        ensures
            text@ == self.floors.rendered(),
    {
        self.floors.render()
    }
}

/// The text of a terrain that is all wall has one line of `#` for each row:
/// `FIELD_ROW_SIZE` lines of `FIELD_COLUMN_SIZE` characters `#`, each line
/// but the last followed by a line break. In the text, a line and its line
/// break take `FIELD_COLUMN_SIZE + 1` places.
pub proof fn lemma_render_all_wall(floors: Field<Floor>)
    requires
        forall|row: int, column: int|
            in_field(row, column) ==> #[trigger] floors.cell(row, column) == Floor::Wall,
    ensures
        floors.rendered().len() == FIELD_ROW_SIZE * (FIELD_COLUMN_SIZE + 1) - 1,
        forall|i: int|
            0 <= i < floors.rendered().len() ==> #[trigger] floors.rendered()[i] == (if i % (
            FIELD_COLUMN_SIZE + 1) == FIELD_COLUMN_SIZE as int {
                '\n'
            } else {
                '#'
            }),
{
    assert forall|i: int| 0 <= i < floors.rendered().len() implies #[trigger] floors.rendered()[i]
        == (if i % (FIELD_COLUMN_SIZE + 1) == FIELD_COLUMN_SIZE as int {
        '\n'
    } else {
        '#'
    }) by {
        if i % (FIELD_COLUMN_SIZE + 1) != FIELD_COLUMN_SIZE as int {
            assert(floors.rendered().len() == 2623);
            assert(0 <= i / 64 < 41);
            assert(0 <= i % 64 < 63);
            assert(in_field(i / (FIELD_COLUMN_SIZE + 1), i % (FIELD_COLUMN_SIZE + 1)));
            assert(floors.cell(i / (FIELD_COLUMN_SIZE + 1), i % (FIELD_COLUMN_SIZE + 1))
                == Floor::Wall);
        }
    }
}

} // verus!
