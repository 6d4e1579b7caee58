//! Passage through the terrain of a layout: every room can be walked to
//! from every other, over cells that are not wall.

use crate::dungeon::{between, in_some_room, is_layout, on_corridor, on_link, on_some_corridor};
use crate::dungeon::{lemma_link_faces, link_direction, on_stretch, terrain, Floor};
use crate::field::in_field;
use crate::field_gen::{adjacent, is_partition, is_walk, linked, reachable, step_linked};
use crate::field_gen::{lemma_partition_well_formed, valid_shape, Area};
use vstd::prelude::*;

verus! {

/// Whether the cells `p` and `q` are neighbours: one step apart in a row or
/// in a column.
pub open spec fn next_to(p: (int, int), q: (int, int)) -> bool {
    ||| (p.0 == q.0 && (p.1 == q.1 + 1 || q.1 == p.1 + 1))
    ||| (p.1 == q.1 && (p.0 == q.0 + 1 || q.0 == p.0 + 1))
}

/// Whether `cell` is a cell of the grid that is not wall in the terrain of
/// the regions `areas` and the links `links`.
pub open spec fn passable(
    areas: Seq<Area>,
    links: Seq<(usize, usize)>,
    columns: int,
    cell: (int, int),
) -> bool {
    in_field(cell.0, cell.1) && terrain(areas, links, columns, cell.0, cell.1) != Floor::Wall
}

/// Whether the cells `i` and `i + 1` of `cells` are neighbours.
pub open spec fn trail_step(cells: Seq<(int, int)>, i: int) -> bool {
    next_to(cells[i], cells[i + 1])
}

/// Whether `cells` is a trail through the terrain: a sequence of passable
/// cells, not empty, in which each cell is a neighbour of the next.
pub open spec fn is_trail(
    areas: Seq<Area>,
    links: Seq<(usize, usize)>,
    columns: int,
    cells: Seq<(int, int)>,
) -> bool {
    &&& cells.len() >= 1
    &&& forall|i: int| 0 <= i < cells.len() ==> passable(areas, links, columns, #[trigger] cells[i])
    &&& forall|i: int| 0 <= i < cells.len() - 1 ==> #[trigger] trail_step(cells, i)
}

/// Whether a trail through the terrain leads from the cell `p` to the cell
/// `q`.
pub open spec fn joined(
    areas: Seq<Area>,
    links: Seq<(usize, usize)>,
    columns: int,
    p: (int, int),
    q: (int, int),
) -> bool {
    exists|cells: Seq<(int, int)>| #[trigger]
        is_trail(areas, links, columns, cells) && cells.first() == p && cells.last() == q
}

/// The distance between two cells, counted in steps along rows and columns.
pub open spec fn steps_between(p: (int, int), q: (int, int)) -> int {
    (if p.0 <= q.0 {
        q.0 - p.0
    } else {
        p.0 - q.0
    }) + (if p.1 <= q.1 {
        q.1 - p.1
    } else {
        p.1 - q.1
    })
}

/// A trail from `p` to `m` and a trail from `m` to `q` make a trail from
/// `p` to `q`.
pub proof fn lemma_joined_through(
    areas: Seq<Area>,
    links: Seq<(usize, usize)>,
    columns: int,
    p: (int, int),
    m: (int, int),
    q: (int, int),
)
    requires
        joined(areas, links, columns, p, m),
        joined(areas, links, columns, m, q),
    ensures
        joined(areas, links, columns, p, q),
{
    let first = choose|cells: Seq<(int, int)>| #[trigger]
        is_trail(areas, links, columns, cells) && cells.first() == p && cells.last() == m;
    let second = choose|cells: Seq<(int, int)>| #[trigger]
        is_trail(areas, links, columns, cells) && cells.first() == m && cells.last() == q;
    let tail = second.subrange(1, second.len() as int);
    let cells = first + tail;
    assert forall|i: int| 0 <= i < cells.len() implies passable(
        areas,
        links,
        columns,
        #[trigger] cells[i],
    ) by {
        if i < first.len() {
            assert(cells[i] == first[i]);
        } else {
            assert(cells[i] == second[i - first.len() + 1]);
        }
    }
    assert forall|i: int| 0 <= i < cells.len() - 1 implies #[trigger] trail_step(cells, i) by {
        if i < first.len() - 1 {
            assert(trail_step(first, i));
        } else {
            let j = i - first.len() + 1;
            assert(trail_step(second, j));
            assert(cells[i + 1] == second[j + 1]);
            if j == 0 {
                assert(cells[i] == first.last());
            } else {
                assert(cells[i] == second[j]);
            }
        }
    }
    assert(cells.first() == first.first());
    if second.len() == 1 {
        assert(cells =~= first);
    } else {
        assert(cells.last() == second.last());
    }
    assert(is_trail(areas, links, columns, cells));
}

/// Where every cell of a straight stretch is passable, a trail leads from
/// one end of the stretch to the other.
pub proof fn lemma_stretch_joined(
    areas: Seq<Area>,
    links: Seq<(usize, usize)>,
    columns: int,
    p: (int, int),
    q: (int, int),
)
    requires
        p.0 == q.0 || p.1 == q.1,
        forall|row: int, column: int| #[trigger]
            on_stretch(p, q, row, column) ==> passable(areas, links, columns, (row, column)),
    ensures
        joined(areas, links, columns, p, q),
    decreases steps_between(p, q),
{
    assert(on_stretch(p, q, p.0, p.1));
    if p == q {
        let cells = seq![p];
        assert(cells[0] == p);
        assert(is_trail(areas, links, columns, cells));
        assert(cells.first() == p && cells.last() == q);
    } else {
        let n: (int, int) = if p.0 == q.0 {
            if p.1 < q.1 {
                (p.0, p.1 + 1)
            } else {
                (p.0, p.1 - 1)
            }
        } else {
            if p.0 < q.0 {
                (p.0 + 1, p.1)
            } else {
                (p.0 - 1, p.1)
            }
        };
        assert forall|row: int, column: int| #[trigger] on_stretch(n, q, row, column) implies passable(
            areas,
            links,
            columns,
            (row, column),
        ) by {
            assert(on_stretch(p, q, row, column));
        }
        lemma_stretch_joined(areas, links, columns, n, q);
        let rest = choose|cells: Seq<(int, int)>| #[trigger]
            is_trail(areas, links, columns, cells) && cells.first() == n && cells.last() == q;
        let cells = seq![p] + rest;
        assert forall|i: int| 0 <= i < cells.len() implies passable(
            areas,
            links,
            columns,
            #[trigger] cells[i],
        ) by {
            if i > 0 {
                assert(cells[i] == rest[i - 1]);
            }
        }
        assert forall|i: int| 0 <= i < cells.len() - 1 implies #[trigger] trail_step(cells, i) by {
            assert(cells[i + 1] == rest[i]);
            if i > 0 {
                assert(cells[i] == rest[i - 1]);
                assert(trail_step(rest, i - 1));
            }
        }
        assert(cells.first() == p);
        assert(cells.last() == rest.last());
        assert(is_trail(areas, links, columns, cells));
    }
}

/// The corridor of a link is a trail between the anchors of its two
/// regions, in either direction.
pub proof fn lemma_link_joined(
    areas: Seq<Area>,
    links: Seq<(usize, usize)>,
    rows: int,
    columns: int,
    k: int,
)
    requires
        valid_shape(rows, columns),
        is_partition(areas, rows, columns),
        forall|i: int|
            0 <= i < links.len() ==> adjacent(
                (#[trigger] links[i]).0 as int,
                links[i].1 as int,
                rows,
                columns,
            ),
        0 <= k < links.len(),
    ensures
        joined(
            areas,
            links,
            columns,
            areas[links[k].0 as int].spec_anchor(),
            areas[links[k].1 as int].spec_anchor(),
        ),
        joined(
            areas,
            links,
            columns,
            areas[links[k].1 as int].spec_anchor(),
            areas[links[k].0 as int].spec_anchor(),
        ),
{
    lemma_link_faces(areas, links[k], rows, columns);
    let a = areas[links[k].0 as int];
    let b = areas[links[k].1 as int];
    let direction = link_direction(links[k], columns);
    a.lemma_anchor_inside();
    b.lemma_anchor_inside();
    let start = a.spec_anchor();
    let leave = a.spec_border(direction);
    let enter = b.spec_border(direction.opposite());
    let end = b.spec_anchor();
    assert forall|row: int, column: int| on_corridor(a, b, direction, row, column) implies passable(
        areas,
        links,
        columns,
        (row, column),
    ) by {
        assert(on_link(areas, links[k], columns, row, column));
        assert(on_some_corridor(areas, links, columns, row, column));
    }
    assert forall|row: int, column: int| #[trigger] on_stretch(start, leave, row, column) implies passable(
        areas,
        links,
        columns,
        (row, column),
    ) by {
        assert(on_corridor(a, b, direction, row, column));
    }
    assert forall|row: int, column: int| #[trigger] on_stretch(leave, enter, row, column) implies passable(
        areas,
        links,
        columns,
        (row, column),
    ) by {
        assert(on_corridor(a, b, direction, row, column));
    }
    assert forall|row: int, column: int| #[trigger] on_stretch(enter, end, row, column) implies passable(
        areas,
        links,
        columns,
        (row, column),
    ) by {
        assert(on_corridor(a, b, direction, row, column));
    }
    assert forall|row: int, column: int| #[trigger] on_stretch(leave, start, row, column) implies passable(
        areas,
        links,
        columns,
        (row, column),
    ) by {
        assert(on_stretch(start, leave, row, column));
    }
    assert forall|row: int, column: int| #[trigger] on_stretch(enter, leave, row, column) implies passable(
        areas,
        links,
        columns,
        (row, column),
    ) by {
        assert(on_stretch(leave, enter, row, column));
    }
    assert forall|row: int, column: int| #[trigger] on_stretch(end, enter, row, column) implies passable(
        areas,
        links,
        columns,
        (row, column),
    ) by {
        assert(on_stretch(enter, end, row, column));
    }
    lemma_stretch_joined(areas, links, columns, start, leave);
    lemma_stretch_joined(areas, links, columns, leave, enter);
    lemma_stretch_joined(areas, links, columns, enter, end);
    lemma_joined_through(areas, links, columns, start, leave, enter);
    lemma_joined_through(areas, links, columns, start, enter, end);
    lemma_stretch_joined(areas, links, columns, end, enter);
    lemma_stretch_joined(areas, links, columns, enter, leave);
    lemma_stretch_joined(areas, links, columns, leave, start);
    lemma_joined_through(areas, links, columns, end, enter, leave);
    lemma_joined_through(areas, links, columns, end, leave, start);
}

/// Along a walk over the links, from region to linked region, a trail
/// leads from the anchor of the first region to the anchor of the last.
pub proof fn lemma_walk_joined(
    areas: Seq<Area>,
    links: Seq<(usize, usize)>,
    rows: int,
    columns: int,
    path: Seq<int>,
)
    requires
        valid_shape(rows, columns),
        is_partition(areas, rows, columns),
        forall|i: int|
            0 <= i < links.len() ==> adjacent(
                (#[trigger] links[i]).0 as int,
                links[i].1 as int,
                rows,
                columns,
            ),
        is_walk(links, path),
        path.len() >= 2,
    ensures
        joined(
            areas,
            links,
            columns,
            areas[path.first()].spec_anchor(),
            areas[path.last()].spec_anchor(),
        ),
    decreases path.len(),
{
    let last = path.len() - 1;
    assert(step_linked(links, path, last - 1));
    let k = choose|k: int|
        0 <= k < links.len() && (((#[trigger] links[k]).0 == path[last - 1] && links[k].1
            == path[last]) || (links[k].0 == path[last] && links[k].1 == path[last - 1]));
    lemma_link_joined(areas, links, rows, columns, k);
    if path.len() > 2 {
        let shorter = path.drop_last();
        assert forall|i: int| 0 <= i < shorter.len() - 1 implies #[trigger] step_linked(
            links,
            shorter,
            i,
        ) by {
            assert(step_linked(links, path, i));
        }
        lemma_walk_joined(areas, links, rows, columns, shorter);
        lemma_joined_through(
            areas,
            links,
            columns,
            areas[path.first()].spec_anchor(),
            areas[path[last - 1]].spec_anchor(),
            areas[path.last()].spec_anchor(),
        );
    }
}

/// A trail leads from every cell of a room to the anchor of its region,
/// and back.
pub proof fn lemma_room_joined(
    areas: Seq<Area>,
    links: Seq<(usize, usize)>,
    columns: int,
    k: int,
    cell: (int, int),
)
    requires
        0 <= k < areas.len(),
        areas[k].well_formed(),
        areas[k].in_room(cell.0, cell.1),
    ensures
        joined(areas, links, columns, cell, areas[k].spec_anchor()),
        joined(areas, links, columns, areas[k].spec_anchor(), cell),
{
    let area = areas[k];
    area.lemma_anchor_inside();
    let anchor = area.spec_anchor();
    let turn = (cell.0, anchor.1);
    assert forall|row: int, column: int| area.in_room(row, column) implies passable(
        areas,
        links,
        columns,
        (row, column),
    ) by {
        assert(in_some_room(areas, row, column));
    }
    assert forall|row: int, column: int| #[trigger] on_stretch(cell, turn, row, column) implies passable(
        areas,
        links,
        columns,
        (row, column),
    ) by {
        assert(area.in_room(row, column));
    }
    assert forall|row: int, column: int| #[trigger] on_stretch(turn, anchor, row, column) implies passable(
        areas,
        links,
        columns,
        (row, column),
    ) by {
        assert(area.in_room(row, column));
    }
    assert forall|row: int, column: int| #[trigger] on_stretch(turn, cell, row, column) implies passable(
        areas,
        links,
        columns,
        (row, column),
    ) by {
        assert(area.in_room(row, column));
    }
    assert forall|row: int, column: int| #[trigger] on_stretch(anchor, turn, row, column) implies passable(
        areas,
        links,
        columns,
        (row, column),
    ) by {
        assert(area.in_room(row, column));
    }
    lemma_stretch_joined(areas, links, columns, cell, turn);
    lemma_stretch_joined(areas, links, columns, turn, anchor);
    lemma_joined_through(areas, links, columns, cell, turn, anchor);
    lemma_stretch_joined(areas, links, columns, anchor, turn);
    lemma_stretch_joined(areas, links, columns, turn, cell);
    lemma_joined_through(areas, links, columns, anchor, turn, cell);
}

/// In the terrain of a layout every room is reached from every other: from
/// each cell of a room a trail of cells that are not wall leads to each cell
/// of each room.
pub proof fn lemma_rooms_joined(
    areas: Seq<Area>,
    links: Seq<(usize, usize)>,
    rows: int,
    columns: int,
    p: (int, int),
    q: (int, int),
)
    requires
        valid_shape(rows, columns),
        is_layout(areas, links, rows, columns),
        in_some_room(areas, p.0, p.1),
        in_some_room(areas, q.0, q.1),
    ensures
        joined(areas, links, columns, p, q),
{
    lemma_partition_well_formed(areas, rows, columns);
    let i = choose|i: int| 0 <= i < areas.len() && (#[trigger] areas[i]).in_room(p.0, p.1);
    let j = choose|j: int| 0 <= j < areas.len() && (#[trigger] areas[j]).in_room(q.0, q.1);
    lemma_room_joined(areas, links, columns, i, p);
    lemma_room_joined(areas, links, columns, j, q);
    if i == j {
        lemma_joined_through(areas, links, columns, p, areas[i].spec_anchor(), q);
    } else {
        assert(reachable(links, i, j));
        let path = choose|path: Seq<int>| #[trigger]
            is_walk(links, path) && path.first() == i && path.last() == j;
        lemma_walk_joined(areas, links, rows, columns, path);
        lemma_joined_through(
            areas,
            links,
            columns,
            p,
            areas[i].spec_anchor(),
            areas[j].spec_anchor(),
        );
        lemma_joined_through(areas, links, columns, p, areas[j].spec_anchor(), q);
    }
}

} // verus!
