use dungeon_gen::dungeon::{paint, Dungeon, Floor};
use dungeon_gen::field::{Field, FIELD_COLUMN_SIZE, FIELD_ROW_SIZE};
use dungeon_gen::field_gen::{connect, partition, synthesize, Area, AreaKind, GenerationError};
use dungeon_gen::random::Random;

/// A source that gives out a fixed list of draws, again and again.
struct Script {
    draws: Vec<u32>,
    at: usize,
    taken: usize,
}

impl Script {
    fn new(draws: &[u32]) -> Script {
        Script { draws: draws.to_vec(), at: 0, taken: 0 }
    }
}

impl Random for Script {
    fn next_draw(&self) -> u32 {
        self.draws[self.at]
    }

    fn after_draw(&self) -> Script {
        Script {
            draws: self.draws.clone(),
            at: (self.at + 1) % self.draws.len(),
            taken: self.taken + 1,
        }
    }

    fn gen(&mut self) -> u32 {
        let draw = self.next_draw();
        *self = self.after_draw();
        draw
    }
}

/// The draw that `gen_max(max)` scales to `value`.
fn draw_for(value: u32, max: u32) -> u32 {
    let step = (1u64 << 32) / (max as u64 + 1);
    ((value as u64) * step + step / 2) as u32
}

#[test]
fn scripted_kinds() {
    // a byte below 3 makes the region wall-filled and takes no more draws
    let mut rnd = Script::new(&[0x0000_0002]);
    let area = Area::gen(&mut rnd, 1, 1, 9, 9);
    assert_eq!(area.kind, AreaKind::WallFilled);
    assert_eq!(rnd.taken, 1);
    // a byte from 3 to 15 makes a pathway: two draws place the relay
    let mut rnd = Script::new(&[0xffff_ff03, 0, u32::MAX]);
    let area = Area::gen(&mut rnd, 1, 1, 9, 9);
    assert_eq!(area.kind, AreaKind::PathWay { relay_x: 2, relay_y: 6 });
    assert_eq!(rnd.taken, 3);
    let mut rnd = Script::new(&[0x0000_000f, u32::MAX, 0]);
    let area = Area::gen(&mut rnd, 1, 1, 9, 9);
    assert_eq!(area.kind, AreaKind::PathWay { relay_x: 6, relay_y: 2 });
    // any other byte makes a room: four draws size and place it
    let mut rnd = Script::new(&[0x0000_0010, 0, 0, 0, 0]);
    let area = Area::gen(&mut rnd, 1, 1, 9, 9);
    assert_eq!(area.kind, AreaKind::Room { x: 2, y: 2, row: 4, column: 4 });
    assert_eq!(rnd.taken, 5);
    let mut rnd = Script::new(&[0x0000_00ff, u32::MAX, u32::MAX, u32::MAX, u32::MAX]);
    let area = Area::gen(&mut rnd, 1, 1, 9, 9);
    assert_eq!(area.kind, AreaKind::Room { x: 2, y: 2, row: 5, column: 5 });
    let mut rnd = Script::new(&[0x0000_00ff, 0, u32::MAX, u32::MAX, 0]);
    let area = Area::gen(&mut rnd, 5, 7, 9, 12);
    assert_eq!(area.kind, AreaKind::Room { x: 3, y: 2, row: 4, column: 8 });
    assert_eq!((area.x, area.y, area.rows, area.columns), (5, 7, 9, 12));
}

#[test]
fn scripted_synthesis_gives_up() {
    // every region wall-filled: no partition ever has four rooms
    let mut rnd = Script::new(&[0]);
    assert_eq!(
        synthesize(&mut rnd, 4, 6),
        Err(GenerationError::GenerationExhausted)
    );
    // 64 partitions of 24 regions, one draw each
    assert_eq!(rnd.taken, 64 * 24);
    // three rooms are not enough
    let mut rnd = Script::new(&[0xff, 0, 0, 0, 0, 0xff, 0, 0, 0, 0, 0xff, 0, 0, 0, 0, 1]);
    assert_eq!(
        synthesize(&mut rnd, 2, 2),
        Err(GenerationError::GenerationExhausted)
    );
    // four rooms are
    let mut rnd = Script::new(&[0xff, 0, 0, 0, 0]);
    let areas = synthesize(&mut rnd, 2, 2).expect("four rooms");
    assert_eq!(rnd.taken, 20);
    assert_eq!(areas.len(), 4);
    assert_eq!(areas[3].x, 21);
    assert_eq!(areas[3].y, 32);
    assert_eq!(areas[3].rows, 19);
    assert_eq!(areas[3].columns, 30);
}

#[test]
fn scripted_synthesis_retries() {
    // the first partition has three rooms and a rock, the second four rooms
    let mut draws = Vec::new();
    for _ in 0..3 {
        draws.extend_from_slice(&[0xff, 0, 0, 0, 0]);
    }
    draws.push(1);
    for _ in 0..4 {
        draws.extend_from_slice(&[0x80, u32::MAX, 0, 0, 0]);
    }
    let mut rnd = Script::new(&draws);
    let areas = synthesize(&mut rnd, 2, 2).expect("the second partition");
    assert_eq!(rnd.taken, 16 + 20);
    for area in &areas {
        assert_eq!(area.kind, AreaKind::Room { x: 2, y: 2, row: 19 - 4, column: 4 });
    }
}

#[test]
fn scripted_connection() {
    // right from 0, down from 0, down from 1: a tree on two by two regions
    let draws = [
        draw_for(0, 2),
        draw_for(0, 3),
        draw_for(1, 2),
        draw_for(0, 3),
        draw_for(1, 2),
        draw_for(1, 3),
    ];
    let mut rnd = Script::new(&draws);
    assert_eq!(connect(&mut rnd, 2, 2), Ok(vec![(0, 1), (0, 2), (1, 3)]));
    assert_eq!(rnd.taken, 6);
    // a pair that is linked already, or has no neighbour, is passed over
    let draws = [
        draw_for(0, 2),
        draw_for(0, 3),
        draw_for(2, 2),
        draw_for(0, 3),
        draw_for(0, 2),
        draw_for(1, 3),
        draw_for(1, 2),
        draw_for(2, 3),
        draw_for(1, 2),
        draw_for(0, 3),
        draw_for(1, 2),
        draw_for(1, 3),
    ];
    let mut rnd = Script::new(&draws);
    assert_eq!(connect(&mut rnd, 2, 2), Ok(vec![(0, 1), (0, 2), (1, 3)]));
    assert_eq!(rnd.taken, 12);
    // the same pair over and over never links all regions
    let mut rnd = Script::new(&[draw_for(0, 2), draw_for(0, 3)]);
    assert_eq!(
        connect(&mut rnd, 2, 2),
        Err(GenerationError::GenerationExhausted)
    );
    assert_eq!(rnd.taken, 2 * 10000);
}

#[test]
fn scripted_dungeon() {
    // four rooms of four by four cells at the padding, then the tree above
    let mut draws = Vec::new();
    for _ in 0..4 {
        draws.extend_from_slice(&[0xff, 0, 0, 0, 0]);
    }
    draws.extend_from_slice(&[
        draw_for(0, 2),
        draw_for(0, 3),
        draw_for(1, 2),
        draw_for(0, 3),
        draw_for(1, 2),
        draw_for(1, 3),
    ]);
    let mut rnd = Script::new(&draws);
    let dungeon = Dungeon::generate(&mut rnd, 2, 2).expect("a dungeon");
    assert_eq!(rnd.taken, 26);
    let mut expected = Field::filled(Floor::Wall);
    // corridor from region 0 to region 1: anchors (5, 5) and (5, 36), wall line 31
    for column in 5..=36 {
        expected.set(5, column, Floor::Water);
    }
    // corridor from region 0 to region 2: anchors (5, 5) and (25, 5), wall line 20
    for row in 5..=25 {
        expected.set(row, 5, Floor::Water);
    }
    // corridor from region 1 to region 3: anchors (5, 36) and (25, 36)
    for row in 5..=25 {
        expected.set(row, 36, Floor::Water);
    }
    // rooms: regions start at rows 1 and 21, columns 1 and 32
    for (top, left) in [(1, 1), (1, 32), (21, 1), (21, 32)] {
        for row in 0..4 {
            for column in 0..4 {
                expected.set(top + 2 + row, left + 2 + column, Floor::Ground);
            }
        }
    }
    assert_eq!(dungeon.floors.render(), expected.render());
    assert_eq!(dungeon.floors, expected);
    assert_eq!(dungeon.individuals, Field::default());
    let text = dungeon.render();
    assert_eq!(text.len(), FIELD_ROW_SIZE * (FIELD_COLUMN_SIZE + 1) - 1);
}

#[test]
fn scripted_corridor_with_a_turn() {
    // two regions side by side, the rooms at different heights
    let areas = vec![
        Area { kind: AreaKind::Room { x: 2, y: 2, row: 4, column: 4 }, x: 1, y: 1, rows: 40, columns: 30 },
        Area { kind: AreaKind::PathWay { relay_x: 30, relay_y: 10 }, x: 1, y: 32, rows: 40, columns: 30 },
    ];
    let floors = paint(&areas, &vec![(0, 1)], 1, 2);
    let mut expected = Field::filled(Floor::Wall);
    // from the anchor (5, 5) right to the wall line at column 31
    for column in 5..=31 {
        expected.set(5, column, Floor::Water);
    }
    // along the wall line to the row of the relay, 31
    for row in 5..=31 {
        expected.set(row, 31, Floor::Water);
    }
    // and right to the relay at (31, 42)
    for column in 31..=42 {
        expected.set(31, column, Floor::Water);
    }
    for row in 3..7 {
        for column in 3..7 {
            expected.set(row, column, Floor::Ground);
        }
    }
    assert_eq!(floors, expected);
    let mut rnd = Script::new(&[7]);
    assert_eq!(partition(&mut rnd, 1, 2).len(), 2);
}
