use dungeon_gen::field::{FIELD_COLUMN_SIZE, FIELD_ROW_SIZE};
use dungeon_gen::field_gen::{
    check_shape, connect, count_rooms, merge, neighbour, partition, synthesize, Area, AreaKind,
    GenerationError, AREA_PADDING, AREA_SIZE_MIN, ROOM_SIZE_MIN,
};
use dungeon_gen::grid::Direction;
use dungeon_gen::random::{LfsrRandom, Random};

#[test]
fn shapes() {
    assert!(check_shape(4, 6));
    assert!(check_shape(1, 1));
    assert!(check_shape(3, 5));
    assert!(!check_shape(0, 1));
    assert!(!check_shape(1, 0));
    assert!(!check_shape(5, 6));
    assert!(!check_shape(4, 7));
    assert!(!check_shape(usize::MAX, usize::MAX));
}

#[test]
fn constants() {
    assert_eq!(AREA_SIZE_MIN, 8);
    assert_eq!(AREA_PADDING, 2);
    assert_eq!(ROOM_SIZE_MIN, 4);
}

fn fits(kind: AreaKind, rows: usize, columns: usize) -> bool {
    match kind {
        AreaKind::Room { x, y, row, column } => {
            row >= ROOM_SIZE_MIN
                && column >= ROOM_SIZE_MIN
                && x >= AREA_PADDING
                && y >= AREA_PADDING
                && x + row + AREA_PADDING <= rows
                && y + column + AREA_PADDING <= columns
        }
        AreaKind::PathWay { relay_x, relay_y } => {
            relay_x >= AREA_PADDING
                && relay_x + AREA_PADDING < rows
                && relay_y >= AREA_PADDING
                && relay_y + AREA_PADDING < columns
        }
        AreaKind::WallFilled => true,
        AreaKind::Unassigned => false,
    }
}

#[test]
fn partition_places_the_regions() {
    let mut rnd = LfsrRandom::default();
    let areas = partition(&mut rnd, 4, 6);
    assert_eq!(areas.len(), 24);
    for (k, area) in areas.iter().enumerate() {
        assert_eq!(area.x, (k / 6) * 10 + 1);
        assert_eq!(area.y, (k % 6) * 10 + 1);
        assert_eq!(area.coarse(), (k / 6, k % 6));
        assert_eq!(area.rows, 9);
        assert_eq!(area.columns, 9);
        assert!(fits(area.kind, 9, 9));
        assert!(area.x + area.rows <= FIELD_ROW_SIZE);
        assert!(area.y + area.columns <= FIELD_COLUMN_SIZE);
    }
    let areas = partition(&mut rnd, 3, 2);
    assert_eq!(areas.len(), 6);
    for (k, area) in areas.iter().enumerate() {
        assert_eq!(area.x, (k / 2) * 13 + 1);
        assert_eq!(area.y, (k % 2) * 31 + 1);
        assert_eq!(area.coarse(), (k / 2, k % 2));
        assert_eq!(area.rows, 12);
        assert_eq!(area.columns, 30);
        assert!(fits(area.kind, 12, 30));
    }
}

#[test]
fn synthesis_keeps_four_rooms() {
    for seed in [0x17291729u32, 1, 2, 3, 0xdeadbeef] {
        let mut rnd = LfsrRandom::new(seed);
        for (rows, columns) in [(4, 6), (2, 2), (3, 4), (1, 6), (4, 1)] {
            match synthesize(&mut rnd, rows, columns) {
                Ok(areas) => {
                    assert_eq!(areas.len(), rows * columns);
                    assert!(count_rooms(&areas) >= 4);
                    let rooms = areas
                        .iter()
                        .filter(|a| matches!(a.kind, AreaKind::Room { .. }))
                        .count();
                    assert_eq!(rooms, count_rooms(&areas));
                }
                Err(e) => assert_eq!(e, GenerationError::GenerationExhausted),
            }
        }
    }
}

#[test]
fn synthesis_errors() {
    let mut rnd = LfsrRandom::new(3);
    assert_eq!(synthesize(&mut rnd, 0, 3), Err(GenerationError::InvalidShape));
    assert_eq!(synthesize(&mut rnd, 5, 5), Err(GenerationError::InvalidShape));
    assert_eq!(rnd.state(), 3);
    assert_eq!(
        synthesize(&mut rnd, 1, 3),
        Err(GenerationError::GenerationExhausted)
    );
    assert_eq!(connect(&mut rnd, 0, 3), Err(GenerationError::InvalidShape));
}

#[test]
fn area_gen_follows_the_draws() {
    for seed in 0..2000u32 {
        let mut rnd = LfsrRandom::new(seed.wrapping_mul(2654435761));
        let mut probe = LfsrRandom::new(seed.wrapping_mul(2654435761));
        let area = Area::gen(&mut rnd, 11, 21, 9, 12);
        assert_eq!((area.x, area.y, area.rows, area.columns), (11, 21, 9, 12));
        let selection = probe.gen_u8();
        let expected = if selection < 3 {
            AreaKind::WallFilled
        } else if selection < 16 {
            let relay_x = 2 + probe.gen_max(4) as usize;
            let relay_y = 2 + probe.gen_max(7) as usize;
            AreaKind::PathWay { relay_x, relay_y }
        } else {
            let row = 4 + probe.gen_max(1) as usize;
            let column = 4 + probe.gen_max(4) as usize;
            let x = 2 + probe.gen_max((9 - row - 4) as u32) as usize;
            let y = 2 + probe.gen_max((12 - column - 4) as u32) as usize;
            AreaKind::Room { x, y, row, column }
        };
        assert_eq!(area.kind, expected);
        assert_eq!(rnd.state(), probe.state());
        assert!(fits(area.kind, 9, 12));
    }
}

#[test]
fn anchors_and_reach() {
    let room = Area {
        kind: AreaKind::Room { x: 2, y: 3, row: 4, column: 5 },
        x: 11,
        y: 21,
        rows: 9,
        columns: 12,
    };
    assert_eq!(room.anchor(), (15, 26));
    assert_eq!(room.reach_out(Direction::Right), ((15, 26), (15, 33)));
    assert_eq!(room.reach_out(Direction::Left), ((15, 26), (15, 20)));
    assert_eq!(room.reach_out(Direction::Up), ((15, 26), (10, 26)));
    assert_eq!(room.reach_out(Direction::Down), ((15, 26), (20, 26)));
    assert_eq!(room.reach_out(Direction::UpLeft), ((15, 26), (10, 20)));
    assert_eq!(room.reach_out(Direction::DownRight), ((15, 26), (20, 33)));
    let relay = Area {
        kind: AreaKind::PathWay { relay_x: 6, relay_y: 2 },
        ..room
    };
    assert_eq!(relay.anchor(), (17, 23));
    let rock = Area { kind: AreaKind::WallFilled, ..room };
    assert_eq!(rock.anchor(), (15, 27));
}

#[test]
fn neighbours() {
    assert_eq!(neighbour(0, false, 4, 6), Some(1));
    assert_eq!(neighbour(5, false, 4, 6), None);
    assert_eq!(neighbour(5, true, 4, 6), Some(11));
    assert_eq!(neighbour(17, true, 4, 6), Some(23));
    assert_eq!(neighbour(18, true, 4, 6), None);
    assert_eq!(neighbour(23, false, 4, 6), None);
    assert_eq!(neighbour(22, false, 4, 6), Some(23));
    assert_eq!(neighbour(0, false, 4, 1), None);
    assert_eq!(neighbour(0, true, 4, 1), Some(1));
}

#[test]
fn merging() {
    let mut groups = vec![0, 1, 2, 1, 0];
    assert!(merge(&mut groups, 0, 1));
    assert_eq!(groups, vec![0, 0, 2, 0, 0]);
    assert!(!merge(&mut groups, 1, 4));
    assert_eq!(groups, vec![0, 0, 2, 0, 0]);
    assert!(merge(&mut groups, 2, 4));
    assert_eq!(groups, vec![2, 2, 2, 2, 2]);
}

fn spans(links: &[(usize, usize)], rows: usize, columns: usize) {
    let count = rows * columns;
    assert_eq!(links.len(), count - 1);
    for &(s, t) in links {
        assert!(t < count);
        assert!(t == s + columns || (t == s + 1 && t % columns != 0));
    }
    let mut seen = vec![false; count];
    let mut stack = vec![0];
    seen[0] = true;
    while let Some(at) = stack.pop() {
        for &(s, t) in links {
            let other = if s == at {
                t
            } else if t == at {
                s
            } else {
                continue;
            };
            if !seen[other] {
                seen[other] = true;
                stack.push(other);
            }
        }
    }
    assert!(seen.into_iter().all(|s| s));
}

#[test]
fn connection_is_a_spanning_tree() {
    for seed in [0x17291729u32, 1, 2, 3, 0xdeadbeef, 77] {
        for (rows, columns) in [(4, 6), (1, 1), (1, 6), (4, 1), (2, 3), (3, 4)] {
            let mut rnd = LfsrRandom::new(seed);
            match connect(&mut rnd, rows, columns) {
                Ok(links) => spans(&links, rows, columns),
                Err(e) => assert_eq!(e, GenerationError::GenerationExhausted),
            }
        }
    }
    let mut rnd = LfsrRandom::default();
    let links = connect(&mut rnd, 4, 6).expect("the default seed connects");
    spans(&links, 4, 6);
    let mut rnd = LfsrRandom::new(9);
    assert_eq!(connect(&mut rnd, 1, 1), Ok(vec![]));
    assert_eq!(rnd.state(), 9);
}
