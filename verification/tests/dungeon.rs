use dungeon_gen::dungeon::{Dungeon, Floor};
use dungeon_gen::field::{Field, FIELD_COLUMN_SIZE, FIELD_ROW_SIZE};
use dungeon_gen::field_gen::GenerationError;
use dungeon_gen::random::LfsrRandom;
use std::mem::size_of;

#[test]
fn dungeon_test() {
    println!("{}", size_of::<Field<u8>>());
    println!("{}", size_of::<Dungeon>());
    println!("{}", Dungeon::default().render());
}

#[test]
fn default_dungeon_text() {
    let text = Dungeon::default().render();
    let lines: Vec<&str> = text.split('\n').collect();
    assert_eq!(lines.len(), FIELD_ROW_SIZE);
    for (row, line) in lines.iter().enumerate() {
        assert_eq!(line.chars().count(), FIELD_COLUMN_SIZE);
        for (column, glyph) in line.chars().enumerate() {
            let edge = row == 0
                || row == FIELD_ROW_SIZE - 1
                || column == 0
                || column == FIELD_COLUMN_SIZE - 1;
            assert_eq!(glyph, if edge { '#' } else { ' ' });
        }
    }
    assert!(!text.ends_with('\n'));
}

#[test]
fn all_wall_text() {
    let text = Field::filled(Floor::Wall).render();
    let line = "#".repeat(FIELD_COLUMN_SIZE);
    let expected = vec![line; FIELD_ROW_SIZE].join("\n");
    assert_eq!(text, expected);
    assert_eq!(text.len(), FIELD_ROW_SIZE * (FIELD_COLUMN_SIZE + 1) - 1);
}

#[test]
fn glyphs() {
    assert_eq!(Floor::Wall.glyph(), '#');
    assert_eq!(Floor::Ground.glyph(), ' ');
    assert_eq!(Floor::Water.glyph(), '.');
    let mut field = Field::filled(Floor::Wall);
    field.set(0, 1, Floor::Ground);
    field.set(1, 0, Floor::Water);
    let text = field.render();
    assert!(text.starts_with("# #"));
    assert_eq!(text.chars().nth(FIELD_COLUMN_SIZE + 1), Some('.'));
}

fn open(text: &[Vec<char>], row: usize, column: usize) -> bool {
    text[row][column] == ' ' || text[row][column] == '.'
}

fn flood(text: &[Vec<char>], row: usize, column: usize) -> Vec<Vec<bool>> {
    let mut seen = vec![vec![false; FIELD_COLUMN_SIZE]; FIELD_ROW_SIZE];
    let mut stack = vec![(row, column)];
    seen[row][column] = true;
    while let Some((r, c)) = stack.pop() {
        let mut next = Vec::new();
        if r > 0 {
            next.push((r - 1, c));
        }
        if r + 1 < FIELD_ROW_SIZE {
            next.push((r + 1, c));
        }
        if c > 0 {
            next.push((r, c - 1));
        }
        if c + 1 < FIELD_COLUMN_SIZE {
            next.push((r, c + 1));
        }
        for (nr, nc) in next {
            if !seen[nr][nc] && open(text, nr, nc) {
                seen[nr][nc] = true;
                stack.push((nr, nc));
            }
        }
    }
    seen
}

#[test]
fn generation_is_deterministic_and_connected() {
    let mut first = LfsrRandom::default();
    let mut second = LfsrRandom::default();
    let a = Dungeon::generate(&mut first, 4, 6).expect("the default seed generates");
    let b = Dungeon::generate(&mut second, 4, 6).expect("the default seed generates");
    let text = a.render();
    assert_eq!(text, b.render());
    assert_eq!(a, b);
    assert_eq!(first.state(), second.state());
    println!("{}", text);

    let grid: Vec<Vec<char>> = text.split('\n').map(|l| l.chars().collect()).collect();
    assert_eq!(grid.len(), FIELD_ROW_SIZE);
    // the outer ring is wall
    for row in 0..FIELD_ROW_SIZE {
        for column in 0..FIELD_COLUMN_SIZE {
            let edge = row == 0
                || row == FIELD_ROW_SIZE - 1
                || column == 0
                || column == FIELD_COLUMN_SIZE - 1;
            if edge {
                assert_eq!(grid[row][column], '#');
            }
        }
    }
    // every open cell is reached from the first open cell
    let mut start = None;
    for row in 0..FIELD_ROW_SIZE {
        for column in 0..FIELD_COLUMN_SIZE {
            if start.is_none() && grid[row][column] == ' ' {
                start = Some((row, column));
            }
        }
    }
    let (row, column) = start.expect("a room");
    let seen = flood(&grid, row, column);
    let mut ground = 0;
    for row in 0..FIELD_ROW_SIZE {
        for column in 0..FIELD_COLUMN_SIZE {
            if open(&grid, row, column) {
                assert!(seen[row][column], "cell {} {} is cut off", row, column);
            }
            if grid[row][column] == ' ' {
                ground += 1;
            }
        }
    }
    // four rooms of at least four by four cells
    assert!(ground >= 4 * 16);
    assert_eq!(*a.individuals.get(3, 3), 0);
    assert_eq!(a.items, Field::default());
    assert_eq!(a.visible, Field::default());
}

#[test]
fn new_random_is_four_by_six() {
    let mut first = LfsrRandom::new(7);
    let mut second = LfsrRandom::new(7);
    assert_eq!(
        Dungeon::new_random(&mut first),
        Dungeon::generate(&mut second, 4, 6)
    );
}

#[test]
fn invalid_shapes_are_refused_without_a_draw() {
    for (rows, columns) in [(0, 6), (4, 0), (5, 6), (4, 7), (0, 0), (100, 100)] {
        let mut rnd = LfsrRandom::new(1);
        assert_eq!(
            Dungeon::generate(&mut rnd, rows, columns),
            Err(GenerationError::InvalidShape)
        );
        assert_eq!(rnd.state(), 1);
        assert_eq!(
            Field::gen_field_tree_dip(&mut rnd, rows, columns),
            Err(GenerationError::InvalidShape)
        );
        assert_eq!(rnd.state(), 1);
    }
}

#[test]
fn too_few_regions_exhaust_the_generation() {
    for (rows, columns) in [(1, 1), (1, 3), (3, 1)] {
        let mut rnd = LfsrRandom::default();
        assert_eq!(
            Dungeon::generate(&mut rnd, rows, columns),
            Err(GenerationError::GenerationExhausted)
        );
    }
}
