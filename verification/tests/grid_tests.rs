use toroidal_life::cell::Cell;
use toroidal_life::color::Rgb;
use toroidal_life::GameOfLife;

fn colored(r: u8, g: u8, b: u8) -> Cell {
    Cell { alive: true, color: Some(Rgb { r, g, b }) }
}

fn dead_grid(width: usize, height: usize) -> Vec<Cell> {
    vec![Cell::dead(); width * height]
}

fn set(cells: &mut Vec<Cell>, width: usize, x: usize, y: usize, c: Cell) {
    cells[y * width + x] = c;
}

fn alive_flags(game: &GameOfLife) -> Vec<bool> {
    let (w, h) = (game.width(), game.height());
    let mut flags = Vec::new();
    for y in 0..h {
        for x in 0..w {
            flags.push(game.cell_at(x, y).alive);
        }
    }
    flags
}

#[test]
fn create_has_width_times_height_valid_cells() {
    let game = GameOfLife::new(7, 5);
    assert_eq!(game.width(), 7);
    assert_eq!(game.height(), 5);
    for y in 0..5 {
        for x in 0..7 {
            let c = game.cell_at(x, y);
            if c.alive {
                let col = c.color.expect("alive cell must carry a color");
                assert!(col.r >= 50 && col.g >= 50 && col.b >= 50);
            } else {
                assert_eq!(c, Cell::dead());
            }
        }
    }
}

#[test]
fn from_cells_keeps_every_cell() {
    let mut cells = dead_grid(4, 4);
    set(&mut cells, 4, 2, 3, colored(60, 70, 80));
    let game = GameOfLife::from_cells(4, 4, cells.clone());
    for y in 0..4 {
        for x in 0..4 {
            assert_eq!(game.cell_at(x, y), cells[y * 4 + x]);
        }
    }
}

#[test]
fn neighbors_wrap_around_the_torus() {
    // three alive cells, all of them neighbors of (0, 0) only through
    // wrapping: the opposite corner and the two opposite edges
    let mut cells = dead_grid(5, 5);
    set(&mut cells, 5, 4, 4, colored(90, 90, 90));
    set(&mut cells, 5, 0, 4, colored(90, 90, 90));
    set(&mut cells, 5, 4, 0, colored(90, 90, 90));
    let mut game = GameOfLife::from_cells(5, 5, cells);
    assert!(!game.cell_at(0, 0).alive);
    game.step();
    let born = game.cell_at(0, 0);
    assert!(born.alive, "corner cell must be born from three wrapped neighbors");
    assert!(born.color.is_some());
}

#[test]
fn block_is_a_still_life() {
    let mut cells = dead_grid(6, 6);
    for &(x, y) in &[(1, 1), (2, 1), (1, 2), (2, 2)] {
        set(&mut cells, 6, x, y, colored(100, 150, 200));
    }
    let expected = cells.clone();
    let mut game = GameOfLife::from_cells(6, 6, cells);
    for _ in 0..4 {
        game.step();
    }
    for y in 0..6 {
        for x in 0..6 {
            assert_eq!(game.cell_at(x, y), expected[y * 6 + x]);
        }
    }
}

#[test]
fn blinker_oscillates_with_period_two() {
    let mut cells = dead_grid(7, 7);
    for &(x, y) in &[(1, 2), (2, 2), (3, 2)] {
        set(&mut cells, 7, x, y, colored(120, 130, 140));
    }
    let mut game = GameOfLife::from_cells(7, 7, cells);
    let before = alive_flags(&game);
    game.step();
    // after one step the bar stands vertical
    for y in 0..7 {
        for x in 0..7 {
            let expect = x == 2 && (1..=3).contains(&y);
            assert_eq!(game.cell_at(x, y).alive, expect, "at ({}, {})", x, y);
        }
    }
    game.step();
    assert_eq!(alive_flags(&game), before);
}

#[test]
fn survivor_keeps_its_exact_color() {
    let mut cells = dead_grid(6, 6);
    let colors = [(60, 70, 80), (90, 100, 110), (120, 130, 140), (150, 160, 170)];
    for (i, &(x, y)) in [(1, 1), (2, 1), (1, 2), (2, 2)].iter().enumerate() {
        let (r, g, b) = colors[i];
        set(&mut cells, 6, x, y, colored(r, g, b));
    }
    let mut game = GameOfLife::from_cells(6, 6, cells);
    game.step();
    for (i, &(x, y)) in [(1, 1), (2, 1), (1, 2), (2, 2)].iter().enumerate() {
        let c = game.cell_at(x, y);
        let (r, g, b) = colors[i];
        assert!(c.alive);
        assert_eq!(c.color, Some(Rgb { r, g, b }));
    }
}

#[test]
fn worker_count_does_not_change_the_grid() {
    // a still life gives no births, so the grids agree exactly,
    // jitter included, whatever the worker count
    let mut cells = dead_grid(9, 7);
    for &(x, y) in &[(1, 1), (2, 1), (1, 2), (2, 2)] {
        set(&mut cells, 9, x, y, colored(100, 150, 200));
    }
    let mut reference = GameOfLife::from_cells(9, 7, cells.clone());
    reference.step_with_workers(1);
    for &workers in &[2usize, 4, 8] {
        let mut game = GameOfLife::from_cells(9, 7, cells.clone());
        game.step_with_workers(workers);
        for y in 0..7 {
            for x in 0..9 {
                assert_eq!(game.cell_at(x, y), reference.cell_at(x, y));
            }
        }
    }
}

#[test]
fn worker_count_does_not_change_alive_pattern() {
    // a blinker has births; the alive pattern still agrees for every
    // worker count, including counts above the row count
    let mut cells = dead_grid(8, 6);
    for &(x, y) in &[(1, 2), (2, 2), (3, 2)] {
        set(&mut cells, 8, x, y, colored(100, 150, 200));
    }
    let mut reference = GameOfLife::from_cells(8, 6, cells.clone());
    reference.step_with_workers(1);
    for &workers in &[2usize, 4, 8, 16] {
        let mut game = GameOfLife::from_cells(8, 6, cells.clone());
        game.step_with_workers(workers);
        assert_eq!(alive_flags(&game), alive_flags(&reference), "workers={}", workers);
    }
}

#[test]
fn step_runs_on_a_random_grid() {
    let mut game = GameOfLife::new(32, 24);
    for _ in 0..3 {
        game.step();
        for y in 0..24 {
            for x in 0..32 {
                let c = game.cell_at(x, y);
                if c.alive {
                    assert!(c.color.is_some());
                } else {
                    assert_eq!(c, Cell::dead());
                }
            }
        }
    }
}
