use rand::rngs::StdRng;
use rand::SeedableRng;
use rustymaze::maze::carve::schedule;
use rustymaze::maze::{Border, Coordinate, Grid, RecursiveBacktrack};

fn fresh(width: usize, height: usize) -> Grid {
    match Grid::new(width, height) {
        Ok(grid) => grid,
        Err(_) => panic!("a grid of {} by {} was refused", width, height),
    }
}

fn carved(width: usize, height: usize, seed: u64) -> Grid {
    let mut grid = fresh(width, height);
    let mut rng = StdRng::seed_from_u64(seed);
    RecursiveBacktrack::new().carve(&mut grid, &mut rng);
    grid
}

fn carved_from(width: usize, height: usize, seed: u64, start: Coordinate) -> Grid {
    let mut grid = fresh(width, height);
    let mut rng = StdRng::seed_from_u64(seed);
    RecursiveBacktrack::new().carve_from(&mut grid, &mut rng, start);
    grid
}

fn count_passages(grid: &Grid) -> usize {
    let mut count = 0;
    for y in 0..grid.height() {
        for x in 0..grid.width() {
            if grid.horizontal_border(Coordinate(x, y)) == Border::Passage {
                count += 1;
            }
            if grid.vertical_border(Coordinate(x, y)) == Border::Passage {
                count += 1;
            }
        }
    }
    count
}

fn open_between(grid: &Grid, a: Coordinate, b: Coordinate) -> bool {
    if a.0 == b.0 {
        let lower = if a.1 > b.1 { a } else { b };
        grid.horizontal_border(lower) == Border::Passage
    } else {
        let right = if a.0 > b.0 { a } else { b };
        grid.vertical_border(right) == Border::Passage
    }
}

fn reached_from_origin(grid: &Grid) -> usize {
    let width = grid.width();
    let height = grid.height();
    let mut seen = vec![false; width * height];
    let mut stack = vec![Coordinate(0, 0)];
    seen[0] = true;
    let mut count = 1;
    while let Some(cell) = stack.pop() {
        for next in grid.neighbors(&cell) {
            if open_between(grid, cell, next) && !seen[next.1 * width + next.0] {
                seen[next.1 * width + next.0] = true;
                count += 1;
                stack.push(next);
            }
        }
    }
    count
}

#[test]
fn single_cell_has_no_passage() {
    let grid = carved(1, 1, 7);
    assert_eq!(count_passages(&grid), 0);
    assert_eq!(grid.to_text(), "+---+\n|   |\n+---+\n");
}

#[test]
fn two_cells_are_joined_by_one_passage() {
    for seed in 0..8 {
        let grid = carved(2, 1, seed);
        assert_eq!(count_passages(&grid), 1);
        assert!(open_between(&grid, Coordinate(0, 0), Coordinate(1, 0)));
        assert_eq!(grid.vertical_border(Coordinate(1, 0)), Border::Passage);
        let text = grid.to_text();
        let lines: Vec<&str> = text.lines().collect();
        assert_eq!(lines[1], "|       |");
        assert_eq!(text, "+---+---+\n|       |\n+---+---+\n");
    }
}

#[test]
fn two_stacked_cells_are_joined_by_one_passage() {
    let grid = carved(1, 2, 3);
    assert_eq!(count_passages(&grid), 1);
    assert_eq!(grid.horizontal_border(Coordinate(0, 1)), Border::Passage);
    assert_eq!(grid.to_text(), "+---+\n|   |\n+   +\n|   |\n+---+\n");
}

#[test]
fn passages_number_one_less_than_cells() {
    for (width, height) in [(1, 1), (2, 1), (1, 2), (2, 2), (3, 5), (8, 8), (20, 20), (1, 30)] {
        for seed in 0..5 {
            let grid = carved(width, height, seed);
            assert_eq!(count_passages(&grid), width * height - 1);
        }
    }
}

#[test]
fn every_cell_is_reached_and_no_cycle_is_closed() {
    for (width, height) in [(1, 1), (2, 2), (4, 3), (9, 6), (20, 20)] {
        for seed in 10..14 {
            let grid = carved(width, height, seed);
            assert_eq!(reached_from_origin(&grid), width * height);
            assert_eq!(count_passages(&grid), width * height - 1);
        }
    }
}

#[test]
fn same_seed_gives_the_same_maze() {
    for seed in [0, 1, 42, 1234567] {
        let one = carved(12, 9, seed);
        let other = carved(12, 9, seed);
        assert_eq!(one.to_text(), other.to_text());
        for y in 0..9 {
            for x in 0..12 {
                let key = Coordinate(x, y);
                assert_eq!(one.horizontal_border(key), other.horizontal_border(key));
                assert_eq!(one.vertical_border(key), other.vertical_border(key));
            }
        }
    }
}

#[test]
fn start_is_drawn_inside_the_grid() {
    for seed in 0..50 {
        let grid = carved(1, 1, seed);
        assert_eq!(count_passages(&grid), 0);
        let row = carved(3, 1, seed);
        assert_eq!(row.to_text(), "+---+---+---+\n|           |\n+---+---+---+\n");
    }
}

#[test]
fn neighbours_are_taken_in_a_shuffled_order() {
    let mut texts: Vec<String> = Vec::new();
    for seed in 0..20 {
        let text = carved_from(6, 6, seed, Coordinate(0, 0)).to_text();
        if !texts.contains(&text) {
            texts.push(text);
        }
    }
    assert!(texts.len() > 1);
}

#[test]
fn carve_from_gives_a_spanning_tree_from_any_start() {
    for y in 0..3 {
        for x in 0..4 {
            let grid = carved_from(4, 3, 5, Coordinate(x, y));
            assert_eq!(count_passages(&grid), 11);
            assert_eq!(reached_from_origin(&grid), 12);
        }
    }
}

#[test]
fn carve_keeps_dimensions() {
    let grid = carved(5, 4, 99);
    assert_eq!(grid.width(), 5);
    assert_eq!(grid.height(), 4);
    let text = grid.to_text();
    let lines: Vec<&str> = text.lines().collect();
    assert_eq!(lines.len(), 4 * 2 + 1);
    for line in lines {
        assert_eq!(line.len(), 5 * 4 + 1);
    }
}

#[test]
fn a_carver_starts_afresh_on_every_grid() {
    let mut carver = RecursiveBacktrack::new();
    let mut rng = StdRng::seed_from_u64(17);
    let mut first = fresh(5, 5);
    carver.carve(&mut first, &mut rng);
    let mut second = fresh(3, 7);
    carver.carve(&mut second, &mut rng);
    assert_eq!(count_passages(&first), 24);
    assert_eq!(count_passages(&second), 20);
    assert_eq!(reached_from_origin(&second), 21);
}

#[test]
fn carving_again_keeps_every_passage() {
    let mut grid = carved(6, 4, 2);
    let before = grid.to_text();
    let mut rng = StdRng::seed_from_u64(3);
    RecursiveBacktrack::new().carve(&mut grid, &mut rng);
    let after = grid.to_text();
    for (old, new) in before.chars().zip(after.chars()) {
        if old == ' ' {
            assert_eq!(new, ' ');
        }
    }
    assert_eq!(reached_from_origin(&grid), 24);
}

#[test]
fn carving_a_grid_with_passages_connects_it() {
    let mut grid = fresh(3, 3);
    grid.open_passage(Coordinate(0, 0), Coordinate(1, 0));
    grid.open_passage(Coordinate(1, 0), Coordinate(1, 1));
    grid.open_passage(Coordinate(1, 1), Coordinate(0, 1));
    grid.open_passage(Coordinate(0, 1), Coordinate(0, 0));
    let mut rng = StdRng::seed_from_u64(8);
    RecursiveBacktrack::new().carve(&mut grid, &mut rng);
    assert!(open_between(&grid, Coordinate(0, 0), Coordinate(1, 0)));
    assert!(open_between(&grid, Coordinate(1, 0), Coordinate(1, 1)));
    assert!(open_between(&grid, Coordinate(1, 1), Coordinate(0, 1)));
    assert!(open_between(&grid, Coordinate(0, 1), Coordinate(0, 0)));
    assert_eq!(reached_from_origin(&grid), 9);
}

#[test]
fn frames_go_on_the_stack_in_reverse() {
    let here = Coordinate(1, 1);
    let mut pending = vec![(Coordinate(9, 9), Coordinate(9, 8))];
    let order = vec![Coordinate(0, 1), Coordinate(1, 0), Coordinate(2, 1)];
    schedule(&mut pending, here, &order);
    assert_eq!(
        pending,
        vec![
            (Coordinate(9, 9), Coordinate(9, 8)),
            (Coordinate(2, 1), here),
            (Coordinate(1, 0), here),
            (Coordinate(0, 1), here),
        ]
    );
    assert_eq!(pending.pop(), Some((Coordinate(0, 1), here)));
}

#[test]
fn no_neighbours_leave_no_frame() {
    let mut pending: Vec<(Coordinate, Coordinate)> = Vec::new();
    schedule(&mut pending, Coordinate(0, 0), &Vec::new());
    assert!(pending.is_empty());
}
