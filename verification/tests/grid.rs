use rustymaze::maze::{Border, Cell, Coordinate, Grid, GridError, HorizontalVertical, State};

fn grid_of(width: usize, height: usize) -> Grid {
    match Grid::new(width, height) {
        Ok(grid) => grid,
        Err(_) => panic!("a grid of {} by {} was refused", width, height),
    }
}

#[test]
fn new_refuses_zero_width() {
    assert!(matches!(Grid::new(0, 3), Err(GridError::InvalidDimensions)));
}

#[test]
fn new_refuses_zero_height() {
    assert!(matches!(Grid::new(3, 0), Err(GridError::InvalidDimensions)));
}

#[test]
fn new_refuses_zero_by_zero() {
    assert!(matches!(Grid::new(0, 0), Err(GridError::InvalidDimensions)));
}

#[test]
fn new_keeps_dimensions() {
    let grid = grid_of(7, 3);
    assert_eq!(grid.width(), 7);
    assert_eq!(grid.height(), 3);
}

#[test]
fn new_grid_is_uninitialized() {
    let grid = grid_of(2, 2);
    assert_eq!(grid.state(), State::Uninitialized);
}

#[test]
fn new_grid_is_all_walls() {
    let grid = grid_of(4, 3);
    for y in 0..3 {
        for x in 0..4 {
            assert_eq!(grid.horizontal_border(Coordinate(x, y)), Border::Wall);
            assert_eq!(grid.vertical_border(Coordinate(x, y)), Border::Wall);
        }
    }
}

#[test]
fn borders_off_the_grid_are_walls() {
    let grid = grid_of(2, 2);
    assert_eq!(grid.horizontal_border(Coordinate(2, 1)), Border::Wall);
    assert_eq!(grid.horizontal_border(Coordinate(0, 2)), Border::Wall);
    assert_eq!(grid.vertical_border(Coordinate(2, 0)), Border::Wall);
    assert_eq!(grid.vertical_border(Coordinate(usize::MAX, usize::MAX)), Border::Wall);
}

#[test]
fn cell_keeps_its_coordinate() {
    let cell = Cell::new(Coordinate(3, 9));
    assert_eq!(cell.coordinate(), Coordinate(3, 9));
    assert_eq!(cell, Cell::new(Coordinate(3, 9)));
    assert_ne!(cell, Cell::new(Coordinate(9, 3)));
}

#[test]
fn coordinate_neighbors_inside() {
    assert_eq!(
        Coordinate(5, 7).neighbors(),
        vec![Coordinate(4, 7), Coordinate(5, 6), Coordinate(6, 7), Coordinate(5, 8)]
    );
}

#[test]
fn coordinate_neighbors_at_origin() {
    assert_eq!(Coordinate(0, 0).neighbors(), vec![Coordinate(1, 0), Coordinate(0, 1)]);
}

#[test]
fn coordinate_neighbors_at_the_largest() {
    let top = usize::MAX;
    assert_eq!(
        Coordinate(top, top).neighbors(),
        vec![Coordinate(top - 1, top), Coordinate(top, top - 1)]
    );
    assert_eq!(
        Coordinate(top, 0).neighbors(),
        vec![Coordinate(top - 1, 0), Coordinate(top, 1)]
    );
}

#[test]
fn grid_neighbors_in_the_middle() {
    let grid = grid_of(3, 3);
    assert_eq!(
        grid.neighbors(&Coordinate(1, 1)),
        vec![Coordinate(0, 1), Coordinate(1, 0), Coordinate(2, 1), Coordinate(1, 2)]
    );
}

#[test]
fn grid_neighbors_in_the_corners() {
    let grid = grid_of(3, 3);
    assert_eq!(grid.neighbors(&Coordinate(0, 0)), vec![Coordinate(1, 0), Coordinate(0, 1)]);
    assert_eq!(grid.neighbors(&Coordinate(2, 2)), vec![Coordinate(1, 2), Coordinate(2, 1)]);
    assert_eq!(grid.neighbors(&Coordinate(2, 0)), vec![Coordinate(1, 0), Coordinate(2, 1)]);
    assert_eq!(grid.neighbors(&Coordinate(0, 2)), vec![Coordinate(0, 1), Coordinate(1, 2)]);
}

#[test]
fn grid_neighbors_of_a_single_cell() {
    let grid = grid_of(1, 1);
    assert_eq!(grid.neighbors(&Coordinate(0, 0)), Vec::<Coordinate>::new());
}

#[test]
fn grid_neighbors_of_a_coordinate_off_the_grid() {
    let grid = grid_of(3, 3);
    assert_eq!(grid.neighbors(&Coordinate(3, 1)), vec![Coordinate(2, 1)]);
    assert_eq!(grid.neighbors(&Coordinate(7, 7)), Vec::<Coordinate>::new());
}

#[test]
fn on_grid_follows_the_bounds() {
    let grid = grid_of(4, 2);
    assert!(grid.is_on_grid(Coordinate(0, 0)));
    assert!(grid.is_on_grid(Coordinate(3, 1)));
    assert!(!grid.is_on_grid(Coordinate(4, 1)));
    assert!(!grid.is_on_grid(Coordinate(3, 2)));
    assert!(!grid.is_on_grid(Coordinate(1, 3)));
}

#[test]
fn direction_of_a_step_between_rows() {
    let grid = grid_of(3, 3);
    assert_eq!(
        grid.maybe_horizontal_or_vertical(Coordinate(1, 1), Coordinate(1, 2)),
        Some(HorizontalVertical::Horizontal)
    );
    assert_eq!(
        grid.maybe_horizontal_or_vertical(Coordinate(1, 2), Coordinate(1, 1)),
        Some(HorizontalVertical::Horizontal)
    );
}

#[test]
fn direction_of_a_step_between_columns() {
    let grid = grid_of(3, 3);
    assert_eq!(
        grid.maybe_horizontal_or_vertical(Coordinate(0, 1), Coordinate(1, 1)),
        Some(HorizontalVertical::Vertical)
    );
    assert_eq!(
        grid.maybe_horizontal_or_vertical(Coordinate(1, 1), Coordinate(0, 1)),
        Some(HorizontalVertical::Vertical)
    );
}

#[test]
fn no_direction_without_a_single_step() {
    let grid = grid_of(3, 3);
    assert_eq!(grid.maybe_horizontal_or_vertical(Coordinate(1, 1), Coordinate(1, 1)), None);
    assert_eq!(grid.maybe_horizontal_or_vertical(Coordinate(0, 0), Coordinate(1, 1)), None);
    assert_eq!(grid.maybe_horizontal_or_vertical(Coordinate(0, 0), Coordinate(2, 0)), None);
    assert_eq!(grid.maybe_horizontal_or_vertical(Coordinate(0, 0), Coordinate(0, 2)), None);
    assert_eq!(
        grid.maybe_horizontal_or_vertical(Coordinate(0, usize::MAX), Coordinate(0, 0)),
        None
    );
}

fn passages_of(grid: &Grid) -> Vec<(char, usize, usize)> {
    let mut found = Vec::new();
    for y in 0..grid.height() {
        for x in 0..grid.width() {
            if grid.horizontal_border(Coordinate(x, y)) == Border::Passage {
                found.push(('h', x, y));
            }
            if grid.vertical_border(Coordinate(x, y)) == Border::Passage {
                found.push(('v', x, y));
            }
        }
    }
    found
}

#[test]
fn open_passage_between_rows_marks_the_lower_key() {
    let mut grid = grid_of(3, 3);
    grid.open_passage(Coordinate(1, 0), Coordinate(1, 1));
    assert_eq!(passages_of(&grid), vec![('h', 1, 1)]);
    let mut other = grid_of(3, 3);
    other.open_passage(Coordinate(1, 1), Coordinate(1, 0));
    assert_eq!(passages_of(&other), vec![('h', 1, 1)]);
}

#[test]
fn open_passage_between_columns_marks_the_right_key() {
    let mut grid = grid_of(3, 3);
    grid.open_passage(Coordinate(1, 2), Coordinate(2, 2));
    assert_eq!(passages_of(&grid), vec![('v', 2, 2)]);
    let mut other = grid_of(3, 3);
    other.open_passage(Coordinate(2, 2), Coordinate(1, 2));
    assert_eq!(passages_of(&other), vec![('v', 2, 2)]);
}

#[test]
fn open_passage_keeps_earlier_passages() {
    let mut grid = grid_of(3, 2);
    grid.open_passage(Coordinate(0, 0), Coordinate(1, 0));
    grid.open_passage(Coordinate(1, 0), Coordinate(1, 1));
    grid.open_passage(Coordinate(1, 0), Coordinate(0, 0));
    assert_eq!(passages_of(&grid), vec![('v', 1, 0), ('h', 1, 1)]);
}

#[test]
fn open_passage_on_one_cell_changes_nothing() {
    let mut grid = grid_of(3, 3);
    grid.open_passage(Coordinate(1, 1), Coordinate(1, 1));
    assert_eq!(passages_of(&grid), Vec::new());
    grid.open_passage(Coordinate(0, 1), Coordinate(1, 1));
    let text = grid.to_text();
    grid.open_passage(Coordinate(0, 1), Coordinate(0, 1));
    grid.open_passage(Coordinate(2, 2), Coordinate(2, 2));
    assert_eq!(grid.to_text(), text);
    assert_eq!(passages_of(&grid), vec![('v', 1, 1)]);
}

#[test]
fn open_passage_between_distant_cells_changes_nothing() {
    let mut grid = grid_of(4, 4);
    grid.open_passage(Coordinate(0, 0), Coordinate(2, 0));
    grid.open_passage(Coordinate(0, 0), Coordinate(0, 2));
    grid.open_passage(Coordinate(0, 0), Coordinate(3, 3));
    grid.open_passage(Coordinate(3, 0), Coordinate(0, 0));
    assert_eq!(passages_of(&grid), Vec::new());
}

#[test]
fn open_passage_between_diagonal_cells_changes_nothing() {
    let mut grid = grid_of(4, 4);
    grid.open_passage(Coordinate(0, 0), Coordinate(1, 1));
    grid.open_passage(Coordinate(2, 1), Coordinate(1, 2));
    assert_eq!(passages_of(&grid), Vec::new());
}

#[test]
fn open_passage_off_the_grid_changes_nothing() {
    let mut grid = grid_of(2, 2);
    grid.open_passage(Coordinate(1, 0), Coordinate(2, 0));
    grid.open_passage(Coordinate(2, 0), Coordinate(1, 0));
    grid.open_passage(Coordinate(0, 2), Coordinate(0, 1));
    grid.open_passage(Coordinate(5, 5), Coordinate(5, 6));
    assert_eq!(passages_of(&grid), Vec::new());
    assert_eq!(grid.to_text(), grid_of(2, 2).to_text());
}

#[test]
fn open_passage_keeps_dimensions_and_state() {
    let mut grid = grid_of(3, 2);
    grid.open_passage(Coordinate(0, 0), Coordinate(0, 1));
    assert_eq!(grid.width(), 3);
    assert_eq!(grid.height(), 2);
    assert_eq!(grid.state(), State::Uninitialized);
}

#[test]
fn grid_holds_a_cell_for_each_coordinate() {
    let grid = grid_of(4, 3);
    for y in 0..3 {
        for x in 0..4 {
            match grid.cell(Coordinate(x, y)) {
                Some(cell) => assert_eq!(cell.coordinate(), Coordinate(x, y)),
                None => panic!("no cell at ({}, {})", x, y),
            }
        }
    }
    assert!(grid.cell(Coordinate(4, 0)).is_none());
    assert!(grid.cell(Coordinate(0, 3)).is_none());
}
