use number_cross::cell::Cell;
use number_cross::grid::ConstructionError;
use number_cross::grid::Grid;
use number_cross::grid::OutOfBounds;

fn quadrants() -> Vec<(usize, Vec<(usize, usize)>)> {
    vec![
        (1, vec![(0, 0), (0, 1), (1, 0), (1, 1)]),
        (2, vec![(2, 2), (2, 3), (3, 2), (3, 3)]),
        (3, vec![(0, 2), (0, 3), (1, 2), (1, 3)]),
        (4, vec![(2, 0), (2, 1), (3, 0), (3, 1)]),
    ]
}

#[test]
fn quadrants_construct_and_render() {
    let mut grid = Grid::new(4, quadrants()).unwrap();
    let number_cell = Cell::new_number(5).unwrap();
    assert!(grid.set_cell(1, 1, number_cell).is_ok());
    assert!(grid.set_cell(2, 2, Cell::Shaded).is_ok());
    let expected = " .  .  .  . \n .  5  .  . \n .  .  #  . \n .  .  .  . \n";
    assert_eq!(grid.display(), expected);
}

#[test]
fn missing_corner_fails() {
    let mut layout = quadrants();
    layout[1].1.retain(|&c| c != (3, 3));
    let err = Grid::new(4, layout).unwrap_err();
    assert_eq!(err, ConstructionError::MissingCells(vec![(3, 3)]));
}

#[test]
fn overlapping_regions_fail() {
    let layout = vec![
        (0, vec![(0, 0)]),
        (1, vec![(0, 0), (0, 1), (1, 0), (1, 1)]),
    ];
    let err = Grid::new(2, layout).unwrap_err();
    assert_eq!(err, ConstructionError::DuplicateCell((0, 0)));
}

#[test]
fn first_duplicate_is_reported() {
    let layout = vec![
        (0, vec![(0, 0), (0, 1)]),
        (1, vec![(0, 1), (1, 0)]),
        (2, vec![(1, 0), (1, 1)]),
    ];
    let err = Grid::new(2, layout).unwrap_err();
    assert_eq!(err, ConstructionError::DuplicateCell((0, 1)));
}

#[test]
fn duplicate_within_one_entry_fails() {
    let layout = vec![(0, vec![(0, 0), (0, 0), (0, 1), (1, 0), (1, 1)])];
    let err = Grid::new(2, layout).unwrap_err();
    assert_eq!(err, ConstructionError::DuplicateCell((0, 0)));
}

#[test]
fn missing_cells_are_sorted() {
    let layout = vec![(0, vec![(1, 0), (0, 1)])];
    let err = Grid::new(2, layout).unwrap_err();
    assert_eq!(err, ConstructionError::MissingCells(vec![(0, 0), (1, 1)]));
}

#[test]
fn new_number_accepts_digits_only() {
    for n in 0..=9u8 {
        assert_eq!(Cell::new_number(n), Some(Cell::Number(n)));
    }
    assert_eq!(Cell::new_number(10), None);
    assert_eq!(Cell::new_number(11), None);
    assert_eq!(Cell::new_number(255), None);
}

#[test]
fn out_of_bounds_reads_and_writes() {
    let layout = vec![vec![(0, 0), (0, 1)], vec![(1, 0), (1, 1)]];
    let mut grid = Grid::new_positional(2, layout).unwrap();
    assert_eq!(grid.get_cell(2, 0), None);
    assert_eq!(grid.get_cell(0, 2), None);
    assert_eq!(grid.set_cell(2, 0, Cell::Shaded), Err(OutOfBounds));
    assert_eq!(grid.set_cell(0, 2, Cell::Shaded), Err(OutOfBounds));
    assert_eq!(grid.display(), " .  . \n .  . \n");
}

#[test]
fn set_then_get_roundtrip() {
    let layout = vec![vec![(0, 0), (0, 1)], vec![(1, 0), (1, 1)]];
    let mut grid = Grid::new_positional(2, layout).unwrap();
    assert!(grid.set_cell(0, 1, Cell::Number(7)).is_ok());
    assert_eq!(grid.get_cell(0, 1), Some(&Cell::Number(7)));
    assert_eq!(grid.get_cell(0, 0), Some(&Cell::Vacant));
}

#[test]
fn out_of_bounds_layout_coordinates_are_ignored() {
    let layout = vec![(0, vec![(0, 0), (5, 5)])];
    let grid = Grid::new(1, layout).unwrap();
    assert_eq!(grid.display(), " . \n");
    assert_eq!(grid.display_regions(), "Region 0: [(0, 0)]\n");
}

#[test]
fn explicit_identifier_gap_leaves_empty_regions() {
    let layout = vec![(2, vec![(0, 0)])];
    let grid = Grid::new(1, layout).unwrap();
    assert_eq!(
        grid.display_regions(),
        "Region 0: []\nRegion 1: []\nRegion 2: [(0, 0)]\n"
    );
}

#[test]
fn region_listing_format() {
    let layout = vec![vec![(0, 0), (0, 1)], vec![(1, 0), (1, 1)]];
    let grid = Grid::new_positional(2, layout).unwrap();
    assert_eq!(
        grid.display_regions(),
        "Region 0: [(0, 0), (0, 1)]\nRegion 1: [(1, 0), (1, 1)]\n"
    );
}

#[test]
fn built_grid_passes_completeness_check() {
    let grid = Grid::new(4, quadrants()).unwrap();
    assert!(grid.check_all_cells_in_one_region().is_ok());
}

#[test]
fn demo_layout_constructs() {
    let initial_regions = vec![
        vec![(0, 0), (1, 0), (2, 0), (3, 0), (4, 0)],
        vec![(0, 1), (1, 1), (2, 1), (3, 1), (4, 1), (3, 2), (4, 2)],
        vec![(0, 2), (1, 2), (2, 2), (2, 3), (3, 3), (4, 3), (4, 4)],
        vec![(0, 3)],
        vec![(1, 3), (0, 4), (1, 4), (2, 4), (3, 4)],
    ];
    let mut grid = Grid::new_positional(5, initial_regions).unwrap();
    let number_cell = Cell::new_number(5).unwrap();
    assert!(grid.set_cell(1, 1, number_cell).is_ok());
    assert!(grid.set_cell(2, 2, Cell::Shaded).is_ok());
    let text = grid.display();
    let lines: Vec<&str> = text.lines().collect();
    assert_eq!(lines.len(), 5);
    assert_eq!(lines[1], " .  5  .  .  . ");
    assert_eq!(lines[2], " .  .  #  .  . ");
    assert_eq!(lines[0], " .  .  .  .  . ");
}
