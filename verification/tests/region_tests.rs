use number_cross::region::Region;

#[test]
fn new_region_is_empty() {
    let region = Region::new(7);
    assert_eq!(region.id, 7);
    assert!(region.cells.is_empty());
}

#[test]
fn add_cell_is_idempotent() {
    let mut region = Region::new(3);
    region.add_cell(1, 2);
    assert_eq!(region.cells.len(), 1);
    region.add_cell(1, 2);
    assert_eq!(region.cells.len(), 1);
    assert_eq!(region.cells[0], (1, 2));
}

#[test]
fn add_cell_accumulates_distinct_coordinates() {
    let mut region = Region::new(0);
    region.add_cell(0, 0);
    region.add_cell(0, 1);
    region.add_cell(0, 0);
    region.add_cell(1, 1);
    assert_eq!(region.cells, vec![(0, 0), (0, 1), (1, 1)]);
}
