use h3_raster::cells::{is_valid_cell, resolution_of};
use h3_raster::error::Error;
use h3_raster::stack::H3IndexStack;
use h3o::{CellIndex, LatLng, Resolution};

fn cell(lat: f64, lng: f64, resolution: Resolution) -> CellIndex {
    LatLng::new(lat, lng).unwrap().to_cell(resolution)
}

fn children(parent: CellIndex, resolution: Resolution) -> Vec<u64> {
    parent.children(resolution).map(u64::from).collect()
}

fn sorted(cells: &[u64]) -> Vec<u64> {
    let mut cells = cells.to_vec();
    cells.sort_unstable();
    cells
}

#[test]
fn a_new_stack_is_empty() {
    let stack = H3IndexStack::new();
    assert!(stack.is_empty());
    assert_eq!(stack.len(), 0);
}

#[test]
fn resolution_is_read_from_the_index() {
    assert_eq!(resolution_of(0x8a1fb46622dffff), 10);
    assert_eq!(resolution_of(u64::from(cell(48.86, 2.35, Resolution::Three))), 3);
    assert_eq!(resolution_of(u64::from(cell(48.86, 2.35, Resolution::Fifteen))), 15);
    assert_eq!(resolution_of(u64::from(cell(48.86, 2.35, Resolution::Zero))), 0);
}

#[test]
fn cells_are_told_from_other_values() {
    assert!(is_valid_cell(0x8a1fb46622dffff));
    assert!(is_valid_cell(u64::from(cell(0.0, 0.0, Resolution::Zero))));
    assert!(!is_valid_cell(0));
    assert!(!is_valid_cell(u64::MAX));
    // the index of a directed edge is no cell
    assert!(!is_valid_cell(0x11a1fb46622dffff));
}

#[test]
fn appending_keeps_the_order_and_empties_the_source() {
    let parent = cell(48.86, 2.35, Resolution::Five);
    let mut first = children(parent, Resolution::Six);
    let mut stack = H3IndexStack::new();
    let expected = first.clone();
    assert_eq!(stack.append_to_resolution(6, &mut first, false), Ok(()));
    assert!(first.is_empty());
    assert_eq!(stack.cells(), &expected);
    assert_eq!(stack.len(), 7);
}

#[test]
fn seven_children_compact_to_their_parent() {
    let parent = cell(48.86, 2.35, Resolution::Five);
    let mut cells = children(parent, Resolution::Six);
    assert_eq!(cells.len(), 7);
    let mut stack = H3IndexStack::new();
    assert_eq!(stack.append_to_resolution(6, &mut cells, true), Ok(()));
    assert_eq!(stack.cells(), &vec![u64::from(parent)]);
}

#[test]
fn compaction_climbs_several_resolutions() {
    let grandparent = cell(10.0, 20.0, Resolution::Four);
    let mut cells = children(grandparent, Resolution::Six);
    assert_eq!(cells.len(), 49);
    let mut stack = H3IndexStack::new();
    assert_eq!(stack.append_to_resolution(6, &mut cells, false), Ok(()));
    assert_eq!(stack.len(), 49);
    stack.compact();
    assert_eq!(stack.cells(), &vec![u64::from(grandparent)]);
}

#[test]
fn compaction_merges_with_what_the_stack_held() {
    let parent = cell(10.0, 20.0, Resolution::Seven);
    let all = children(parent, Resolution::Eight);
    let mut stack = H3IndexStack::new();
    let mut first = all[..4].to_vec();
    let mut second = all[4..].to_vec();
    assert_eq!(stack.append_to_resolution(8, &mut first, true), Ok(()));
    assert_eq!(sorted(stack.cells()), sorted(&all[..4]));
    assert_eq!(stack.append_to_resolution(8, &mut second, true), Ok(()));
    assert_eq!(stack.cells(), &vec![u64::from(parent)]);
}

#[test]
fn compaction_drops_repeated_cells() {
    let parent = cell(10.0, 20.0, Resolution::Seven);
    let all = children(parent, Resolution::Eight);
    let mut twice = all[..3].to_vec();
    twice.extend_from_slice(&all[..3]);
    let mut stack = H3IndexStack::new();
    assert_eq!(stack.append_to_resolution(8, &mut twice, true), Ok(()));
    assert_eq!(sorted(stack.cells()), sorted(&all[..3]));
}

#[test]
fn compaction_from_a_resolution_leaves_finer_cells() {
    let coarse = cell(10.0, 20.0, Resolution::Five);
    let fine_parent = cell(-30.0, 100.0, Resolution::Eight);
    let mut fine = children(fine_parent, Resolution::Nine);
    let mut coarse_children = children(coarse, Resolution::Six);
    let mut stack = H3IndexStack::new();
    assert_eq!(stack.append_to_resolution(9, &mut fine, false), Ok(()));
    assert_eq!(stack.append_to_resolution(6, &mut coarse_children, true), Ok(()));
    let mut expected = children(fine_parent, Resolution::Nine);
    expected.push(u64::from(coarse));
    assert_eq!(sorted(stack.cells()), sorted(&expected));
    stack.compact();
    assert_eq!(sorted(stack.cells()), sorted(&[u64::from(fine_parent), u64::from(coarse)]));
}

#[test]
fn stacks_append_to_each_other() {
    let a = cell(10.0, 20.0, Resolution::Five);
    let b = cell(11.0, 21.0, Resolution::Six);
    let mut one = H3IndexStack::new();
    let mut other = H3IndexStack::new();
    assert_eq!(one.append_to_resolution(5, &mut vec![u64::from(a)], false), Ok(()));
    assert_eq!(other.append_to_resolution(6, &mut vec![u64::from(b)], false), Ok(()));
    one.append(&mut other, false);
    assert!(other.is_empty());
    assert_eq!(one.cells(), &vec![u64::from(a), u64::from(b)]);
    let parent = cell(48.0, 2.0, Resolution::Two);
    let kids = children(parent, Resolution::Three);
    let mut left = H3IndexStack::new();
    let mut right = H3IndexStack::new();
    assert_eq!(left.append_to_resolution(3, &mut kids[..5].to_vec(), false), Ok(()));
    assert_eq!(right.append_to_resolution(3, &mut kids[5..].to_vec(), false), Ok(()));
    left.append(&mut right, true);
    assert_eq!(left.cells(), &vec![u64::from(parent)]);
}

#[test]
fn values_that_are_no_cells_are_refused() {
    let good = u64::from(cell(10.0, 20.0, Resolution::Five));
    let mut stack = H3IndexStack::new();
    let mut cells = vec![good, 0];
    assert_eq!(stack.append_to_resolution(5, &mut cells, false), Err(Error::InvalidCellIndex));
    assert_eq!(cells, vec![good, 0]);
    assert!(stack.is_empty());
    let mut cells = vec![u64::MAX];
    assert_eq!(stack.append_to_resolution(5, &mut cells, true), Err(Error::InvalidCellIndex));
}

#[test]
fn cells_of_another_resolution_are_refused() {
    let good = u64::from(cell(10.0, 20.0, Resolution::Five));
    let other = u64::from(cell(10.0, 20.0, Resolution::Six));
    let mut stack = H3IndexStack::new();
    let mut cells = vec![good, other];
    assert_eq!(stack.append_to_resolution(5, &mut cells, false), Err(Error::InvalidResolution));
    assert_eq!(cells.len(), 2);
    assert!(stack.is_empty());
}

#[test]
fn resolutions_beyond_the_grid_are_refused() {
    let mut stack = H3IndexStack::new();
    let mut cells = Vec::new();
    assert_eq!(stack.append_to_resolution(16, &mut cells, false), Err(Error::H3ResolutionOutOfRange));
    assert_eq!(stack.append_to_resolution(15, &mut cells, false), Ok(()));
}
