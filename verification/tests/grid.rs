use labyrinth::{cell_marker, Direction, Lab, LabError, LabTile, Marker};
use std::collections::HashSet;

#[test]
fn new_lab_has_every_wall() {
    let lab = Lab::new(3).unwrap();
    assert_eq!(lab.size(), 3);
    assert_eq!(lab.cell_count(), 9);
    for cell in 0..9 {
        for side in 0..4 {
            assert_eq!(lab.wall(cell, side), Ok(true));
        }
    }
}

#[test]
fn new_lab_of_size_zero_is_refused() {
    assert_eq!(Lab::new(0).err(), Some(LabError::InvalidSize));
}

#[test]
fn new_lab_whose_cells_cannot_be_counted_is_refused() {
    assert_eq!(Lab::new(usize::MAX).err(), Some(LabError::InvalidSize));
}

#[test]
fn wall_query_out_of_range_is_an_error() {
    let lab = Lab::new(2).unwrap();
    assert_eq!(lab.wall(4, 0), Err(LabError::IndexOutOfRange));
    assert_eq!(lab.wall(0, 4), Err(LabError::IndexOutOfRange));
    assert_eq!(lab.wall(3, 3), Ok(true));
    assert_eq!(lab.tile(4), Err(LabError::IndexOutOfRange));
}

#[test]
fn set_wall_changes_one_flag_only() {
    let mut lab = Lab::new(3).unwrap();
    assert_eq!(lab.set_wall(4, 1, false), Ok(()));
    assert_eq!(lab.wall(4, 1), Ok(false));
    assert_eq!(lab.wall(4, 0), Ok(true));
    assert_eq!(lab.wall(4, 2), Ok(true));
    assert_eq!(lab.wall(4, 3), Ok(true));
    // the neighbor's flag for the same wall is left alone
    assert_eq!(lab.wall(5, 3), Ok(true));
    assert_eq!(
        lab.tile(4),
        Ok(LabTile { top: true, right: false, bottom: true, left: true })
    );
}

#[test]
fn set_wall_out_of_range_is_an_error_and_changes_nothing() {
    let mut lab = Lab::new(2).unwrap();
    assert_eq!(lab.set_wall(4, 0, false), Err(LabError::IndexOutOfRange));
    assert_eq!(lab.set_wall(0, 7, false), Err(LabError::IndexOutOfRange));
    for cell in 0..4 {
        for side in 0..4 {
            assert_eq!(lab.wall(cell, side), Ok(true));
        }
    }
}

#[test]
fn directions_are_numbered_top_right_bottom_left() {
    assert_eq!(Direction::Top.index(), 0);
    assert_eq!(Direction::Right.index(), 1);
    assert_eq!(Direction::Bottom.index(), 2);
    assert_eq!(Direction::Left.index(), 3);
    assert_eq!(Direction::from_index(0), Some(Direction::Top));
    assert_eq!(Direction::from_index(1), Some(Direction::Right));
    assert_eq!(Direction::from_index(2), Some(Direction::Bottom));
    assert_eq!(Direction::from_index(3), Some(Direction::Left));
    assert_eq!(Direction::from_index(4), None);
}

#[test]
fn opposite_swaps_top_with_bottom_and_left_with_right() {
    assert_eq!(Direction::Top.opposite(), Direction::Bottom);
    assert_eq!(Direction::Bottom.opposite(), Direction::Top);
    assert_eq!(Direction::Left.opposite(), Direction::Right);
    assert_eq!(Direction::Right.opposite(), Direction::Left);
}

#[test]
fn neighbors_follow_rows_and_columns() {
    let lab = Lab::new(4).unwrap();
    // cell 5 is in row 1, column 1
    assert_eq!(lab.neighbor(5, Direction::Top), Some(1));
    assert_eq!(lab.neighbor(5, Direction::Right), Some(6));
    assert_eq!(lab.neighbor(5, Direction::Bottom), Some(9));
    assert_eq!(lab.neighbor(5, Direction::Left), Some(4));
    // corners and borders
    assert_eq!(lab.neighbor(0, Direction::Top), None);
    assert_eq!(lab.neighbor(0, Direction::Left), None);
    assert_eq!(lab.neighbor(3, Direction::Right), None);
    assert_eq!(lab.neighbor(3, Direction::Bottom), Some(7));
    assert_eq!(lab.neighbor(4, Direction::Left), None);
    assert_eq!(lab.neighbor(12, Direction::Bottom), None);
    assert_eq!(lab.neighbor(15, Direction::Right), None);
    assert_eq!(lab.neighbor(15, Direction::Top), Some(11));
    // no cell, no neighbor
    assert_eq!(lab.neighbor(16, Direction::Top), None);
}

#[test]
fn single_cell_has_no_neighbor() {
    let lab = Lab::new(1).unwrap();
    for side in 0..4 {
        let d = Direction::from_index(side).unwrap();
        assert_eq!(lab.neighbor(0, d), None);
    }
}

#[test]
fn set_wall_pair_changes_both_tiles() {
    let mut lab = Lab::new(3).unwrap();
    lab.set_wall_pair(4, Direction::Bottom, false);
    assert_eq!(lab.wall(4, 2), Ok(false));
    assert_eq!(lab.wall(7, 0), Ok(false));
    assert!(lab.is_consistent());
    lab.set_wall_pair(7, Direction::Top, true);
    assert_eq!(lab.wall(4, 2), Ok(true));
    assert_eq!(lab.wall(7, 0), Ok(true));
}

#[test]
fn set_wall_pair_on_the_border_does_nothing() {
    let mut lab = Lab::new(2).unwrap();
    lab.set_wall_pair(0, Direction::Top, false);
    lab.set_wall_pair(9, Direction::Top, false);
    for cell in 0..4 {
        for side in 0..4 {
            assert_eq!(lab.wall(cell, side), Ok(true));
        }
    }
}

#[test]
fn passage_needs_a_neighbor_and_no_wall() {
    let mut lab = Lab::new(2).unwrap();
    assert_eq!(lab.passage_to(0, Direction::Right), None);
    lab.set_wall_pair(0, Direction::Right, false);
    assert_eq!(lab.passage_to(0, Direction::Right), Some(1));
    assert_eq!(lab.passage_to(1, Direction::Left), Some(0));
    // an opening in the border leads nowhere
    lab.set_wall(0, 0, false).unwrap();
    assert_eq!(lab.passage_to(0, Direction::Top), None);
}

#[test]
fn unpaired_wall_is_detected() {
    let mut lab = Lab::new(4).unwrap();
    assert!(lab.is_consistent());
    lab.set_wall_pair(5, Direction::Top, false);
    assert!(lab.is_consistent());
    assert_eq!(lab.find_unpaired(), None);
    // put the wall back on tile 5 only
    lab.set_wall(5, 0, true).unwrap();
    assert_eq!(lab.wall(1, 2), Ok(false));
    assert!(!lab.is_consistent());
    assert_eq!(lab.find_unpaired(), Some((1, Direction::Bottom)));
}

#[test]
fn border_openings_do_not_break_consistency() {
    let mut lab = Lab::new(3).unwrap();
    lab.set_wall(1, 0, false).unwrap();
    lab.set_wall(8, 1, false).unwrap();
    assert!(lab.is_consistent());
}

#[test]
fn close_all_puts_every_wall_back() {
    let mut lab = Lab::new(3).unwrap();
    lab.set_wall_pair(0, Direction::Right, false);
    lab.set_wall(4, 2, false).unwrap();
    lab.close_all();
    assert_eq!(lab.size(), 3);
    for cell in 0..9 {
        assert_eq!(lab.tile(cell), Ok(LabTile { top: true, right: true, bottom: true, left: true }));
    }
}

#[test]
fn duplicate_is_a_separate_copy() {
    let mut lab = Lab::new(2).unwrap();
    lab.set_wall_pair(0, Direction::Bottom, false);
    let mut copy = lab.duplicate();
    for cell in 0..4 {
        assert_eq!(copy.tile(cell), lab.tile(cell));
    }
    copy.set_wall_pair(0, Direction::Right, false);
    assert_eq!(lab.wall(0, 1), Ok(true));
    assert_eq!(copy.wall(0, 1), Ok(false));
    let third = lab.clone();
    assert_eq!(third.wall(0, 2), Ok(false));
    assert_eq!(third.size(), 2);
}

#[test]
fn tile_flags_by_side() {
    let mut tile = LabTile::closed();
    assert!(!tile.is_open());
    tile.set_wall(Direction::Left, false);
    assert!(tile.is_open());
    assert_eq!(tile.get_wall(3), Ok(false));
    assert_eq!(tile.get_wall(0), Ok(true));
    assert_eq!(tile.get_wall(4), Err(LabError::IndexOutOfRange));
    assert!(tile.has_wall(Direction::Top));
    assert!(!tile.has_wall(Direction::Left));
}

#[test]
fn marker_shows_the_first_that_applies() {
    let visited: HashSet<usize> = [0, 1, 2, 5].into_iter().collect();
    let path = vec![0, 1, 5, 8];
    let current = Some((5, 33));
    // the entrance and the exit come before everything else
    assert_eq!(cell_marker(0, 0, 8, &visited, Some((0, 34)), Some(&path)), Marker::Entrance);
    assert_eq!(cell_marker(8, 0, 8, &visited, Some((8, 34)), Some(&path)), Marker::Exit);
    assert_eq!(cell_marker(4, 4, 4, &visited, None, None), Marker::Entrance);
    // then the path, the current cell, the visited cells
    assert_eq!(cell_marker(5, 0, 8, &visited, current, Some(&path)), Marker::Path);
    assert_eq!(cell_marker(5, 0, 8, &visited, current, None), Marker::Current(33));
    assert_eq!(cell_marker(5, 0, 8, &visited, None, None), Marker::Visited);
    assert_eq!(cell_marker(2, 0, 8, &visited, current, Some(&path)), Marker::Visited);
    assert_eq!(cell_marker(7, 0, 8, &visited, Some((7, 34)), Some(&path)), Marker::Current(34));
    assert_eq!(cell_marker(6, 0, 8, &visited, current, Some(&path)), Marker::Empty);
    assert_eq!(cell_marker(6, 0, 8, &HashSet::new(), None, None), Marker::Empty);
}
