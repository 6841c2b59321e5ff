use labyrinth::{
    carve_labyrinth, closest_visited, extend_walk, find_shortest_path, generate_dead_end_paths,
    generate_main_path, main_path_step, opened_cells, unvisited_neighbors, Direction, Lab,
    LabError,
};
use std::collections::HashSet;

fn set_of(cells: &[usize]) -> HashSet<usize> {
    cells.iter().copied().collect()
}

/// The cells that a flood fill from `from` reaches, written with nothing but the
/// accessors of the grid.
fn flood(lab: &Lab, from: usize) -> HashSet<usize> {
    let size = lab.size();
    let mut seen = HashSet::new();
    let mut stack = vec![from];
    seen.insert(from);
    while let Some(cell) = stack.pop() {
        let (x, y) = (cell % size, cell / size);
        let mut next = Vec::new();
        if y > 0 && lab.wall(cell, 0) == Ok(false) {
            next.push(cell - size);
        }
        if x + 1 < size && lab.wall(cell, 1) == Ok(false) {
            next.push(cell + 1);
        }
        if y + 1 < size && lab.wall(cell, 2) == Ok(false) {
            next.push(cell + size);
        }
        if x > 0 && lab.wall(cell, 3) == Ok(false) {
            next.push(cell - 1);
        }
        for b in next {
            if seen.insert(b) {
                stack.push(b);
            }
        }
    }
    seen
}

fn open_pairs(lab: &Lab) -> usize {
    let size = lab.size();
    let mut count = 0;
    for cell in 0..lab.cell_count() {
        if cell % size + 1 < size
            && lab.wall(cell, 1) == Ok(false)
            && lab.wall(cell + 1, 3) == Ok(false)
        {
            count += 1;
        }
        if cell / size + 1 < size
            && lab.wall(cell, 2) == Ok(false)
            && lab.wall(cell + size, 0) == Ok(false)
        {
            count += 1;
        }
    }
    count
}

fn border_is_closed(lab: &Lab) -> bool {
    let size = lab.size();
    (0..lab.cell_count()).all(|cell| {
        let (x, y) = (cell % size, cell / size);
        (y > 0 || lab.wall(cell, 0) == Ok(true))
            && (x + 1 < size || lab.wall(cell, 1) == Ok(true))
            && (y + 1 < size || lab.wall(cell, 2) == Ok(true))
            && (x > 0 || lab.wall(cell, 3) == Ok(true))
    })
}

#[test]
fn unvisited_neighbors_come_in_side_order() {
    let lab = Lab::new(3).unwrap();
    let none = HashSet::new();
    assert_eq!(
        unvisited_neighbors(&lab, &none, 4),
        vec![
            (1, Direction::Top),
            (5, Direction::Right),
            (7, Direction::Bottom),
            (3, Direction::Left)
        ]
    );
    assert_eq!(
        unvisited_neighbors(&lab, &none, 0),
        vec![(1, Direction::Right), (3, Direction::Bottom)]
    );
    assert_eq!(
        unvisited_neighbors(&lab, &none, 8),
        vec![(5, Direction::Top), (7, Direction::Left)]
    );
    let some = set_of(&[1, 7]);
    assert_eq!(
        unvisited_neighbors(&lab, &some, 4),
        vec![(5, Direction::Right), (3, Direction::Left)]
    );
    let all = set_of(&[1, 3, 5, 7]);
    assert_eq!(unvisited_neighbors(&lab, &all, 4), vec![]);
    assert_eq!(unvisited_neighbors(&lab, &none, 9), vec![]);
}

#[test]
fn closest_visited_takes_the_nearest_and_then_the_lowest() {
    let lab = Lab::new(4).unwrap();
    assert_eq!(closest_visited(&lab, &HashSet::new(), 15), None);
    assert_eq!(closest_visited(&lab, &set_of(&[0]), 15), Some(0));
    // 5 is at distance 4 from 15, 1 at distance 5
    assert_eq!(closest_visited(&lab, &set_of(&[0, 1, 5]), 15), Some(5));
    // 7 and 13 are both at distance 2: the lower index wins
    assert_eq!(closest_visited(&lab, &set_of(&[13, 7, 0]), 15), Some(7));
    // 11 and 14 are both at distance 1
    assert_eq!(closest_visited(&lab, &set_of(&[14, 11]), 15), Some(11));
    assert_eq!(closest_visited(&lab, &set_of(&[15, 14]), 15), Some(15));
    // a target that is no cell has no closest cell
    assert_eq!(closest_visited(&lab, &set_of(&[0]), 16), None);
    // what is visited but no cell does not count
    assert_eq!(closest_visited(&lab, &set_of(&[99]), 3), None);
}

#[test]
fn extend_walk_takes_the_picked_move() {
    let mut lab = Lab::new(3).unwrap();
    let mut visited = set_of(&[4]);
    // moves from 4: top 1, right 5, bottom 7, left 3; pick 2 is bottom
    assert_eq!(extend_walk(&mut lab, &mut visited, 4, 2), Some(7));
    assert_eq!(visited, set_of(&[4, 7]));
    assert_eq!(lab.wall(4, 2), Ok(false));
    assert_eq!(lab.wall(7, 0), Ok(false));
    assert_eq!(lab.wall(4, 0), Ok(true));
    assert_eq!(lab.wall(4, 1), Ok(true));
    assert_eq!(lab.wall(4, 3), Ok(true));
    // moves from 7: right 8, left 6; pick 5 counts modulo 2: left
    assert_eq!(extend_walk(&mut lab, &mut visited, 7, 5), Some(6));
    assert_eq!(visited, set_of(&[4, 6, 7]));
    assert_eq!(lab.wall(7, 3), Ok(false));
    assert_eq!(lab.wall(6, 1), Ok(false));
    assert!(lab.is_consistent());
}

#[test]
fn extend_walk_stops_at_a_dead_end() {
    let mut lab = Lab::new(2).unwrap();
    let mut visited = set_of(&[0, 1, 2]);
    assert_eq!(extend_walk(&mut lab, &mut visited, 0, 0), None);
    assert_eq!(visited, set_of(&[0, 1, 2]));
    for cell in 0..4 {
        for side in 0..4 {
            assert_eq!(lab.wall(cell, side), Ok(true));
        }
    }
}

#[test]
fn main_path_step_moves_or_jumps() {
    let mut lab = Lab::new(3).unwrap();
    let mut visited = set_of(&[0]);
    // moves from 0: right 1, bottom 3
    assert_eq!(main_path_step(&mut lab, &mut visited, 0, 8, 1), 3);
    assert_eq!(lab.wall(0, 2), Ok(false));
    assert_eq!(lab.wall(3, 0), Ok(false));
    assert_eq!(main_path_step(&mut lab, &mut visited, 3, 8, 0), 4);
    assert_eq!(main_path_step(&mut lab, &mut visited, 4, 8, 0), 1);
    // from 1 the only move goes right, to 2
    assert_eq!(main_path_step(&mut lab, &mut visited, 1, 8, 3), 2);
    assert_eq!(main_path_step(&mut lab, &mut visited, 2, 8, 0), 5);
    assert_eq!(main_path_step(&mut lab, &mut visited, 5, 8, 0), 8);
    assert_eq!(visited, set_of(&[0, 1, 2, 3, 4, 5, 8]));
    // at 8 with 7 still free the walk goes on
    assert_eq!(main_path_step(&mut lab, &mut visited, 8, 6, 0), 7);
    // 7 is a dead end once 6 is all that is left: 6 is next to it, so it moves
    assert_eq!(main_path_step(&mut lab, &mut visited, 7, 6, 0), 6);
    // now every cell is visited: a step is a jump to the cell nearest to the target
    let before = lab.clone();
    assert_eq!(main_path_step(&mut lab, &mut visited, 6, 2, 0), 2);
    for cell in 0..9 {
        assert_eq!(lab.tile(cell), before.tile(cell));
    }
}

#[test]
fn main_path_step_jumps_to_the_cell_nearest_to_the_exit() {
    // 0 and its two neighbors are visited, the walk stands in the corner
    let mut lab = Lab::new(3).unwrap();
    let mut visited = set_of(&[0, 1, 3]);
    // 1 and 3 are both at distance 3 from 8: the lower index wins
    assert_eq!(main_path_step(&mut lab, &mut visited, 0, 8, 0), 1);
    assert_eq!(visited, set_of(&[0, 1, 3]));
    assert_eq!(main_path_step(&mut lab, &mut visited, 0, 6, 0), 3);
    for cell in 0..9 {
        for side in 0..4 {
            assert_eq!(lab.wall(cell, side), Ok(true));
        }
    }
}

#[test]
fn main_path_reaches_the_exit() {
    for size in 1..8 {
        let n = size * size;
        for (entrance, exit) in [(0, n - 1), (n - 1, 0), (n / 2, n / 2), (size - 1, n - size)] {
            let mut lab = Lab::new(size).unwrap();
            assert_eq!(generate_main_path(&mut lab, entrance, exit), Ok(()));
            assert!(lab.is_consistent());
            assert!(border_is_closed(&lab));
            let reached = flood(&lab, entrance);
            assert!(reached.contains(&exit));
            // every cell that lost a wall can be reached from the entrance
            for cell in 0..n {
                if lab.tile(cell).unwrap().is_open() {
                    assert!(reached.contains(&cell));
                }
            }
        }
    }
}

#[test]
fn main_path_refuses_ends_outside_the_lab() {
    let mut lab = Lab::new(3).unwrap();
    assert_eq!(generate_main_path(&mut lab, 9, 0), Err(LabError::IndexOutOfRange));
    assert_eq!(generate_main_path(&mut lab, 0, 9), Err(LabError::IndexOutOfRange));
    assert_eq!(generate_dead_end_paths(&mut lab, 9, 0), Err(LabError::IndexOutOfRange));
    assert_eq!(generate_dead_end_paths(&mut lab, 0, 12), Err(LabError::IndexOutOfRange));
    for cell in 0..9 {
        assert!(!lab.tile(cell).unwrap().is_open());
    }
}

#[test]
fn main_path_only_removes_walls() {
    let mut lab = Lab::new(4).unwrap();
    lab.set_wall_pair(5, Direction::Right, false);
    lab.set_wall(0, 0, false).unwrap();
    generate_main_path(&mut lab, 0, 15).unwrap();
    assert_eq!(lab.wall(5, 1), Ok(false));
    assert_eq!(lab.wall(6, 3), Ok(false));
    assert_eq!(lab.wall(0, 0), Ok(false));
    assert!(lab.is_consistent());
}

#[test]
fn opened_cells_are_the_entrance_and_the_cells_with_an_opening() {
    let mut lab = Lab::new(3).unwrap();
    assert_eq!(opened_cells(&lab, 4), set_of(&[4]));
    lab.set_wall_pair(0, Direction::Right, false);
    lab.set_wall(8, 2, false).unwrap();
    assert_eq!(opened_cells(&lab, 4), set_of(&[0, 1, 4, 8]));
    assert_eq!(opened_cells(&lab, 0), set_of(&[0, 1, 8]));
    assert_eq!(opened_cells(&lab, 9), set_of(&[0, 1, 8]));
}

#[test]
fn dead_ends_cover_every_cell() {
    for size in 1..8 {
        let n = size * size;
        let mut lab = Lab::new(size).unwrap();
        generate_main_path(&mut lab, 0, n - 1).unwrap();
        let main_path = lab.clone();
        assert_eq!(generate_dead_end_paths(&mut lab, 0, n - 1), Ok(()));
        assert!(lab.is_consistent());
        assert!(border_is_closed(&lab));
        assert_eq!(flood(&lab, 0).len(), n);
        // walls are only removed
        for cell in 0..n {
            for side in 0..4 {
                if main_path.wall(cell, side) == Ok(false) {
                    assert_eq!(lab.wall(cell, side), Ok(false));
                }
            }
        }
    }
}

#[test]
fn dead_ends_on_a_single_cell_change_nothing() {
    let mut lab = Lab::new(1).unwrap();
    assert_eq!(generate_main_path(&mut lab, 0, 0), Ok(()));
    assert_eq!(generate_dead_end_paths(&mut lab, 0, 0), Ok(()));
    for side in 0..4 {
        assert_eq!(lab.wall(0, side), Ok(true));
    }
    assert_eq!(find_shortest_path(&lab, 0, 0), Some(vec![0]));
}

#[test]
fn dead_ends_alone_grow_from_the_entrance() {
    let mut lab = Lab::new(5).unwrap();
    assert_eq!(generate_dead_end_paths(&mut lab, 12, 0), Ok(()));
    assert!(lab.is_consistent());
    assert_eq!(flood(&lab, 12).len(), 25);
}

#[test]
fn carved_labyrinth_of_size_four_is_solved_within_bounds() {
    for _ in 0..50 {
        let mut lab = Lab::new(4).unwrap();
        generate_main_path(&mut lab, 0, 15).unwrap();
        generate_dead_end_paths(&mut lab, 0, 15).unwrap();
        let path = find_shortest_path(&lab, 0, 15).unwrap();
        assert!(path.len() >= 7);
        assert!(path.len() <= 15);
        assert_eq!(path[0], 0);
        assert_eq!(path[path.len() - 1], 15);
    }
}

#[test]
fn carve_labyrinth_reaches_every_cell() {
    for size in 1..8 {
        let n = size * size;
        let lab = carve_labyrinth(size, 0, n - 1).unwrap();
        assert_eq!(lab.size(), size);
        assert!(lab.is_consistent());
        assert!(border_is_closed(&lab));
        for from in 0..n {
            assert_eq!(flood(&lab, from).len(), n);
        }
    }
}

#[test]
fn carve_labyrinth_reports_bad_arguments() {
    assert_eq!(carve_labyrinth(0, 0, 0).err(), Some(LabError::InvalidSize));
    assert_eq!(carve_labyrinth(usize::MAX, 0, 0).err(), Some(LabError::InvalidSize));
    assert_eq!(carve_labyrinth(3, 9, 0).err(), Some(LabError::IndexOutOfRange));
    assert_eq!(carve_labyrinth(3, 0, 9).err(), Some(LabError::IndexOutOfRange));
    assert!(carve_labyrinth(3, 8, 8).is_ok());
}

#[test]
fn main_path_in_solid_walls_is_a_tree() {
    for size in 1..8 {
        let n = size * size;
        let mut lab = Lab::new(size).unwrap();
        generate_main_path(&mut lab, 0, n - 1).unwrap();
        let reached = opened_cells(&lab, 0);
        assert_eq!(open_pairs(&lab) + 1, reached.len());
        assert_eq!(flood(&lab, 0), reached);
    }
}

#[test]
fn carved_labyrinth_is_a_spanning_tree() {
    for size in 1..8 {
        let n = size * size;
        let lab = carve_labyrinth(size, n - 1, 0).unwrap();
        assert_eq!(open_pairs(&lab), n - 1);
        assert_eq!(flood(&lab, n - 1).len(), n);
    }
}

#[test]
fn dead_ends_open_one_wall_for_each_new_cell() {
    let mut lab = Lab::new(4).unwrap();
    lab.set_wall_pair(0, Direction::Right, false);
    lab.set_wall_pair(1, Direction::Bottom, false);
    lab.set_wall_pair(14, Direction::Right, false);
    // five cells are the entrance or have an opening: 0, 1, 5, 14, 15
    assert_eq!(opened_cells(&lab, 0).len(), 5);
    generate_dead_end_paths(&mut lab, 0, 15).unwrap();
    assert_eq!(open_pairs(&lab), 3 + 16 - 5);
    // each cell is tied to one of the two groups
    let first = flood(&lab, 0);
    let second = flood(&lab, 15);
    assert!(first.len() == 16 || first.len() + second.len() == 16);
}
