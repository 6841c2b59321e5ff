use labyrinth::{
    find_shortest_path, frontier_step, generate_perfect_maze, is_reachable, open_ends, plant,
    reinsert_walls, try_reinsert_wall, Direction, Lab,
};
use std::collections::HashSet;

fn set_of(cells: &[usize]) -> HashSet<usize> {
    cells.iter().copied().collect()
}

fn open_pairs(lab: &Lab) -> usize {
    let size = lab.size();
    let mut count = 0;
    for cell in 0..lab.cell_count() {
        if cell % size + 1 < size
            && lab.wall(cell, 1) == Ok(false)
            && lab.wall(cell + 1, 3) == Ok(false)
        {
            count += 1;
        }
        if cell / size + 1 < size
            && lab.wall(cell, 2) == Ok(false)
            && lab.wall(cell + size, 0) == Ok(false)
        {
            count += 1;
        }
    }
    count
}

/// The number of ways from `from` to `to` that pass no cell twice.
fn count_routes(lab: &Lab, from: usize, to: usize, seen: &mut Vec<bool>) -> usize {
    if from == to {
        return 1;
    }
    seen[from] = true;
    let mut count = 0;
    for side in 0..4 {
        let d = Direction::from_index(side).unwrap();
        if let Some(next) = lab.passage_to(from, d) {
            if !seen[next] {
                count += count_routes(lab, next, to, seen);
            }
        }
    }
    seen[from] = false;
    count
}

fn walls(lab: &Lab) -> Vec<bool> {
    let mut flags = Vec::new();
    for cell in 0..lab.cell_count() {
        for side in 0..4 {
            flags.push(lab.wall(cell, side).unwrap());
        }
    }
    flags
}

#[test]
fn frontier_step_connects_an_unknown_cell() {
    let mut lab = Lab::new(3).unwrap();
    let mut visited = set_of(&[4]);
    let mut frontier = vec![
        (4, 1, Direction::Top),
        (4, 5, Direction::Right),
        (4, 7, Direction::Bottom),
        (4, 3, Direction::Left),
    ];
    // pick 1 takes the entry towards 5; the last entry moves into its place
    frontier_step(&mut lab, &mut visited, &mut frontier, 1);
    assert_eq!(visited, set_of(&[4, 5]));
    assert_eq!(lab.wall(4, 1), Ok(false));
    assert_eq!(lab.wall(5, 3), Ok(false));
    assert_eq!(
        frontier,
        vec![
            (4, 1, Direction::Top),
            (4, 3, Direction::Left),
            (4, 7, Direction::Bottom),
            (5, 2, Direction::Top),
            (5, 8, Direction::Bottom),
        ]
    );
    assert_eq!(open_pairs(&lab), 1);
}

#[test]
fn frontier_step_drops_a_stale_entry() {
    let mut lab = Lab::new(2).unwrap();
    let mut visited = set_of(&[0, 1]);
    let mut frontier = vec![(0, 1, Direction::Right), (0, 2, Direction::Bottom)];
    // pick 4 counts modulo 2: the entry towards 1, which is visited
    frontier_step(&mut lab, &mut visited, &mut frontier, 4);
    assert_eq!(frontier, vec![(0, 2, Direction::Bottom)]);
    assert_eq!(visited, set_of(&[0, 1]));
    assert_eq!(walls(&lab), vec![true; 16]);
    // on an empty frontier nothing happens
    let mut empty = Vec::new();
    frontier_step(&mut lab, &mut visited, &mut empty, 0);
    assert_eq!(empty, vec![]);
    assert_eq!(visited, set_of(&[0, 1]));
}

#[test]
fn perfect_maze_is_a_spanning_tree() {
    for size in 1..9 {
        for _ in 0..5 {
            let n = size * size;
            let mut lab = Lab::new(size).unwrap();
            let (entrance, exit) = generate_perfect_maze(&mut lab);
            assert_eq!(lab.size(), size);
            assert!(lab.is_consistent());
            assert_eq!(open_pairs(&lab), n - 1);
            for from in 0..n {
                for to in 0..n {
                    assert!(is_reachable(&lab, from, to));
                }
            }
            assert!(entrance < size);
            assert!(exit >= n - size && exit < n);
            assert_eq!(lab.wall(entrance, 0), Ok(false));
            assert_eq!(lab.wall(exit, 2), Ok(false));
        }
    }
}

#[test]
fn perfect_maze_opens_the_border_at_the_ends_only() {
    let size = 6;
    let mut lab = Lab::new(size).unwrap();
    let (entrance, exit) = generate_perfect_maze(&mut lab);
    for cell in 0..size * size {
        let (x, y) = (cell % size, cell / size);
        if y == 0 {
            assert_eq!(lab.wall(cell, 0), Ok(cell != entrance));
        }
        if x == size - 1 {
            assert_eq!(lab.wall(cell, 1), Ok(true));
        }
        if y == size - 1 {
            assert_eq!(lab.wall(cell, 2), Ok(cell != exit));
        }
        if x == 0 {
            assert_eq!(lab.wall(cell, 3), Ok(true));
        }
    }
}

#[test]
fn perfect_maze_starts_from_closed_walls() {
    // whatever the labyrinth held before, the result is a tree
    let mut lab = Lab::new(4).unwrap();
    for cell in 0..16 {
        lab.set_wall_pair(cell, Direction::Right, false);
        lab.set_wall_pair(cell, Direction::Bottom, false);
    }
    generate_perfect_maze(&mut lab);
    assert_eq!(open_pairs(&lab), 15);
}

#[test]
fn perfect_maze_of_one_cell_round_trip() {
    let mut lab = Lab::new(1).unwrap();
    let (entrance, exit) = generate_perfect_maze(&mut lab);
    assert_eq!((entrance, exit), (0, 0));
    assert_eq!(open_pairs(&lab), 0);
    assert_eq!(lab.wall(0, 0), Ok(false));
    assert_eq!(lab.wall(0, 1), Ok(true));
    assert_eq!(lab.wall(0, 2), Ok(false));
    assert_eq!(lab.wall(0, 3), Ok(true));
    assert_eq!(find_shortest_path(&lab, 0, 0), Some(vec![0]));
}

#[test]
fn wall_is_reinserted_where_the_exit_stays_reachable() {
    // 2 x 2 with every inner wall removed: a ring 0 - 1 - 3 - 2 - 0
    let mut lab = Lab::new(2).unwrap();
    for cell in 0..4 {
        lab.set_wall_pair(cell, Direction::Right, false);
        lab.set_wall_pair(cell, Direction::Bottom, false);
    }
    // a wall between 0 and 1 leaves the way round
    assert!(try_reinsert_wall(&mut lab, 0, 1, 0, Direction::Right));
    assert_eq!(lab.wall(0, 1), Ok(true));
    assert_eq!(lab.wall(1, 3), Ok(true));
    assert_eq!(find_shortest_path(&lab, 0, 1), Some(vec![0, 2, 3, 1]));
    // a second wall on the ring would cut 1 off
    let before = walls(&lab);
    assert!(!try_reinsert_wall(&mut lab, 0, 1, 1, Direction::Bottom));
    assert!(!try_reinsert_wall(&mut lab, 0, 1, 2, Direction::Top));
    assert!(!try_reinsert_wall(&mut lab, 0, 1, 3, Direction::Left));
    assert_eq!(walls(&lab), before);
}

#[test]
fn wall_is_not_reinserted_where_it_stands_or_on_the_border() {
    let mut lab = Lab::new(2).unwrap();
    lab.set_wall_pair(0, Direction::Right, false);
    lab.set_wall(0, 0, false).unwrap();
    let before = walls(&lab);
    // stands already
    assert!(!try_reinsert_wall(&mut lab, 0, 0, 0, Direction::Bottom));
    // border
    assert!(!try_reinsert_wall(&mut lab, 0, 0, 0, Direction::Top));
    // no cell
    assert!(!try_reinsert_wall(&mut lab, 0, 0, 4, Direction::Top));
    assert_eq!(walls(&lab), before);
    // the entrance reaches itself whatever stands, so this wall goes in
    assert!(try_reinsert_wall(&mut lab, 0, 0, 0, Direction::Right));
    assert_eq!(lab.wall(0, 1), Ok(true));
    assert_eq!(lab.wall(1, 3), Ok(true));
}

#[test]
fn thinning_keeps_entrance_and_exit_connected() {
    for size in 1..8 {
        for _ in 0..5 {
            let n = size * size;
            let mut lab = Lab::new(size).unwrap();
            for cell in 0..n {
                lab.set_wall_pair(cell, Direction::Right, false);
                lab.set_wall_pair(cell, Direction::Bottom, false);
            }
            let before = walls(&lab);
            let added = reinsert_walls(&mut lab, 0, n - 1);
            assert!(added <= n);
            assert!(lab.is_consistent());
            assert!(is_reachable(&lab, 0, n - 1));
            assert!(is_reachable(&lab, n - 1, 0));
            let after = walls(&lab);
            // walls are only added, two flags for each wall put back
            let mut more = 0;
            for (was, is) in before.iter().zip(after.iter()) {
                assert!(*is || !*was);
                if *is && !*was {
                    more += 1;
                }
            }
            assert_eq!(more, 2 * added);
        }
    }
}

#[test]
fn thinning_a_perfect_maze_keeps_the_way_out() {
    for _ in 0..10 {
        let mut lab = Lab::new(5).unwrap();
        let (entrance, exit) = generate_perfect_maze(&mut lab);
        let path = find_shortest_path(&lab, entrance, exit).unwrap();
        reinsert_walls(&mut lab, entrance, exit);
        assert!(lab.is_consistent());
        // the only path of a tree is still there
        assert_eq!(find_shortest_path(&lab, entrance, exit), Some(path));
        assert!(is_reachable(&lab, exit, entrance));
    }
}

#[test]
fn thinning_changes_nothing_where_there_is_no_way() {
    let mut lab = Lab::new(3).unwrap();
    lab.set_wall_pair(0, Direction::Right, false);
    lab.set_wall_pair(4, Direction::Right, false);
    let before = walls(&lab);
    assert_eq!(reinsert_walls(&mut lab, 0, 8), 0);
    assert_eq!(walls(&lab), before);
    assert_eq!(reinsert_walls(&mut lab, 0, 9), 0);
    assert_eq!(walls(&lab), before);
}

#[test]
fn perfect_maze_has_one_route_between_any_two_cells() {
    for size in 1..6 {
        let n = size * size;
        let mut lab = Lab::new(size).unwrap();
        generate_perfect_maze(&mut lab);
        for from in 0..n {
            for to in 0..n {
                assert_eq!(count_routes(&lab, from, to, &mut vec![false; n]), 1);
            }
        }
    }
}

#[test]
fn carved_labyrinth_has_one_route_between_any_two_cells() {
    for size in 1..6 {
        let n = size * size;
        let lab = labyrinth::carve_labyrinth(size, 0, n - 1).unwrap();
        for from in 0..n {
            for to in 0..n {
                assert_eq!(count_routes(&lab, from, to, &mut vec![false; n]), 1);
            }
        }
    }
}

#[test]
fn thinning_leaves_at_most_one_route_in_a_tree() {
    let mut lab = Lab::new(5).unwrap();
    let (entrance, exit) = generate_perfect_maze(&mut lab);
    reinsert_walls(&mut lab, entrance, exit);
    for from in 0..25 {
        for to in 0..25 {
            assert!(count_routes(&lab, from, to, &mut vec![false; 25]) <= 1);
        }
    }
    assert_eq!(count_routes(&lab, entrance, exit, &mut vec![false; 25]), 1);
}

#[test]
fn plant_closes_the_walls_and_starts_the_frontier() {
    let mut lab = Lab::new(3).unwrap();
    lab.set_wall_pair(0, Direction::Right, false);
    lab.set_wall(8, 2, false).unwrap();
    let (visited, frontier) = plant(&mut lab, 3);
    assert_eq!(walls(&lab), vec![true; 36]);
    assert_eq!(visited, set_of(&[3]));
    assert_eq!(
        frontier,
        vec![(3, 0, Direction::Top), (3, 4, Direction::Right), (3, 6, Direction::Bottom)]
    );
    // a start that is no cell has no neighbors
    let (visited, frontier) = plant(&mut lab, 9);
    assert_eq!(visited, set_of(&[9]));
    assert_eq!(frontier, vec![]);
}

#[test]
fn open_ends_removes_two_border_walls() {
    let mut lab = Lab::new(3).unwrap();
    open_ends(&mut lab, 1, 8);
    let mut expected = vec![true; 36];
    expected[4 * 1 + 0] = false;
    expected[4 * 8 + 2] = false;
    assert_eq!(walls(&lab), expected);
    assert!(lab.is_consistent());
    // indices that are no cells are passed over
    open_ends(&mut lab, 9, 12);
    assert_eq!(walls(&lab), expected);
    // the flags are removed on the named tiles only, wherever they are
    let mut inner = Lab::new(3).unwrap();
    open_ends(&mut inner, 4, 4);
    assert_eq!(inner.wall(4, 0), Ok(false));
    assert_eq!(inner.wall(4, 2), Ok(false));
    assert_eq!(inner.wall(1, 2), Ok(true));
    assert_eq!(inner.wall(7, 0), Ok(true));
}
