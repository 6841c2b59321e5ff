use labyrinth::solver::reversed;
use labyrinth::{find_shortest_path, is_reachable, Direction, Lab};

fn open_everything(lab: &mut Lab) {
    for cell in 0..lab.cell_count() {
        lab.set_wall_pair(cell, Direction::Right, false);
        lab.set_wall_pair(cell, Direction::Bottom, false);
    }
}

fn assert_is_path(lab: &Lab, path: &[usize], entrance: usize, exit: usize) {
    assert_eq!(path.first(), Some(&entrance));
    assert_eq!(path.last(), Some(&exit));
    for pair in path.windows(2) {
        let mut linked = false;
        for side in 0..4 {
            let d = Direction::from_index(side).unwrap();
            if lab.neighbor(pair[0], d) == Some(pair[1]) && lab.wall(pair[0], side) == Ok(false) {
                linked = true;
            }
        }
        assert!(linked, "{} and {} are not linked", pair[0], pair[1]);
    }
}

#[test]
fn closed_lab_has_no_path_between_different_cells() {
    let lab = Lab::new(3).unwrap();
    for entrance in 0..9 {
        for exit in 0..9 {
            let path = find_shortest_path(&lab, entrance, exit);
            if entrance == exit {
                assert_eq!(path, Some(vec![entrance]));
            } else {
                assert_eq!(path, None);
                assert!(!is_reachable(&lab, entrance, exit));
            }
        }
    }
}

#[test]
fn single_cell_path_is_the_cell() {
    let lab = Lab::new(1).unwrap();
    assert_eq!(find_shortest_path(&lab, 0, 0), Some(vec![0]));
}

#[test]
fn ends_outside_the_lab_are_unreachable() {
    let mut lab = Lab::new(2).unwrap();
    open_everything(&mut lab);
    assert_eq!(find_shortest_path(&lab, 4, 0), None);
    assert_eq!(find_shortest_path(&lab, 0, 4), None);
    assert_eq!(find_shortest_path(&lab, 7, 7), None);
    assert_eq!(find_shortest_path(&lab, 0, 3).map(|p| p.len()), Some(3));
}

#[test]
fn corridor_is_followed() {
    // 3 x 3, one corridor: 0 - 1 - 2 - 5 - 4 - 3 - 6 - 7 - 8
    let mut lab = Lab::new(3).unwrap();
    lab.set_wall_pair(0, Direction::Right, false);
    lab.set_wall_pair(1, Direction::Right, false);
    lab.set_wall_pair(2, Direction::Bottom, false);
    lab.set_wall_pair(5, Direction::Left, false);
    lab.set_wall_pair(4, Direction::Left, false);
    lab.set_wall_pair(3, Direction::Bottom, false);
    lab.set_wall_pair(6, Direction::Right, false);
    lab.set_wall_pair(7, Direction::Right, false);
    assert_eq!(find_shortest_path(&lab, 0, 8), Some(vec![0, 1, 2, 5, 4, 3, 6, 7, 8]));
    assert_eq!(find_shortest_path(&lab, 8, 0), Some(vec![8, 7, 6, 3, 4, 5, 2, 1, 0]));
    assert_eq!(find_shortest_path(&lab, 4, 6), Some(vec![4, 3, 6]));
}

#[test]
fn shortest_of_two_routes_is_taken() {
    // 3 x 3: the long way round 0 - 1 - 2 - 5 - 8 - 7 - 6 and the short cut 0 - 3 - 6
    let mut lab = Lab::new(3).unwrap();
    lab.set_wall_pair(0, Direction::Right, false);
    lab.set_wall_pair(1, Direction::Right, false);
    lab.set_wall_pair(2, Direction::Bottom, false);
    lab.set_wall_pair(5, Direction::Bottom, false);
    lab.set_wall_pair(8, Direction::Left, false);
    lab.set_wall_pair(7, Direction::Left, false);
    assert_eq!(find_shortest_path(&lab, 0, 6), Some(vec![0, 1, 2, 5, 8, 7, 6]));
    lab.set_wall_pair(0, Direction::Bottom, false);
    lab.set_wall_pair(3, Direction::Bottom, false);
    assert_eq!(find_shortest_path(&lab, 0, 6), Some(vec![0, 3, 6]));
}

#[test]
fn among_shortest_paths_the_earlier_side_wins() {
    let mut lab = Lab::new(2).unwrap();
    open_everything(&mut lab);
    // right comes before bottom
    assert_eq!(find_shortest_path(&lab, 0, 3), Some(vec![0, 1, 3]));
    // top comes before left
    assert_eq!(find_shortest_path(&lab, 3, 0), Some(vec![3, 1, 0]));
    // top comes before right
    assert_eq!(find_shortest_path(&lab, 2, 1), Some(vec![2, 0, 1]));
    let mut wide = Lab::new(3).unwrap();
    open_everything(&mut wide);
    assert_eq!(find_shortest_path(&wide, 0, 8), Some(vec![0, 1, 2, 5, 8]));
    assert_eq!(find_shortest_path(&wide, 8, 0), Some(vec![8, 5, 2, 1, 0]));
    assert_eq!(find_shortest_path(&wide, 6, 2), Some(vec![6, 3, 0, 1, 2]));
}

#[test]
fn solver_reads_the_flag_of_the_cell_it_leaves() {
    // the wall between 0 and 1 is missing on tile 0 only
    let mut lab = Lab::new(2).unwrap();
    lab.set_wall(0, 1, false).unwrap();
    assert_eq!(find_shortest_path(&lab, 0, 1), Some(vec![0, 1]));
    assert_eq!(find_shortest_path(&lab, 1, 0), None);
}

#[test]
fn solving_twice_gives_the_same_path() {
    for size in 1..7 {
        let lab = labyrinth::carve_labyrinth(size, 0, size * size - 1).unwrap();
        let first = find_shortest_path(&lab, 0, size * size - 1);
        let second = find_shortest_path(&lab, 0, size * size - 1);
        assert!(first.is_some());
        assert_eq!(first, second);
        assert_is_path(&lab, &first.unwrap(), 0, size * size - 1);
    }
}

#[test]
fn path_in_an_open_lab_has_manhattan_length() {
    for size in 1..6 {
        let mut lab = Lab::new(size).unwrap();
        open_everything(&mut lab);
        let n = size * size;
        for entrance in 0..n {
            for exit in 0..n {
                let path = find_shortest_path(&lab, entrance, exit).unwrap();
                let dx = (entrance % size).abs_diff(exit % size);
                let dy = (entrance / size).abs_diff(exit / size);
                assert_eq!(path.len(), dx + dy + 1);
                assert_is_path(&lab, &path, entrance, exit);
            }
        }
    }
}

#[test]
fn is_reachable_agrees_with_the_solver() {
    let mut lab = Lab::new(3).unwrap();
    lab.set_wall_pair(0, Direction::Right, false);
    lab.set_wall_pair(4, Direction::Bottom, false);
    for a in 0..9 {
        for b in 0..9 {
            assert_eq!(is_reachable(&lab, a, b), find_shortest_path(&lab, a, b).is_some());
        }
    }
    assert!(is_reachable(&lab, 0, 1));
    assert!(is_reachable(&lab, 7, 4));
    assert!(!is_reachable(&lab, 1, 4));
}

#[test]
fn reversed_turns_a_vector_round() {
    assert_eq!(reversed(&vec![]), Vec::<usize>::new());
    assert_eq!(reversed(&vec![7]), vec![7]);
    assert_eq!(reversed(&vec![1, 2, 3, 4]), vec![4, 3, 2, 1]);
}

#[test]
fn shortest_path_passes_no_cell_twice() {
    let mut lab = Lab::new(4).unwrap();
    open_everything(&mut lab);
    for entrance in 0..16 {
        for exit in 0..16 {
            let path = find_shortest_path(&lab, entrance, exit).unwrap();
            let mut cells = path.clone();
            cells.sort();
            cells.dedup();
            assert_eq!(cells.len(), path.len());
        }
    }
}

#[test]
fn path_length_lies_between_the_distance_and_the_number_of_cells() {
    for size in 2..7 {
        let n = size * size;
        for _ in 0..5 {
            let lab = labyrinth::carve_labyrinth(size, 0, n - 1).unwrap();
            for exit in 0..n {
                let path = find_shortest_path(&lab, 0, exit).unwrap();
                let distance = exit % size + exit / size;
                assert!(path.len() >= distance + 1);
                assert!(path.len() <= n);
            }
        }
    }
}
