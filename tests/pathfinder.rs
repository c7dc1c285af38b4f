use maze_gen::maze::{Cell, Maze};
use maze_gen::pathfinder::{find_path, solve, PathError};

fn cell(neighbours: Vec<usize>) -> Cell {
    Cell { has_border_right: true, has_border_bottom: true, neighbours }
}

#[test]
fn single_cell_maze() {
    let mut m = Maze::new(1);
    let cells = m.generate();
    assert_eq!(cells.len(), 1);
    assert!(cells[0].neighbours.is_empty());
    assert_eq!(m.visited, vec![0]);
    assert_eq!(solve(&m), Ok(vec![0]));
}

#[test]
fn width_three_path_matches_tree_distance() {
    let mut m = Maze::new(3);
    let cells = m.generate();
    let edges: usize = cells.iter().map(|c| c.neighbours.len()).sum();
    assert_eq!(edges, 8);
    // tree distance from the root by following parents up from the last cell
    let mut parent = vec![usize::MAX; 9];
    for (p, c) in cells.iter().enumerate() {
        for &x in &c.neighbours {
            parent[x] = p;
        }
    }
    let mut depth = 0;
    let mut cur = 8;
    while cur != 0 {
        cur = parent[cur];
        depth += 1;
    }
    let path = solve(&m).unwrap();
    assert_eq!(path.len() - 1, depth);
    assert_eq!(path[0], 0);
    assert_eq!(*path.last().unwrap(), 8);
    for pair in path.windows(2) {
        assert!(cells[pair[0]].neighbours.contains(&pair[1]));
    }
}

#[test]
fn search_twice_gives_same_path() {
    let mut m = Maze::new(7);
    m.generate();
    let a = solve(&m);
    let b = solve(&m);
    assert!(a.is_ok());
    assert_eq!(a, b);
    let c = find_path(&m.maze, 0, 48);
    assert_eq!(a, c);
}

#[test]
fn disconnected_graph_has_no_path() {
    let cells = vec![cell(vec![1]), cell(vec![]), cell(vec![]), cell(vec![2])];
    assert_eq!(find_path(&cells, 0, 3), Err(PathError::PathNotFound));
    assert_eq!(find_path(&cells, 0, 1), Ok(vec![0, 1]));
    assert_eq!(find_path(&cells, 2, 2), Ok(vec![2]));
}

#[test]
fn search_takes_the_shorter_way() {
    // 0 -> 1 -> 2 -> 3 and a shortcut 0 -> 3
    let cells = vec![cell(vec![1, 3]), cell(vec![2]), cell(vec![3]), cell(vec![])];
    assert_eq!(find_path(&cells, 0, 3), Ok(vec![0, 3]));
    assert_eq!(find_path(&cells, 1, 3), Ok(vec![1, 2, 3]));
}
