use maze_gen::maze::{pick_candidate, Cell, Maze, NextCellError};

const WIDTH: usize = 3;

fn edge_total(cells: &[Cell]) -> usize {
    cells.iter().map(|c| c.neighbours.len()).sum()
}

#[test]
fn cell() {
    let c = Cell { has_border_right: true, has_border_bottom: true, neighbours: Vec::new() };
    let bottom: bool = c.has_border_bottom;
    let right: bool = c.has_border_right;
    assert!(bottom);
    assert!(right);
}

#[test]
fn init() {
    let m = Maze::new(WIDTH);
    assert_eq!(m.width, 3);
    assert_eq!(m.visited.len(), 0);
    assert_eq!(m.maze.len(), WIDTH * WIDTH);
}

#[test]
fn get_cells() {
    let mut m = Maze::new(WIDTH);
    let cells: Vec<Cell> = m.get_cells();
    assert_eq!(cells.len(), WIDTH * WIDTH);
}

#[test]
fn update_cell_borders() {
    // moving right
    let mut m = Maze::new(WIDTH);
    m.update_cell_borders(1, 2);
    assert_eq!(false, m.maze[1].has_border_right);
    assert_eq!(true, m.maze[1].has_border_bottom);
    assert_eq!(true, m.maze[2].has_border_right);
    assert_eq!(true, m.maze[2].has_border_bottom);

    // moving left
    let mut m = Maze::new(WIDTH);
    m.update_cell_borders(1, 0);
    assert_eq!(false, m.maze[0].has_border_right);
    assert_eq!(true, m.maze[0].has_border_bottom);
    assert_eq!(true, m.maze[1].has_border_right);
    assert_eq!(true, m.maze[1].has_border_bottom);

    // moving down
    let mut m = Maze::new(WIDTH);
    m.update_cell_borders(1, 4);
    assert_eq!(false, m.maze[1].has_border_bottom);
    assert_eq!(true, m.maze[1].has_border_right);
    assert_eq!(true, m.maze[4].has_border_bottom);
    assert_eq!(true, m.maze[4].has_border_right);

    // moving up
    let mut m = Maze::new(WIDTH);
    m.update_cell_borders(7, 4);
    assert_eq!(false, m.maze[4].has_border_bottom);
    assert_eq!(true, m.maze[4].has_border_right);
    assert_eq!(true, m.maze[7].has_border_bottom);
    assert_eq!(true, m.maze[7].has_border_right);
}

#[test]
fn get_next_cell_id() {
    let m = Maze::new(WIDTH);
    // 0 1 2
    // 3 4 5
    // 6 7 8
    for last_element_id in 0..9usize {
        let mut possible_neighbours = Vec::new();
        for modifier in [1, (m.width as i32) * -1, -1, m.width as i32].into_iter() {
            let next_possible_neighbour_index = (last_element_id as i32) + modifier;
            if m.can_have_neighbour(last_element_id, next_possible_neighbour_index, m.width)
                && !m.visited.contains(&(next_possible_neighbour_index as usize))
            {
                possible_neighbours.push((last_element_id as i32 + modifier) as usize);
            }
        }
        let res = m.get_next_cell_id(&last_element_id).unwrap();
        assert_eq!(possible_neighbours.contains(&res), true);
    }
}

#[test]
fn can_have_next() {
    let m = Maze::new(WIDTH);
    assert_eq!(m.can_have_neighbour(5, 6, WIDTH), false);
    assert_eq!(m.can_have_neighbour(5, 4, WIDTH), true);
    assert_eq!(m.can_have_neighbour(5, 2, WIDTH), true);
    assert_eq!(m.can_have_neighbour(5, 8, WIDTH), true);
    assert_eq!(m.can_have_neighbour(3, 2, WIDTH), false);
    assert_eq!(m.can_have_neighbour(7, 8, WIDTH), true);
}

#[test]
fn non_neighbour_offsets_are_invalid() {
    let m = Maze::new(WIDTH);
    assert!(!m.can_have_neighbour(5, 0, WIDTH));
    assert!(!m.can_have_neighbour(4, -1, WIDTH));
    assert!(!m.can_have_neighbour(8, 9, WIDTH));
    assert!(!m.can_have_neighbour(4, 4, WIDTH));
    assert!(m.can_have_neighbour(0, 1, WIDTH));
    assert!(m.can_have_neighbour(3, 0, WIDTH));
}

#[test]
fn new_cells_are_closed() {
    let m = Maze::new(4);
    assert_eq!(m.maze.len(), 16);
    for c in &m.maze {
        assert!(c.has_border_right && c.has_border_bottom);
        assert!(c.neighbours.is_empty());
    }
}

#[test]
fn next_candidates_in_scan_order() {
    let m = Maze::new(WIDTH);
    assert_eq!(m.next_candidates(4), vec![5, 1, 3, 7]);
    assert_eq!(m.next_candidates(0), vec![1, 3]);
    assert_eq!(m.next_candidates(8), vec![5, 7]);
    let mut m = Maze::new(WIDTH);
    m.visited.push(4);
    m.visited.push(2);
    assert_eq!(m.next_candidates(1), vec![0]);
    assert!(m.is_visited(2));
    assert!(!m.is_visited(1));
}

#[test]
fn no_neighbour_available() {
    let mut m = Maze::new(2);
    m.visited = vec![0, 1, 2, 3];
    assert_eq!(m.get_next_cell_id(&0), Err(NextCellError::NoNeighbourAvailable));
}

#[test]
fn random_pick_stays_among_candidates() {
    let m = Maze::new(WIDTH);
    for _ in 0..200 {
        let c = m.get_next_cell_id(&4).unwrap();
        assert!([5, 1, 3, 7].contains(&c));
    }
}

#[test]
fn pick_candidate_takes_the_drawn_index() {
    let cands = vec![5, 1, 3, 7];
    assert_eq!(pick_candidate(&cands, 0), 5);
    assert_eq!(pick_candidate(&cands, 2), 3);
    assert_eq!(pick_candidate(&cands, 3), 7);
}

#[test]
fn get_cells_copies_walls_and_edges() {
    let mut m = Maze::new(WIDTH);
    m.generate();
    let cells = m.get_cells();
    assert_eq!(cells, m.maze);
}

#[test]
fn generation_builds_spanning_tree() {
    for width in 1..8usize {
        let mut m = Maze::new(width);
        let cells = m.generate();
        let n = width * width;
        assert_eq!(edge_total(&cells), n - 1);
        // each cell entered at most once, the first cell never
        let mut entered = vec![0usize; n];
        for c in &cells {
            for &x in &c.neighbours {
                entered[x] += 1;
            }
        }
        assert_eq!(entered[0], 0);
        for x in 1..n {
            assert_eq!(entered[x], 1);
        }
        // every cell reachable from the first
        let mut seen = vec![false; n];
        let mut todo = vec![0usize];
        seen[0] = true;
        while let Some(v) = todo.pop() {
            for &x in &cells[v].neighbours {
                if !seen[x] {
                    seen[x] = true;
                    todo.push(x);
                }
            }
        }
        assert!(seen.iter().all(|&b| b));
    }
}

#[test]
fn generation_visits_every_cell_once() {
    let mut m = Maze::new(6);
    m.generate();
    let mut v = m.visited.clone();
    assert_eq!(v[0], 0);
    v.sort();
    assert_eq!(v, (0..36).collect::<Vec<usize>>());
}

#[test]
fn walls_follow_tree_edges() {
    let mut m = Maze::new(5);
    let cells = m.generate();
    let w = 5;
    let linked = |a: usize, b: usize| cells[a].neighbours.contains(&b) || cells[b].neighbours.contains(&a);
    for i in 0..25 {
        if i % w + 1 < w {
            assert_eq!(!cells[i].has_border_right, linked(i, i + 1));
        }
        if i + w < 25 {
            assert_eq!(!cells[i].has_border_bottom, linked(i, i + w));
        }
    }
}
