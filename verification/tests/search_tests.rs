use maze_search::grid::{Direction, Grid, Position};
use maze_search::search::find_path;

fn pos(x: usize, y: usize) -> Position {
    Position { x, y }
}

/// A grid with every interior wall carved away.
fn open_grid(w: usize, h: usize) -> Grid {
    let mut g = Grid::new(w, h);
    for y in 0..h {
        for x in 0..w {
            g.carve(pos(x, y), Direction::East);
            g.carve(pos(x, y), Direction::South);
        }
    }
    g
}

/// Whether two consecutive path cells are joined by an open passage.
fn connected(g: &Grid, a: Position, b: Position) -> bool {
    if b.x == a.x && a.y > 0 && b.y == a.y - 1 {
        g.is_open(a, Direction::North)
    } else if b.x == a.x && b.y == a.y + 1 {
        g.is_open(a, Direction::South)
    } else if b.y == a.y && b.x == a.x + 1 {
        g.is_open(a, Direction::East)
    } else if b.y == a.y && a.x > 0 && b.x == a.x - 1 {
        g.is_open(a, Direction::West)
    } else {
        false
    }
}

#[test]
fn three_by_three_full_grid() {
    let g = open_grid(3, 3);
    let (path, trace) = find_path(&g, pos(0, 0), pos(2, 2));
    assert_eq!(path.len(), 5);
    assert_eq!(path[0], pos(0, 0));
    assert_eq!(path[4], pos(2, 2));
    let start_info = trace.get(pos(0, 0));
    assert_eq!(start_info.g_score, Some(0));
    assert_eq!(start_info.h_score, Some(4));
    assert_eq!(start_info.f_score, Some(4));
    assert!(start_info.in_final_path);
}

#[test]
fn path_steps_go_through_open_passages() {
    let g = open_grid(4, 4);
    let (path, _) = find_path(&g, pos(0, 3), pos(3, 0));
    assert_eq!(path.len(), 7);
    for i in 0..path.len() - 1 {
        assert!(connected(&g, path[i], path[i + 1]));
    }
}

#[test]
fn two_by_two_walled_goal_unreachable() {
    let g = Grid::new(2, 2);
    let (path, trace) = find_path(&g, pos(0, 0), pos(1, 1));
    assert!(path.is_empty());
    let start_info = trace.get(pos(0, 0));
    assert_eq!(start_info.g_score, Some(0));
    assert!(start_info.in_closed_set);
    assert!(!start_info.in_open_set);
    let goal_info = trace.get(pos(1, 1));
    assert_eq!(goal_info.g_score, None);
    assert!(!goal_info.in_final_path);
}

#[test]
fn start_equals_goal_returns_single_cell() {
    let g = Grid::new(2, 2);
    let (path, _) = find_path(&g, pos(1, 0), pos(1, 0));
    assert_eq!(path, vec![pos(1, 0)]);
}

#[test]
fn one_by_one_grid() {
    let g = Grid::new(1, 1);
    let (path, trace) = find_path(&g, pos(0, 0), pos(0, 0));
    assert_eq!(path, vec![pos(0, 0)]);
    assert!(trace.get(pos(0, 0)).in_final_path);
}

#[test]
fn snake_corridor_forces_detour() {
    // a 3x3 grid whose only passages form the corridor
    // (0,0)-(0,1)-(0,2)-(1,2)-(2,2)-(2,1)-(2,0)
    let mut g = Grid::new(3, 3);
    g.carve(pos(0, 0), Direction::South);
    g.carve(pos(0, 1), Direction::South);
    g.carve(pos(0, 2), Direction::East);
    g.carve(pos(1, 2), Direction::East);
    g.carve(pos(2, 2), Direction::North);
    g.carve(pos(2, 1), Direction::North);
    let (path, trace) = find_path(&g, pos(0, 0), pos(2, 0));
    assert_eq!(path.len(), 7);
    assert_eq!(path[0], pos(0, 0));
    assert_eq!(path[6], pos(2, 0));
    for i in 0..path.len() - 1 {
        assert!(connected(&g, path[i], path[i + 1]));
    }
    // the heuristic would estimate 2, but the true cost is 6
    assert_eq!(trace.get(pos(0, 0)).h_score, Some(2));
    assert_eq!(trace.get(pos(2, 0)).g_score, Some(6));
}

#[test]
fn repeated_search_is_stable() {
    let g = open_grid(5, 4);
    let (p1, _) = find_path(&g, pos(0, 0), pos(4, 3));
    let (p2, _) = find_path(&g, pos(0, 0), pos(4, 3));
    assert_eq!(p1.len(), p2.len());
    assert_eq!(p1, p2);
}

#[test]
fn unreachable_cell_beyond_partial_corridor() {
    let mut g = Grid::new(3, 1);
    g.carve(pos(0, 0), Direction::East);
    let (path, trace) = find_path(&g, pos(0, 0), pos(2, 0));
    assert!(path.is_empty());
    // the reachable part was explored and finalized
    assert!(trace.get(pos(0, 0)).in_closed_set);
    assert!(trace.get(pos(1, 0)).in_closed_set);
    assert_eq!(trace.get(pos(1, 0)).g_score, Some(1));
    assert_eq!(trace.get(pos(2, 0)).g_score, None);
}

#[test]
fn goal_entry_stays_in_open_set() {
    // the goal is taken from the frontier and the search returns at once,
    // so its entry keeps the frontier flag and is never finalized
    let g = open_grid(3, 3);
    let (_, trace) = find_path(&g, pos(0, 0), pos(2, 2));
    let goal_info = trace.get(pos(2, 2));
    assert!(goal_info.in_open_set);
    assert!(!goal_info.in_closed_set);
    assert!(goal_info.in_final_path);
    assert_eq!(goal_info.g_score, Some(4));
    assert_eq!(goal_info.h_score, Some(0));
    assert_eq!(goal_info.f_score, Some(4));
}

#[test]
fn final_path_cells_were_in_frontier() {
    let g = open_grid(4, 3);
    let (path, trace) = find_path(&g, pos(0, 0), pos(3, 2));
    let mut marked: usize = 0;
    for y in 0..3 {
        for x in 0..4 {
            let info = trace.get(pos(x, y));
            if info.in_final_path {
                marked += 1;
                assert!(info.in_open_set || info.in_closed_set);
                assert!(path.contains(&pos(x, y)));
            }
        }
    }
    assert_eq!(marked, path.len());
}

#[test]
fn recorded_scores_are_consistent() {
    let g = open_grid(4, 4);
    let (_, trace) = find_path(&g, pos(1, 1), pos(3, 2));
    for y in 0..4 {
        for x in 0..4 {
            let info = trace.get(pos(x, y));
            match (info.g_score, info.h_score, info.f_score) {
                (Some(gv), Some(hv), Some(fv)) => {
                    assert_eq!(fv, gv + hv);
                    assert!(info.in_open_set || info.in_closed_set);
                }
                (None, None, None) => {
                    assert!(!info.in_open_set && !info.in_closed_set);
                }
                other => panic!("mixed score entry: {:?}", other),
            }
        }
    }
}
