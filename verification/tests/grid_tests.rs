use maze_search::grid::{Direction, Grid, Position};
use maze_search::search::heuristic;

fn pos(x: usize, y: usize) -> Position {
    Position { x, y }
}

#[test]
fn new_grid_has_all_walls() {
    let g = Grid::new(2, 3);
    assert_eq!(g.width(), 2);
    assert_eq!(g.height(), 3);
    for y in 0..3 {
        for x in 0..2 {
            assert!(!g.is_open(pos(x, y), Direction::North));
            assert!(!g.is_open(pos(x, y), Direction::South));
            assert!(!g.is_open(pos(x, y), Direction::East));
            assert!(!g.is_open(pos(x, y), Direction::West));
        }
    }
}

#[test]
fn carving_opens_both_sides() {
    let mut g = Grid::new(3, 3);
    g.carve(pos(1, 1), Direction::East);
    assert!(g.is_open(pos(1, 1), Direction::East));
    assert!(g.is_open(pos(2, 1), Direction::West));
    g.carve(pos(1, 1), Direction::North);
    assert!(g.is_open(pos(1, 1), Direction::North));
    assert!(g.is_open(pos(1, 0), Direction::South));
    // untouched walls stay closed
    assert!(!g.is_open(pos(1, 1), Direction::South));
    assert!(!g.is_open(pos(1, 1), Direction::West));
}

#[test]
fn boundary_queries_answer_false() {
    let mut g = Grid::new(2, 2);
    // carving over the boundary or outside the grid is a no-op
    g.carve(pos(0, 0), Direction::North);
    g.carve(pos(1, 1), Direction::East);
    g.carve(pos(5, 5), Direction::South);
    for y in 0..2 {
        for x in 0..2 {
            assert!(!g.is_open(pos(x, y), Direction::North));
            assert!(!g.is_open(pos(x, y), Direction::South));
            assert!(!g.is_open(pos(x, y), Direction::East));
            assert!(!g.is_open(pos(x, y), Direction::West));
        }
    }
    // queries outside the grid fail silently to false
    assert!(!g.is_open(pos(7, 0), Direction::West));
    assert!(!g.is_open(pos(0, 9), Direction::North));
    assert!(g.contains(pos(1, 1)));
    assert!(!g.contains(pos(2, 0)));
}

#[test]
fn heuristic_is_manhattan_distance() {
    assert_eq!(heuristic(pos(0, 0), pos(2, 2)), 4);
    assert_eq!(heuristic(pos(2, 2), pos(0, 0)), 4);
    assert_eq!(heuristic(pos(3, 1), pos(1, 4)), 5);
    assert_eq!(heuristic(pos(2, 2), pos(2, 2)), 0);
}
