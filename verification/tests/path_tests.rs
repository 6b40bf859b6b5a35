use tower_defense::grid::EntityId;
use tower_defense::grid_pos::GridPos;
use tower_defense::path_finding::{find_path, step_cost, PathChangedEvent};
use tower_defense::N_CELLS;

fn empty_costs() -> Vec<Option<(EntityId, u64)>> {
    vec![None; N_CELLS]
}

fn cell(row: isize, col: isize) -> usize {
    (row as usize) * 70 + (col as usize)
}

fn assert_route_is_valid(start: GridPos, goals: &[GridPos], route: &[GridPos]) {
    if route.is_empty() {
        assert!(goals.contains(&start));
        return;
    }
    assert!(goals.contains(&route[0]));
    assert_eq!(start.distance_to(route.last().unwrap()), 1);
    for w in route.windows(2) {
        assert_eq!(w[1].distance_to(&w[0]), 1);
    }
    for i in 0..route.len() {
        for j in (i + 1)..route.len() {
            assert_ne!(route[i], route[j]);
        }
    }
}

#[test]
fn empty_grid_path_has_manhattan_length() {
    // On a grid without towers the returned path is as long as the
    // Manhattan distance to the goal.
    let towers = empty_costs();
    let start = GridPos::new(0, 0);
    let goals = vec![GridPos::new(2, 2)];
    let route = find_path(start, &goals, &towers, 12).unwrap();
    assert_eq!(route.len(), 4);
    assert_route_is_valid(start, &goals, &route);
}

#[test]
fn start_on_goal_returns_empty_route() {
    let towers = empty_costs();
    let start = GridPos::new(3, 3);
    let goals = vec![GridPos::new(3, 3)];
    let route = find_path(start, &goals, &towers, 12).unwrap();
    assert!(route.is_empty());
}

#[test]
fn path_reaches_nearest_of_several_goals() {
    let towers = empty_costs();
    let start = GridPos::new(10, 10);
    let goals = vec![GridPos::new(30, 60), GridPos::new(12, 11)];
    let route = find_path(start, &goals, &towers, 12).unwrap();
    assert_eq!(route[0], GridPos::new(12, 11));
    assert_eq!(route.len(), 3);
    assert_route_is_valid(start, &goals, &route);
}

#[test]
fn weak_wall_is_fought_through() {
    // A wall of weak towers across row 1, columns 0..=9. Fighting through
    // one cell costs 20, detouring around the wall costs 22 steps of 12.
    let mut towers = empty_costs();
    for c in 0..10 {
        towers[cell(1, c)] = Some((100 + c as u64, 20));
    }
    let start = GridPos::new(0, 0);
    let goals = vec![GridPos::new(2, 0)];
    let route = find_path(start, &goals, &towers, 12).unwrap();
    assert_eq!(route.len(), 2);
    assert_eq!(route, vec![GridPos::new(2, 0), GridPos::new(1, 0)]);
}

#[test]
fn strong_wall_is_detoured_around() {
    // The same wall with a prohibitive fight cost: the path walks around
    // its end instead of through it.
    let mut towers = empty_costs();
    for c in 0..10 {
        towers[cell(1, c)] = Some((100 + c as u64, 2500));
    }
    let start = GridPos::new(0, 0);
    let goals = vec![GridPos::new(2, 0)];
    let route = find_path(start, &goals, &towers, 12).unwrap();
    assert_eq!(route.len(), 22);
    assert!(route.iter().all(|p| !(p.row == 1 && p.col <= 9)));
    assert_route_is_valid(start, &goals, &route);
}

#[test]
fn continuing_same_tower_charges_default() {
    // Stepping deeper into the tower one is already fighting costs the
    // default travel cost, not the fight cost again.
    assert_eq!(step_cost(Some(7), Some((7, 999)), 12), 12);
    assert_eq!(step_cost(None, Some((7, 999)), 12), 999);
    assert_eq!(step_cost(Some(3), Some((7, 999)), 12), 999);
    assert_eq!(step_cost(Some(7), None, 12), 12);
}

#[test]
fn path_prefers_column_of_already_engaged_tower() {
    // Rows 1 and 2 are fully walled. In column 0 both cells belong to one
    // tower, so crossing them costs fight + default; everywhere else the
    // two cells are distinct towers and cost fight twice.
    let mut towers = empty_costs();
    for c in 0..70 {
        if c == 0 {
            towers[cell(1, c)] = Some((500, 100));
            towers[cell(2, c)] = Some((500, 100));
        } else {
            towers[cell(1, c)] = Some((1000 + c as u64, 100));
            towers[cell(2, c)] = Some((2000 + c as u64, 100));
        }
    }
    let start = GridPos::new(0, 0);
    let goals = vec![GridPos::new(3, 0)];
    let route = find_path(start, &goals, &towers, 12).unwrap();
    assert_eq!(
        route,
        vec![GridPos::new(3, 0), GridPos::new(2, 0), GridPos::new(1, 0)]
    );
}

#[test]
fn freeing_a_wall_cell_shortens_the_path() {
    // With the wall complete the path is a long detour; freeing one wall
    // cell opens the short way through.
    let mut towers = empty_costs();
    for c in 0..10 {
        towers[cell(1, c)] = Some((100 + c as u64, 2500));
    }
    let start = GridPos::new(0, 0);
    let goals = vec![GridPos::new(2, 0)];
    let long = find_path(start, &goals, &towers, 12).unwrap();
    assert_eq!(long.len(), 22);
    towers[cell(1, 0)] = None;
    let short = find_path(start, &goals, &towers, 12).unwrap();
    assert_eq!(short.len(), 2);
}

#[test]
fn events_carry_their_cells_and_polarity() {
    let ev = PathChangedEvent::now_blocked(vec![GridPos::new(1, 2)]);
    assert!(!ev.now_free);
    assert_eq!(ev.changed, vec![GridPos::new(1, 2)]);
    let ev = PathChangedEvent::now_free(vec![GridPos::new(3, 4), GridPos::new(5, 6)]);
    assert!(ev.now_free);
    assert_eq!(ev.changed.len(), 2);
}

#[test]
fn route_stops_at_the_first_goal_reached() {
    // Two goals on one line: the route ends at the nearer one and never
    // crosses another goal cell on the way.
    let towers = empty_costs();
    let start = GridPos::new(0, 0);
    let goals = vec![GridPos::new(0, 4), GridPos::new(0, 2)];
    let route = find_path(start, &goals, &towers, 12).unwrap();
    assert_eq!(route[0], GridPos::new(0, 2));
    assert_eq!(route.len(), 2);
    for p in route.iter().skip(1) {
        assert!(!goals.contains(p));
    }
}
