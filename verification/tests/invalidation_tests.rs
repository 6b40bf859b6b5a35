use tower_defense::enemy::EnemyType;
use tower_defense::grid::Grid;
use tower_defense::grid_pos::GridPos;
use tower_defense::movement::EnemyPath;
use tower_defense::path_finding::{
    build_tower_costs, check_for_broken_paths, find_path, partition_events, PathChangedEvent,
};
use tower_defense::tower::{place_tower, Tower, TowerType};
use tower_defense::Orientation;

fn route(cells: &[(isize, isize)]) -> Option<EnemyPath> {
    Some(EnemyPath::new(
        cells.iter().map(|&(r, c)| GridPos::new(r, c)).collect(),
    ))
}

#[test]
fn partition_splits_freed_and_blocked() {
    let events = vec![
        PathChangedEvent::now_blocked(vec![GridPos::new(1, 1), GridPos::new(1, 2)]),
        PathChangedEvent::now_free(vec![GridPos::new(9, 9)]),
        PathChangedEvent::now_blocked(vec![GridPos::new(2, 2)]),
    ];
    let (freed, blocked) = partition_events(&events);
    assert_eq!(freed, vec![GridPos::new(9, 9)]);
    assert_eq!(
        blocked,
        vec![GridPos::new(1, 1), GridPos::new(1, 2), GridPos::new(2, 2)]
    );
}

#[test]
fn freed_cell_clears_every_route() {
    // A freed cell may shorten anyone's path, so all routes go, even ones
    // that never touch the freed cell.
    let mut routes = vec![
        route(&[(5, 5), (5, 4), (5, 3)]),
        route(&[(20, 20), (20, 19)]),
    ];
    let events = vec![PathChangedEvent::now_free(vec![GridPos::new(0, 0)])];
    check_for_broken_paths(&mut routes, &events);
    assert!(routes[0].is_none());
    assert!(routes[1].is_none());
}

#[test]
fn blocked_cell_clears_only_crossing_routes() {
    // A: untouched route survives. B: route crossing the blocked cell is
    // cleared. C: route whose immediate next step is the blocked cell is
    // kept (the entity engages the tower instead).
    let blocked_cell = GridPos::new(5, 4);
    let mut routes = vec![
        route(&[(9, 9), (9, 8), (9, 7)]),
        route(&[(5, 5), (5, 4), (5, 3)]),
        route(&[(5, 5), (5, 4)]),
    ];
    let events = vec![PathChangedEvent::now_blocked(vec![blocked_cell])];
    check_for_broken_paths(&mut routes, &events);
    assert!(routes[0].is_some(), "untouched route must survive");
    assert!(routes[1].is_none(), "crossed route must be cleared");
    assert!(routes[2].is_some(), "route committed to the cell is kept");
    assert_eq!(
        routes[2].as_ref().unwrap().steps,
        vec![GridPos::new(5, 5), GridPos::new(5, 4)]
    );
}

#[test]
fn blocked_cells_leave_empty_and_absent_routes_alone() {
    let mut routes = vec![Some(EnemyPath::new(Vec::new())), None];
    let events = vec![PathChangedEvent::now_blocked(vec![GridPos::new(1, 1)])];
    check_for_broken_paths(&mut routes, &events);
    assert!(routes[0].is_some());
    assert!(routes[0].as_ref().unwrap().steps.is_empty());
    assert!(routes[1].is_none());
}

#[test]
fn mixed_events_act_like_freed() {
    // When both polarities arrive in one tick, the freed cells force the
    // global clear.
    let mut routes = vec![route(&[(9, 9), (9, 8)]), route(&[(1, 1), (1, 2)])];
    let events = vec![
        PathChangedEvent::now_blocked(vec![GridPos::new(30, 30)]),
        PathChangedEvent::now_free(vec![GridPos::new(2, 2)]),
    ];
    check_for_broken_paths(&mut routes, &events);
    assert!(routes[0].is_none());
    assert!(routes[1].is_none());
}

#[test]
fn destroying_a_tower_triggers_global_replan() {
    let mut grid = Grid::new();
    let wall = Tower::new(TowerType::Wall, Orientation::Up);
    // Three walls block row 1 for columns 0..=11 with very strong towers.
    let mut events = Vec::new();
    for (k, col) in [(0u64, 0isize), (1, 4), (2, 8)] {
        events.push(place_tower(&mut grid, &wall, &GridPos::new(1, col), k).unwrap());
    }
    let healths: Vec<(u64, isize)> = vec![(0, 10000), (1, 10000), (2, 10000)];
    let costs = build_tower_costs(&grid, &healths, &EnemyType::Skeleton);
    let start = GridPos::new(0, 0);
    let goals = vec![GridPos::new(2, 0)];
    let long = find_path(start, &goals, &costs, 12).unwrap();
    assert!(long.len() > 20);

    // A tower is destroyed: its cells are freed, and the event clears every
    // route — even one that never crossed the freed cells.
    let mut routes = vec![
        Some(EnemyPath::new(long)),
        route(&[(30, 30), (30, 29)]),
    ];
    let freed = wall.clear_grid(&mut grid, 0);
    let ev = PathChangedEvent::now_free(freed);
    check_for_broken_paths(&mut routes, &vec![ev]);
    assert!(routes[0].is_none());
    assert!(routes[1].is_none());

    // Re-planning on the updated grid finds the short way through the gap.
    let costs = build_tower_costs(&grid, &healths, &EnemyType::Skeleton);
    let short = find_path(start, &goals, &costs, 12).unwrap();
    assert_eq!(short.len(), 2);
}

#[test]
fn no_events_change_nothing() {
    let mut routes = vec![route(&[(9, 9), (9, 8)]), None];
    let events: Vec<PathChangedEvent> = Vec::new();
    check_for_broken_paths(&mut routes, &events);
    assert!(routes[0].is_some());
    assert!(routes[1].is_none());
}
