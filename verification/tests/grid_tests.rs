use tower_defense::grid::Grid;
use tower_defense::grid_pos::GridPos;
use tower_defense::tower::{apply_offset, place_tower, Tower, TowerType};
use tower_defense::Orientation;

#[test]
fn new_grid_is_entirely_free() {
    let grid = Grid::new();
    assert!(grid.is_free(&GridPos::new(0, 0)));
    assert!(grid.is_free(&GridPos::new(39, 69)));
    assert_eq!(grid.get_tower(&GridPos::new(5, 5)), None);
    assert_eq!(grid.get_goal(&GridPos::new(5, 5)), None);
    assert_eq!(grid.get_spawner(&GridPos::new(5, 5)), None);
    assert_eq!(grid.get_deaths(&GridPos::new(5, 5)), 0);
    assert!(grid.blocked_tiles().is_empty());
}

#[test]
fn place_tower_blocks_footprint_and_reports_cells() {
    let mut grid = Grid::new();
    let tower = Tower::new(TowerType::Wall, Orientation::Up);
    // A Wall is 4 columns x 1 row when upright.
    let ev = place_tower(&mut grid, &tower, &GridPos::new(5, 5), 1).unwrap();
    assert!(!ev.now_free);
    assert_eq!(ev.changed.len(), 4);
    for c in 0..4 {
        let pos = GridPos::new(5, 5 + c);
        assert!(ev.changed.contains(&pos));
        assert_eq!(grid.get_tower(&pos), Some(1));
        assert!(!grid.is_free(&pos));
    }
    assert_eq!(grid.get_tower(&GridPos::new(6, 5)), None);
    assert_eq!(grid.get_origin(1), Some(GridPos::new(5, 5)));
    let blocked = grid.blocked_tiles();
    assert_eq!(blocked.len(), 4);
}

#[test]
fn place_tower_rejects_occupied_and_out_of_bounds() {
    let mut grid = Grid::new();
    let tower = Tower::new(TowerType::Wall, Orientation::Up);
    assert!(place_tower(&mut grid, &tower, &GridPos::new(5, 5), 1).is_some());
    // Overlapping footprint is refused and leaves the grid unchanged.
    assert!(place_tower(&mut grid, &tower, &GridPos::new(5, 7), 2).is_none());
    assert_eq!(grid.get_origin(2), None);
    // Footprint sticking out of the field is refused.
    assert!(place_tower(&mut grid, &tower, &GridPos::new(0, 67), 3).is_none());
    // Origin off the field is refused.
    assert!(place_tower(&mut grid, &tower, &GridPos::new(-1, 0), 4).is_none());
}

#[test]
fn rotated_tower_swaps_footprint() {
    let mut grid = Grid::new();
    let tower = Tower::new(TowerType::Wall, Orientation::Left);
    assert_eq!(tower.size(), (1, 4));
    let ev = place_tower(&mut grid, &tower, &GridPos::new(10, 10), 7).unwrap();
    assert_eq!(ev.changed.len(), 4);
    for r in 0..4 {
        assert_eq!(grid.get_tower(&GridPos::new(10 + r, 10)), Some(7));
    }
    assert_eq!(grid.get_tower(&GridPos::new(10, 11)), None);
}

#[test]
fn place_then_remove_restores_grid() {
    // Round trip: placing a tower and removing it leaks no entries.
    let mut grid = Grid::new();
    let bystander = Tower::new(TowerType::Canon, Orientation::Up);
    place_tower(&mut grid, &bystander, &GridPos::new(20, 20), 9).unwrap();

    let tower = Tower::new(TowerType::Wall, Orientation::Up);
    let ev = place_tower(&mut grid, &tower, &GridPos::new(5, 5), 1).unwrap();
    assert_eq!(ev.changed.len(), 4);

    let freed = tower.clear_grid(&mut grid, 1);
    assert_eq!(freed.len(), 4);
    for c in 0..4 {
        let pos = GridPos::new(5, 5 + c);
        assert!(freed.contains(&pos));
        assert_eq!(grid.get_tower(&pos), None);
        assert!(grid.is_free(&pos));
    }
    assert_eq!(grid.get_origin(1), None);
    // The bystander tower is untouched.
    assert_eq!(grid.get_origin(9), Some(GridPos::new(20, 20)));
    assert_eq!(grid.blocked_tiles().len(), 9);
    // Removing an unknown tower frees nothing.
    assert!(tower.clear_grid(&mut grid, 42).is_empty());
}

#[test]
fn record_death_counts_and_reports() {
    let mut grid = Grid::new();
    let cell = GridPos::new(3, 3);
    // The first death only starts the count; later deaths report the cell.
    assert!(!grid.record_death(&cell));
    assert!(grid.record_death(&cell));
    assert!(grid.record_death(&cell));
    assert_eq!(grid.get_deaths(&cell), 3);
    assert_eq!(grid.get_deaths(&GridPos::new(3, 4)), 0);
}

#[test]
fn apply_offset_shifts_anchor_by_rotation() {
    let cursor = GridPos::new(10, 10);
    // Wall: size (4, 1), offset (1, 0).
    assert_eq!(
        apply_offset(cursor, TowerType::Wall, Orientation::Up),
        GridPos::new(10, 9)
    );
    assert_eq!(
        apply_offset(cursor, TowerType::Wall, Orientation::Down),
        GridPos::new(10, 8)
    );
    assert_eq!(
        apply_offset(cursor, TowerType::Wall, Orientation::Left),
        GridPos::new(9, 10)
    );
    assert_eq!(
        apply_offset(cursor, TowerType::Wall, Orientation::Right),
        GridPos::new(8, 10)
    );
    // Canon: size (3, 3), offset (1, 1): symmetric.
    assert_eq!(
        apply_offset(cursor, TowerType::Canon, Orientation::Up),
        GridPos::new(9, 9)
    );
    assert_eq!(
        apply_offset(cursor, TowerType::Canon, Orientation::Down),
        GridPos::new(9, 9)
    );
}

#[test]
fn tower_stats() {
    assert_eq!(TowerType::Wall.size(), (4, 1));
    assert_eq!(TowerType::SpikedWall.size(), (4, 1));
    assert_eq!(TowerType::Canon.size(), (3, 3));
    assert_eq!(TowerType::Wall.max_hp(), 100);
    assert_eq!(TowerType::SpikedWall.max_hp(), 100);
    assert_eq!(TowerType::Canon.max_hp(), 80);
    assert_eq!(TowerType::Wall.offset(), (1, 0));
    assert_eq!(TowerType::Canon.offset(), (1, 1));
}
