use tower_defense::enemy::{
    add_unbuildable_surroundings, register_goal, register_spawner, spawner_site_ok, Enemy,
    EnemyGoal, EnemyType,
};
use tower_defense::grid::{EntityId, Grid};
use tower_defense::grid_pos::GridPos;
use tower_defense::health::Health;
use tower_defense::movement::{advance, orientation_towards, EnemyPath, StepOutcome};
use tower_defense::path_finding::{build_tower_costs, hp_of, pos_of_index};
use tower_defense::tile::Tile;
use tower_defense::tower::{place_tower, Tower, TowerType};
use tower_defense::{Orientation, N_CELLS};

#[test]
fn grid_pos_distance_is_manhattan() {
    let a = GridPos::new(0, 0);
    let b = GridPos::new(2, 2);
    assert_eq!(a.distance_to(&b), 4);
    assert_eq!(b.distance_to(&a), 4);
    assert_eq!(a.distance_to(&a), 0);
    assert_eq!(GridPos::new(-3, 5).distance_to(&GridPos::new(2, -1)), 11);
}

#[test]
fn grid_pos_bounds() {
    assert!(GridPos::new(0, 0).inside_grid_bounds());
    assert!(GridPos::new(39, 69).inside_grid_bounds());
    assert!(!GridPos::new(40, 0).inside_grid_bounds());
    assert!(!GridPos::new(0, 70).inside_grid_bounds());
    assert!(!GridPos::new(-1, 0).inside_grid_bounds());
}

#[test]
fn closest_goal_and_distance() {
    let goals = vec![GridPos::new(10, 10), GridPos::new(3, 3), GridPos::new(30, 60)];
    let p = GridPos::new(0, 0);
    assert_eq!(p.closest(&goals), GridPos::new(3, 3));
    assert_eq!(p.distance_to_closest(&goals), 6);
}

#[test]
fn random_positions_stay_in_the_interior() {
    let mut rng = fastrand::Rng::with_seed(12345);
    for _ in 0..200 {
        let p = GridPos::random(&mut rng);
        assert!(p.row >= 0 && p.row < 39);
        assert!(p.col >= 0 && p.col < 69);
    }
}

#[test]
fn tile_distance_and_neighbors() {
    let t = Tile::new(5, 5);
    assert_eq!(t.distance_to(&Tile::new(7, 8)), 5);
    let walkable = vec![Tile::new(6, 5), Tile::new(5, 6), Tile::new(9, 9)];
    let n = t.neighbors(&walkable);
    assert_eq!(n.len(), 2);
    assert!(n.contains(&Tile::new(6, 5)));
    assert!(n.contains(&Tile::new(5, 6)));
}

#[test]
fn grid_pos_neighbors_with_occupants() {
    let mut towers: Vec<Option<(EntityId, u64)>> = vec![None; N_CELLS];
    towers[1 * 70 + 0] = Some((8, 77));
    let corner = GridPos::new(0, 0);
    let n = corner.neighbors(&towers, 12);
    assert_eq!(n.len(), 2);
    assert!(n.contains(&(GridPos::new(1, 0), Some(8), 77)));
    assert!(n.contains(&(GridPos::new(0, 1), None, 12)));
    let middle = GridPos::new(10, 10).neighbors(&towers, 12);
    assert_eq!(middle.len(), 4);
}

#[test]
fn enemy_cost_model_values() {
    let e = EnemyType::Skeleton;
    assert_eq!(e.velocity(), 150);
    assert_eq!(e.default_travel_cost(), 12);
    assert_eq!(e.damage(), 8);
    assert_eq!(e.attack_cooldown_ms(), 1000);
    assert_eq!(e.max_hp(), 25);
    // hp * cooldown / damage, truncated, then scaled by 20 — and never
    // below the cost of one empty tile.
    assert_eq!(e.travel_cost(100), 240);
    assert_eq!(e.travel_cost(10), 20);
    assert_eq!(e.travel_cost(8), 20);
    assert_eq!(e.travel_cost(7), 12);
    assert_eq!(e.travel_cost(1), 12);
    assert_eq!(e.travel_cost(0), 12);
    assert_eq!(e.travel_cost(-5), 12);
    assert_eq!(e.travel_cost_clamped(100), 240);
    assert_eq!(e.travel_cost_clamped(7), 12);
}

#[test]
fn fight_cost_never_undercuts_the_travel_unit() {
    // Per-step costs never fall below the cost of an empty tile, keeping
    // the distance heuristic admissible even for nearly dead towers.
    let e = EnemyType::Skeleton;
    for hp in [-10, 0, 1, 2, 7, 8, 25, 100, 10000] {
        assert!(e.travel_cost(hp) >= e.default_travel_cost());
        assert!(e.travel_cost_clamped(hp) >= e.default_travel_cost());
    }
}

#[test]
fn orientation_rules() {
    let from = GridPos::new(5, 5);
    assert_eq!(orientation_towards(&from, &GridPos::new(6, 5)), Orientation::Up);
    assert_eq!(orientation_towards(&from, &GridPos::new(4, 5)), Orientation::Down);
    assert_eq!(orientation_towards(&from, &GridPos::new(5, 6)), Orientation::Right);
    assert_eq!(orientation_towards(&from, &GridPos::new(5, 4)), Orientation::Left);
    assert!(Orientation::Left.is_horizontal());
    assert!(!Orientation::Up.is_horizontal());
    assert_eq!(Orientation::default(), Orientation::Up);
}

#[test]
fn advance_walks_and_hands_off_to_combat() {
    let mut grid = Grid::new();
    let tower = Tower::new(TowerType::Wall, Orientation::Up);
    place_tower(&mut grid, &tower, &GridPos::new(2, 0), 77).unwrap();
    register_goal(&mut grid, &GridPos::new(10, 10), 88);

    // Walking onto a free cell advances the logical position.
    let mut enemy = Enemy::new(GridPos::new(0, 0), EnemyType::Skeleton);
    let mut path = EnemyPath::new(vec![GridPos::new(2, 0), GridPos::new(1, 0)]);
    let out = advance(&mut path, &mut enemy, &grid);
    assert_eq!(out, StepOutcome::Walk(GridPos::new(1, 0)));
    assert_eq!(enemy.current, GridPos::new(1, 0));
    assert_eq!(enemy.orientation, Orientation::Up);
    assert_eq!(path.steps, vec![GridPos::new(2, 0)]);

    // The next step lands on a tower: hand over to combat, stay in place.
    let out = advance(&mut path, &mut enemy, &grid);
    assert_eq!(out, StepOutcome::AttackTower(77));
    assert_eq!(enemy.current, GridPos::new(1, 0));
    assert!(path.steps.is_empty());

    // A goal cell hands over to goal combat.
    let mut enemy2 = Enemy::new(GridPos::new(10, 9), EnemyType::Skeleton);
    let mut path2 = EnemyPath::new(vec![GridPos::new(10, 10)]);
    let out = advance(&mut path2, &mut enemy2, &grid);
    assert_eq!(out, StepOutcome::AttackGoal(88));
    assert_eq!(enemy2.current, GridPos::new(10, 9));
}

#[test]
fn goal_registration_reserves_surroundings() {
    let mut grid = Grid::new();
    register_goal(&mut grid, &GridPos::new(10, 10), 5);
    for (r, c) in [(10, 10), (11, 10), (10, 11), (11, 11)] {
        assert_eq!(grid.get_goal(&GridPos::new(r, c)), Some(5));
        assert!(!grid.is_free(&GridPos::new(r, c)));
    }
    // The ring around the block is reserved but carries no occupant.
    for (r, c) in [(9, 9), (9, 10), (9, 11), (9, 12), (12, 12), (10, 9), (11, 12), (12, 10)] {
        let p = GridPos::new(r, c);
        assert!(grid.is_unbuildable(&p));
        assert!(grid.get_goal(&p).is_none());
        assert!(!grid.is_free(&p));
    }
    assert!(grid.is_free(&GridPos::new(8, 8)));
    let cells = grid.goal_cells();
    assert_eq!(cells.len(), 4);
}

#[test]
fn spawner_registration_and_site_rule() {
    let mut grid = Grid::new();
    register_goal(&mut grid, &GridPos::new(20, 60), 1);
    let goals = grid.goal_cells();
    // Too close to the goal.
    assert!(!spawner_site_ok(&grid, &GridPos::new(20, 40), &goals));
    // Far enough and free.
    assert!(spawner_site_ok(&grid, &GridPos::new(5, 5), &goals));
    register_spawner(&mut grid, &GridPos::new(5, 5), 2);
    assert_eq!(grid.get_spawner(&GridPos::new(6, 6)), Some(2));
    // The occupied block now fails the site rule for an overlapping spot.
    assert!(!spawner_site_ok(&grid, &GridPos::new(5, 4), &goals));
}

#[test]
fn unbuildable_ring_blocks_towers_but_not_paths() {
    let mut grid = Grid::new();
    add_unbuildable_surroundings(&mut grid, &GridPos::new(10, 10));
    let tower = Tower::new(TowerType::Wall, Orientation::Up);
    // The footprint (9, 9..=12) crosses the reserved ring: refused.
    assert!(place_tower(&mut grid, &tower, &GridPos::new(9, 9), 3).is_none());
    // Reserved cells carry no occupant, so pathing treats them as plain
    // terrain: the cost grid records nothing for them.
    let costs = build_tower_costs(&grid, &Vec::new(), &EnemyType::Skeleton);
    assert!(costs.iter().all(|c| c.is_none()));
}

#[test]
fn health_and_lookup() {
    let mut h = Health::new(100);
    assert_eq!(h.current, 100);
    h.apply_damage(30);
    assert_eq!(h.current, 70);
    assert_eq!(h.max, 100);
    let healths = vec![(7u64, 70isize), (9u64, 55isize)];
    assert_eq!(hp_of(&healths, 7), Some(70));
    assert_eq!(hp_of(&healths, 9), Some(55));
    assert_eq!(hp_of(&healths, 8), None);
}

#[test]
fn cost_grid_joins_towers_with_health() {
    let mut grid = Grid::new();
    let tower = Tower::new(TowerType::Wall, Orientation::Up);
    place_tower(&mut grid, &tower, &GridPos::new(5, 5), 7).unwrap();
    place_tower(&mut grid, &tower, &GridPos::new(8, 5), 9).unwrap();
    // Entity 9 has no health reading: its cells count as plain terrain.
    let healths = vec![(7u64, 100isize)];
    let costs = build_tower_costs(&grid, &healths, &EnemyType::Skeleton);
    assert_eq!(costs[5 * 70 + 5], Some((7, 240)));
    assert_eq!(costs[5 * 70 + 6], Some((7, 240)));
    assert_eq!(costs[8 * 70 + 5], None);
    assert_eq!(costs[0], None);
}

#[test]
fn enemy_goal_stats() {
    let g = EnemyGoal::Heart;
    assert_eq!(g.max_hp(), 200);
    assert_eq!(g.thorn_damage(), 10);
    let tiles = g.other_tiles(&GridPos::new(4, 4));
    assert_eq!(
        tiles,
        vec![GridPos::new(5, 4), GridPos::new(4, 5), GridPos::new(5, 5)]
    );
}

#[test]
fn cell_indexing_round_trips() {
    for i in [0usize, 1, 69, 70, 2799] {
        let p = pos_of_index(i);
        assert!(p.inside_grid_bounds());
        assert_eq!((p.row as usize) * 70 + (p.col as usize), i);
    }
}

#[test]
fn shifted_displaces_by_rows_and_columns() {
    let p = GridPos::new(10, 10);
    assert_eq!(p.shifted(1, 0), GridPos::new(11, 10));
    assert_eq!(p.shifted(0, -1), GridPos::new(10, 9));
    assert_eq!(p.shifted(-2, 3), GridPos::new(8, 13));
}
