//! Enemies and their cost model: how expensive it is for an enemy to cross
//! an empty cell or to fight through a tower standing in its way.

use vstd::prelude::*;

use crate::grid::{EntityId, Grid};
use crate::grid_pos::GridPos;
use crate::{Orientation, ROWS, COLUMNS, TILE_SIZE};

verus! {

/// Scale relating fight-through time to travel cost, so that the time spent
/// destroying a tower is commensurate with geometric distance. A tunable
/// parameter, not a derived quantity.
pub const FIGHT_COST_SCALE: u64 = 20;

/// The kinds of enemy that spawn.
#[derive(Clone, Copy, PartialEq, Eq, Structural, Debug)]
pub enum EnemyType {
    Skeleton,
}

impl EnemyType {
    /// Hit points a freshly spawned enemy of this kind has.
    pub fn max_hp(&self) -> (r: isize)
        ensures
            r == 25isize,
    {
        match self {
            EnemyType::Skeleton => 25,
        }
    }

    /// Damage dealt per attack.
    pub open spec fn spec_damage(self) -> isize {
        match self {
            EnemyType::Skeleton => 8isize,
        }
    }

    pub fn damage(&self) -> (r: isize)
        ensures
            r == self.spec_damage(),
    {
        match self {
            EnemyType::Skeleton => 8,
        }
    }

    /// Cooldown between attacks, in milliseconds.
    pub open spec fn spec_attack_cooldown_ms(self) -> u64 {
        match self {
            EnemyType::Skeleton => 1000u64,
        }
    }

    pub fn attack_cooldown_ms(&self) -> (r: u64)
        ensures
            r == self.spec_attack_cooldown_ms(),
    {
        match self {
            EnemyType::Skeleton => 1000,
        }
    }

    /// Movement speed in world units per second.
    pub open spec fn spec_velocity(self) -> u64 {
        match self {
            EnemyType::Skeleton => 150u64,
        }
    }

    pub fn velocity(&self) -> (r: u64)
        ensures
            r == self.spec_velocity(),
    {
        match self {
            EnemyType::Skeleton => 150,
        }
    }

    /// Cost of crossing one empty tile: the time to cross it at this
    /// enemy's speed, in the search's cost units.
    pub open spec fn spec_default_travel_cost(self) -> int {
        self.spec_velocity() * 2 / (TILE_SIZE as int)
    }

    pub fn default_travel_cost(&self) -> (r: u64)
        ensures
            r == self.spec_default_travel_cost(),
    {
        self.velocity() * 2 / TILE_SIZE
    }

    /// Cost of fighting through a tower with `tower_hp` hit points: the time
    /// this enemy needs to destroy it (hit points over damage per attack,
    /// times the cooldown), scaled into travel-cost units — but never below
    /// the cost of crossing an empty tile, so that per-step costs never
    /// undercut the travel unit and the search's distance heuristic stays
    /// admissible.
    pub open spec fn spec_travel_cost(self, tower_hp: isize) -> int {
        let fight = if tower_hp <= 0 {
            0
        } else {
            (tower_hp * self.spec_attack_cooldown_ms() / (self.spec_damage() * 1000)) * (
            FIGHT_COST_SCALE as int)
        };
        if fight < self.spec_default_travel_cost() {
            self.spec_default_travel_cost()
        } else {
            fight
        }
    }

    /// Like `travel_cost`, but clamped from above into the range the search
    /// accepts.
    pub fn travel_cost_clamped(&self, tower_hp: isize) -> (r: u64)
        ensures
            r == crate::path_finding::clamp_cost(self.spec_travel_cost(tower_hp)),
            r >= self.spec_default_travel_cost(),
    {
        if tower_hp <= 0 {
            return self.default_travel_cost();
        }
        let hp: u128 = tower_hp as u128;
        let cd: u128 = self.attack_cooldown_ms() as u128;
        let dmg: u128 = self.damage() as u128;
        proof {
            assert(*self is Skeleton);
            assert(cd == 1000 && dmg == 8);
            assert(hp * cd <= 0x8000_0000_0000_0000u128 * 1000) by (nonlinear_arith)
                requires
                    cd == 1000,
                    hp <= 0x8000_0000_0000_0000u128,
                ;
            assert(hp * cd / (dmg * 1000) <= hp * cd) by (nonlinear_arith)
                requires
                    dmg == 8,
                    hp * cd >= 0,
                ;
        }
        let scaled: u128 = hp * cd / (dmg * 1000);
        proof {
            assert(scaled <= 9223372036854775808000u128);
            assert(scaled * (FIGHT_COST_SCALE as u128) <= 9223372036854775808000u128 * 20) by (
            nonlinear_arith)
                requires
                    scaled <= 9223372036854775808000u128,
                    FIGHT_COST_SCALE == 20,
                ;
        }
        let cost: u128 = scaled * (FIGHT_COST_SCALE as u128);
        let d = self.default_travel_cost();
        if cost < d as u128 {
            return d;
        }
        if cost > crate::path_finding::COST_CAP as u128 {
            crate::path_finding::COST_CAP
        } else {
            cost as u64
        }
    }

    pub fn travel_cost(&self, tower_hp: isize) -> (r: u64)
        requires
            self.spec_travel_cost(tower_hp) <= u64::MAX,
        ensures
            r == self.spec_travel_cost(tower_hp),
            r >= self.spec_default_travel_cost(),
    {
        if tower_hp <= 0 {
            return self.default_travel_cost();
        }
        let scaled: u128 = (tower_hp as u128) * (self.attack_cooldown_ms() as u128) / ((self.damage()
            as u128) * 1000);
        let fight: u64 = (scaled as u64) * FIGHT_COST_SCALE;
        let d = self.default_travel_cost();
        if fight < d {
            d
        } else {
            fight
        }
    }
}

/// A traveling enemy: its authoritative logical position, kind and facing.
pub struct Enemy {
    /// The cell the enemy last fully arrived at.
    pub current: GridPos,
    pub variant: EnemyType,
    pub orientation: Orientation,
}

impl Enemy {
    pub fn new(current: GridPos, variant: EnemyType) -> (r: Self)
        ensures
            r.current == current,
            r.variant == variant,
            r.orientation is Up,
    {
        Self { current, variant, orientation: Orientation::Up }
    }
}

/// The footprint of a goal or spawner: its anchor plus the three cells
/// completing a 2x2 block.
pub open spec fn block_covers(origin: GridPos, p: GridPos) -> bool {
    origin.row <= p.row <= origin.row + 1 && origin.col <= p.col <= origin.col + 1
}

/// The ring of cells reserved against building around a 2x2 block anchored
/// at `origin`.
pub open spec fn surrounds(origin: GridPos, p: GridPos) -> bool {
    let dr = p.row - origin.row;
    let dc = p.col - origin.col;
    ||| (dr == 0 && dc == -1)
    ||| (dr == 1 && dc == -1)
    ||| (dr == 0 && dc == 2)
    ||| (dr == 1 && dc == 2)
    ||| (dr == -1 && dc == -1)
    ||| (dr == -1 && dc == 0)
    ||| (dr == -1 && dc == 1)
    ||| (dr == -1 && dc == 2)
    ||| (dr == 2 && dc == -1)
    ||| (dr == 2 && dc == 0)
    ||| (dr == 2 && dc == 1)
    ||| (dr == 2 && dc == 2)
}

/// Reserve the in-bounds cell `origin + (dr, dc)` against building.
fn reserve_cell(grid: &mut Grid, origin: &GridPos, dr: isize, dc: isize)
    requires
        old(grid).unbuildable.len() == crate::N_CELLS,
        origin.spec_inside(),
        -1 <= dr <= 2,
        -1 <= dc <= 2,
    ensures
        final(grid).unbuildable.len() == crate::N_CELLS,
        forall|q: GridPos| #[trigger]
            final(grid).unbuildable_at(q) == (old(grid).unbuildable_at(q) || (q.spec_inside()
                && q.row == origin.row + dr && q.col == origin.col + dc)),
        final(grid).towers@ == old(grid).towers@,
        final(grid).tower_origins@ == old(grid).tower_origins@,
        final(grid).enemy_spawners@ == old(grid).enemy_spawners@,
        final(grid).enemy_goals@ == old(grid).enemy_goals@,
        final(grid).death_count@ == old(grid).death_count@,
{
    let p = GridPos { row: origin.row + dr, col: origin.col + dc };
    if p.inside_grid_bounds() {
        grid.set_unbuildable_cell(&p, true);
    }
}

/// Reserve the twelve cells ringing the 2x2 block at `origin` against
/// building; cells off the field are skipped.
pub fn add_unbuildable_surroundings(grid: &mut Grid, origin: &GridPos)
    requires
        old(grid).wf(),
        origin.spec_inside(),
    ensures
        final(grid).wf(),
        forall|q: GridPos| #[trigger]
            final(grid).unbuildable_at(q) == (old(grid).unbuildable_at(q) || (q.spec_inside()
                && surrounds(*origin, q))),
        final(grid).towers@ == old(grid).towers@,
        final(grid).tower_origins@ == old(grid).tower_origins@,
        final(grid).enemy_spawners@ == old(grid).enemy_spawners@,
        final(grid).enemy_goals@ == old(grid).enemy_goals@,
        final(grid).death_count@ == old(grid).death_count@,
{
    reserve_cell(grid, origin, 0, -1);
    reserve_cell(grid, origin, 1, -1);
    reserve_cell(grid, origin, 0, 2);
    reserve_cell(grid, origin, 1, 2);
    reserve_cell(grid, origin, -1, -1);
    reserve_cell(grid, origin, -1, 0);
    reserve_cell(grid, origin, -1, 1);
    reserve_cell(grid, origin, -1, 2);
    reserve_cell(grid, origin, 2, -1);
    reserve_cell(grid, origin, 2, 0);
    reserve_cell(grid, origin, 2, 1);
    reserve_cell(grid, origin, 2, 2);
    proof {
        assert forall|p: GridPos| p.spec_inside() implies {
            &&& !(#[trigger] grid.tower_at(p) is Some && grid.spawner_at(p) is Some)
            &&& !(grid.tower_at(p) is Some && grid.goal_at(p) is Some)
            &&& !(grid.spawner_at(p) is Some && grid.goal_at(p) is Some)
        } by {
            assert(!(old(grid).tower_at(p) is Some && old(grid).spawner_at(p) is Some));
            assert(!(old(grid).tower_at(p) is Some && old(grid).goal_at(p) is Some));
            assert(!(old(grid).spawner_at(p) is Some && old(grid).goal_at(p) is Some));
        }
    }
}

/// The destination enemies path toward.
#[derive(Clone, Copy, PartialEq, Eq, Structural, Debug)]
pub enum EnemyGoal {
    Heart,
}

impl EnemyGoal {
    /// Hit points the goal starts with.
    pub fn max_hp(&self) -> (r: isize)
        ensures
            r == 200isize,
    {
        match self {
            EnemyGoal::Heart => 200,
        }
    }

    /// Damage dealt back to an enemy attacking this goal.
    pub fn thorn_damage(&self) -> (r: isize)
        ensures
            r == 10isize,
    {
        match self {
            EnemyGoal::Heart => 10,
        }
    }

    /// The tiles belonging to the goal besides its anchor.
    pub fn other_tiles(&self, origin: &GridPos) -> (r: Vec<GridPos>)
        requires
            origin.spec_inside(),
        ensures
            r.len() == 3,
            r@[0] == (GridPos { row: (origin.row + 1) as isize, col: origin.col }),
            r@[1] == (GridPos { row: origin.row, col: (origin.col + 1) as isize }),
            r@[2] == (GridPos { row: (origin.row + 1) as isize, col: (origin.col + 1) as isize }),
    {
        let mut r: Vec<GridPos> = Vec::new();
        r.push(GridPos { row: origin.row + 1, col: origin.col });
        r.push(GridPos { row: origin.row, col: origin.col + 1 });
        r.push(GridPos { row: origin.row + 1, col: origin.col + 1 });
        r
    }
}

/// Register a goal's 2x2 block at `origin` for `entity` and reserve the
/// ring around it against building.
pub fn register_goal(grid: &mut Grid, origin: &GridPos, entity: EntityId)
    requires
        old(grid).wf(),
        origin.spec_inside(),
        origin.row + 1 < ROWS,
        origin.col + 1 < COLUMNS,
        forall|p: GridPos|
            block_covers(*origin, p) ==> #[trigger] old(grid).tower_at(p) is None && old(
                grid,
            ).spawner_at(p) is None,
    ensures
        final(grid).wf(),
        forall|p: GridPos| #[trigger]
            final(grid).goal_at(p) == if block_covers(*origin, p) {
                Some(entity)
            } else {
                old(grid).goal_at(p)
            },
        forall|q: GridPos| #[trigger]
            final(grid).unbuildable_at(q) == (old(grid).unbuildable_at(q) || (q.spec_inside()
                && surrounds(*origin, q))),
        final(grid).towers@ == old(grid).towers@,
        final(grid).tower_origins@ == old(grid).tower_origins@,
        final(grid).enemy_spawners@ == old(grid).enemy_spawners@,
        final(grid).death_count@ == old(grid).death_count@,
{
    add_unbuildable_surroundings(grid, origin);
    let ghost gmid = *grid;
    grid.set_goal_cell(origin, Some(entity));
    grid.set_goal_cell(&GridPos { row: origin.row + 1, col: origin.col }, Some(entity));
    grid.set_goal_cell(&GridPos { row: origin.row, col: origin.col + 1 }, Some(entity));
    grid.set_goal_cell(&GridPos { row: origin.row + 1, col: origin.col + 1 }, Some(entity));
    proof {
        assert forall|p: GridPos| p.spec_inside() implies {
            &&& !(#[trigger] grid.tower_at(p) is Some && grid.spawner_at(p) is Some)
            &&& !(grid.tower_at(p) is Some && grid.goal_at(p) is Some)
            &&& !(grid.spawner_at(p) is Some && grid.goal_at(p) is Some)
        } by {
            assert(!(old(grid).tower_at(p) is Some && old(grid).spawner_at(p) is Some));
            assert(!(old(grid).tower_at(p) is Some && old(grid).goal_at(p) is Some));
            assert(!(old(grid).spawner_at(p) is Some && old(grid).goal_at(p) is Some));
            if block_covers(*origin, p) {
                assert(old(grid).tower_at(p) is None && old(grid).spawner_at(p) is None);
            }
        }
        assert forall|q: GridPos| #[trigger] grid.unbuildable_at(q) == (old(grid).unbuildable_at(q)
            || (q.spec_inside() && surrounds(*origin, q))) by {
            assert(gmid.unbuildable_at(q) == (old(grid).unbuildable_at(q) || (q.spec_inside()
                && surrounds(*origin, q))));
        }
    }
}

/// Register a spawner's 2x2 block at `origin` for `entity` and reserve the
/// ring around it against building.
pub fn register_spawner(grid: &mut Grid, origin: &GridPos, entity: EntityId)
    requires
        old(grid).wf(),
        origin.spec_inside(),
        origin.row + 1 < ROWS,
        origin.col + 1 < COLUMNS,
        forall|p: GridPos|
            block_covers(*origin, p) ==> #[trigger] old(grid).tower_at(p) is None && old(
                grid,
            ).goal_at(p) is None,
    ensures
        final(grid).wf(),
        forall|p: GridPos| #[trigger]
            final(grid).spawner_at(p) == if block_covers(*origin, p) {
                Some(entity)
            } else {
                old(grid).spawner_at(p)
            },
        forall|q: GridPos| #[trigger]
            final(grid).unbuildable_at(q) == (old(grid).unbuildable_at(q) || (q.spec_inside()
                && surrounds(*origin, q))),
        final(grid).towers@ == old(grid).towers@,
        final(grid).tower_origins@ == old(grid).tower_origins@,
        final(grid).enemy_goals@ == old(grid).enemy_goals@,
        final(grid).death_count@ == old(grid).death_count@,
{
    add_unbuildable_surroundings(grid, origin);
    let ghost gmid = *grid;
    grid.set_spawner_cell(origin, Some(entity));
    grid.set_spawner_cell(&GridPos { row: origin.row + 1, col: origin.col }, Some(entity));
    grid.set_spawner_cell(&GridPos { row: origin.row, col: origin.col + 1 }, Some(entity));
    grid.set_spawner_cell(&GridPos { row: origin.row + 1, col: origin.col + 1 }, Some(entity));
    proof {
        assert forall|p: GridPos| p.spec_inside() implies {
            &&& !(#[trigger] grid.tower_at(p) is Some && grid.spawner_at(p) is Some)
            &&& !(grid.tower_at(p) is Some && grid.goal_at(p) is Some)
            &&& !(grid.spawner_at(p) is Some && grid.goal_at(p) is Some)
        } by {
            assert(!(old(grid).tower_at(p) is Some && old(grid).spawner_at(p) is Some));
            assert(!(old(grid).tower_at(p) is Some && old(grid).goal_at(p) is Some));
            assert(!(old(grid).spawner_at(p) is Some && old(grid).goal_at(p) is Some));
            if block_covers(*origin, p) {
                assert(old(grid).tower_at(p) is None && old(grid).goal_at(p) is None);
            }
        }
        assert forall|q: GridPos| #[trigger] grid.unbuildable_at(q) == (old(grid).unbuildable_at(q)
            || (q.spec_inside() && surrounds(*origin, q))) by {
            assert(gmid.unbuildable_at(q) == (old(grid).unbuildable_at(q) || (q.spec_inside()
                && surrounds(*origin, q))));
        }
    }
}

/// Whether a randomly drawn position is an acceptable spawner site: far
/// enough from every goal, with the three non-anchor tiles of its block
/// free. (The anchor itself is not checked, faithfully to the placement
/// rule this models.)
pub fn spawner_site_ok(grid: &Grid, pos: &GridPos, goal_cells: &Vec<GridPos>) -> (r: bool)
    requires
        grid.wf(),
        pos.spec_inside(),
        pos.row + 1 < ROWS,
        pos.col + 1 < COLUMNS,
        goal_cells.len() > 0,
        forall|k: int| 0 <= k < goal_cells.len() ==> (#[trigger] goal_cells[k]).spec_inside(),
    ensures
        r == (GridPos::min_goal_dist(*pos, goal_cells@) >= 35 && grid.spec_is_free(
            GridPos { row: (pos.row + 1) as isize, col: pos.col },
        ) && grid.spec_is_free(GridPos { row: pos.row, col: (pos.col + 1) as isize })
            && grid.spec_is_free(
            GridPos { row: (pos.row + 1) as isize, col: (pos.col + 1) as isize },
        )),
{
    if pos.distance_to_closest(goal_cells) < 35 {
        return false;
    }
    grid.is_free(&GridPos { row: pos.row + 1, col: pos.col }) && grid.is_free(
        &GridPos { row: pos.row, col: pos.col + 1 },
    ) && grid.is_free(&GridPos { row: pos.row + 1, col: pos.col + 1 })
}

} // verus!
