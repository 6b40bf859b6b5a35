//! Per-entity route state and the per-step movement decision: walk onto the
//! next cell, or hand the entity over to combat when that cell is occupied.

use vstd::prelude::*;

use crate::enemy::Enemy;
use crate::grid::{EntityId, Grid};
use crate::grid_pos::GridPos;
use crate::Orientation;

verus! {

/// The remaining waypoints of a traveling entity, ordered from the goal
/// back to the next step: the next waypoint is the last element, consumed by
/// popping from the end.
pub struct EnemyPath {
    pub steps: Vec<GridPos>,
}

impl EnemyPath {
    pub fn new(steps: Vec<GridPos>) -> (r: Self)
        ensures
            r.steps == steps,
    {
        Self { steps }
    }
}

/// What the motion pass decided for one entity this step.
#[derive(Clone, Copy, PartialEq, Eq, Structural, Debug)]
pub enum StepOutcome {
    /// The entity stepped onto the cell; its logical position advanced.
    Walk(GridPos),
    /// The next cell is covered by this tower: stop pathing and fight it.
    AttackTower(EntityId),
    /// The next cell is covered by this goal: stop pathing and attack it.
    AttackGoal(EntityId),
}

/// Which way an entity faces when moving from `from` toward `to`.
pub open spec fn spec_orientation_towards(from: GridPos, to: GridPos) -> Orientation {
    if to.row > from.row && !(to.col > from.col) {
        Orientation::Up
    } else if !(to.row > from.row) && to.col > from.col {
        Orientation::Right
    } else if to.row < from.row {
        Orientation::Down
    } else {
        Orientation::Left
    }
}

pub fn orientation_towards(from: &GridPos, to: &GridPos) -> (r: Orientation)
    ensures
        r == spec_orientation_towards(*from, *to),
{
    match (to.row > from.row, to.col > from.col) {
        (true, false) => Orientation::Up,
        (false, true) => Orientation::Right,
        _ => match to.row < from.row {
            true => Orientation::Down,
            false => Orientation::Left,
        },
    }
}

/// Consume the next waypoint of `path` and decide what `enemy` does there.
///
/// The waypoint is popped and the enemy turns toward it in every case. If a
/// tower or a goal covers it, the enemy does not advance: it is handed to
/// combat against that occupant (the caller drops the route). Otherwise the
/// enemy's logical position advances onto the cell.
pub fn advance(path: &mut EnemyPath, enemy: &mut Enemy, grid: &Grid) -> (r: StepOutcome)
    requires
        old(path).steps.len() > 0,
        grid.wf(),
    ensures
        final(path).steps@ == old(path).steps@.drop_last(),
        final(enemy).orientation == spec_orientation_towards(
            old(enemy).current,
            old(path).steps@.last(),
        ),
        final(enemy).variant == old(enemy).variant,
        ({
            let tile = old(path).steps@.last();
            match grid.tower_at(tile) {
                Some(e) => r == StepOutcome::AttackTower(e) && final(enemy).current == old(
                    enemy,
                ).current,
                None => match grid.goal_at(tile) {
                    Some(e) => r == StepOutcome::AttackGoal(e) && final(enemy).current == old(
                        enemy,
                    ).current,
                    None => r == StepOutcome::Walk(tile) && final(enemy).current == tile,
                },
            }
        }),
{
    let tile = path.steps.pop().unwrap();
    enemy.orientation = orientation_towards(&enemy.current, &tile);
    if let Some(tower) = grid.get_tower(&tile) {
        return StepOutcome::AttackTower(tower);
    }
    if let Some(goal) = grid.get_goal(&tile) {
        return StepOutcome::AttackGoal(goal);
    }
    enemy.current = tile;
    StepOutcome::Walk(tile)
}

} // verus!
