//! The occupancy grid: the single shared record of which cells are covered by
//! towers, spawners and goals, which cells may never be built on, and how many
//! enemies have died on each cell.

use std::collections::HashMap;
use vstd::prelude::*;

use crate::grid_pos::GridPos;
use crate::{COLUMNS, N_CELLS, ROWS};

verus! {

broadcast use vstd::std_specs::hash::group_hash_axioms;

/// Identifier of an entity owned by the surrounding simulation.
pub type EntityId = u64;

/// Index of an in-bounds position in the row-major cell arrays.
pub open spec fn cell_index(p: GridPos) -> int {
    p.row * COLUMNS + p.col
}

/// Row-major index of an in-bounds position.
pub fn index_of(p: &GridPos) -> (i: usize)
    requires
        p.spec_inside(),
    ensures
        i == cell_index(*p),
        i < N_CELLS,
{
    (p.row as usize) * (COLUMNS as usize) + (p.col as usize)
}

/// The authoritative occupancy state of the playing field.
///
/// Each cell array has one entry per cell, in row-major order. A cell is
/// covered by at most one of a tower, a spawner or a goal at a time.
pub struct Grid {
    /// Cell-indexed: the tower covering each cell, if any.
    pub towers: Vec<Option<EntityId>>,
    /// The anchor cell of every placed tower, keyed by its entity.
    pub tower_origins: HashMap<EntityId, GridPos>,
    /// Cell-indexed: the spawner covering each cell, if any.
    pub enemy_spawners: Vec<Option<EntityId>>,
    /// Cell-indexed: the goal covering each cell, if any.
    pub enemy_goals: Vec<Option<EntityId>>,
    /// Cell-indexed: cells where towers may never be placed (still traversable).
    pub unbuildable: Vec<bool>,
    /// Cell-indexed: how many enemies have died on each cell.
    pub death_count: Vec<u64>,
}

impl Grid {
    /// Structural well-formedness: all cell arrays cover the whole field and
    /// a cell is claimed by at most one of towers, spawners and goals.
    pub open spec fn wf(self) -> bool {
        &&& self.towers.len() == N_CELLS
        &&& self.enemy_spawners.len() == N_CELLS
        &&& self.enemy_goals.len() == N_CELLS
        &&& self.unbuildable.len() == N_CELLS
        &&& self.death_count.len() == N_CELLS
        &&& forall|p: GridPos|
            p.spec_inside() ==> {
                &&& !(#[trigger] self.tower_at(p) is Some && self.spawner_at(p) is Some)
                &&& !(self.tower_at(p) is Some && self.goal_at(p) is Some)
                &&& !(self.spawner_at(p) is Some && self.goal_at(p) is Some)
            }
        &&& forall|e: EntityId|
            self.tower_origins@.contains_key(e) ==> (#[trigger] self.tower_origins@[e]).spec_inside()
    }

    /// The tower covering `p`, if any; out-of-bounds cells are uncovered.
    pub open spec fn tower_at(self, p: GridPos) -> Option<EntityId> {
        if p.spec_inside() && self.towers.len() == N_CELLS {
            self.towers[cell_index(p)]
        } else {
            None
        }
    }

    /// The spawner covering `p`, if any.
    pub open spec fn spawner_at(self, p: GridPos) -> Option<EntityId> {
        if p.spec_inside() && self.enemy_spawners.len() == N_CELLS {
            self.enemy_spawners[cell_index(p)]
        } else {
            None
        }
    }

    /// The goal covering `p`, if any.
    pub open spec fn goal_at(self, p: GridPos) -> Option<EntityId> {
        if p.spec_inside() && self.enemy_goals.len() == N_CELLS {
            self.enemy_goals[cell_index(p)]
        } else {
            None
        }
    }

    /// Whether `p` is reserved against building.
    pub open spec fn unbuildable_at(self, p: GridPos) -> bool {
        p.spec_inside() && self.unbuildable.len() == N_CELLS && self.unbuildable[cell_index(p)]
    }

    /// How many enemies have died on `p`.
    pub open spec fn deaths_at(self, p: GridPos) -> u64 {
        if p.spec_inside() && self.death_count.len() == N_CELLS {
            self.death_count[cell_index(p)]
        } else {
            0
        }
    }

    /// A cell is free when nothing covers or reserves it.
    pub open spec fn spec_is_free(self, p: GridPos) -> bool {
        &&& self.tower_at(p) is None
        &&& self.spawner_at(p) is None
        &&& self.goal_at(p) is None
        &&& !self.unbuildable_at(p)
    }

    /// An empty field: no occupants, no reservations, no recorded deaths.
    pub fn new() -> (g: Grid)
        ensures
            g.wf(),
            forall|p: GridPos| #[trigger] g.tower_at(p) is None,
            forall|p: GridPos| #[trigger] g.spawner_at(p) is None,
            forall|p: GridPos| #[trigger] g.goal_at(p) is None,
            forall|p: GridPos| !#[trigger] g.unbuildable_at(p),
            forall|p: GridPos| #[trigger] g.deaths_at(p) == 0,
            g.tower_origins@ == Map::<EntityId, GridPos>::empty(),
    {
        let mut towers: Vec<Option<EntityId>> = Vec::new();
        let mut enemy_spawners: Vec<Option<EntityId>> = Vec::new();
        let mut enemy_goals: Vec<Option<EntityId>> = Vec::new();
        let mut unbuildable: Vec<bool> = Vec::new();
        let mut death_count: Vec<u64> = Vec::new();
        let mut i: usize = 0;
        while i < N_CELLS
            invariant
                towers.len() == i,
                enemy_spawners.len() == i,
                enemy_goals.len() == i,
                unbuildable.len() == i,
                death_count.len() == i,
                i <= N_CELLS,
                forall|j: int| 0 <= j < i ==> towers[j] is None,
                forall|j: int| 0 <= j < i ==> enemy_spawners[j] is None,
                forall|j: int| 0 <= j < i ==> enemy_goals[j] is None,
                forall|j: int| 0 <= j < i ==> !unbuildable[j],
                forall|j: int| 0 <= j < i ==> death_count[j] == 0,
            decreases N_CELLS - i,
        {
            towers.push(None);
            enemy_spawners.push(None);
            enemy_goals.push(None);
            unbuildable.push(false);
            death_count.push(0);
            i = i + 1;
        }
        Grid { towers, tower_origins: HashMap::new(), enemy_spawners, enemy_goals, unbuildable, death_count }
    }

    /// Whether a tower may be placed on `position` (nothing covers or
    /// reserves it). Out-of-bounds positions carry no occupant, so they
    /// count as free here; placement checks bounds separately.
    pub fn is_free(&self, position: &GridPos) -> (r: bool)
        requires
            self.wf(),
        ensures
            r == self.spec_is_free(*position),
    {
        if !position.inside_grid_bounds() {
            return true;
        }
        let i = index_of(position);
        self.towers[i].is_none() && self.enemy_spawners[i].is_none() && self.enemy_goals[i].is_none()
            && !self.unbuildable[i]
    }

    /// The tower covering `position`, if any.
    pub fn get_tower(&self, position: &GridPos) -> (r: Option<EntityId>)
        requires
            self.wf(),
        ensures
            r == self.tower_at(*position),
    {
        if !position.inside_grid_bounds() {
            return None;
        }
        self.towers[index_of(position)]
    }

    /// The goal covering `position`, if any.
    pub fn get_goal(&self, position: &GridPos) -> (r: Option<EntityId>)
        requires
            self.wf(),
        ensures
            r == self.goal_at(*position),
    {
        if !position.inside_grid_bounds() {
            return None;
        }
        self.enemy_goals[index_of(position)]
    }

    /// The spawner covering `position`, if any.
    pub fn get_spawner(&self, position: &GridPos) -> (r: Option<EntityId>)
        requires
            self.wf(),
        ensures
            r == self.spawner_at(*position),
    {
        if !position.inside_grid_bounds() {
            return None;
        }
        self.enemy_spawners[index_of(position)]
    }

    /// The anchor cell of the tower with entity `entity`, if it is placed.
    pub fn get_origin(&self, entity: EntityId) -> (r: Option<GridPos>)
        ensures
            r == if self.tower_origins@.contains_key(entity) {
                Some(self.tower_origins@[entity])
            } else {
                None::<GridPos>
            },
    {
        match self.tower_origins.get(&entity) {
            Some(o) => Some(*o),
            None => None,
        }
    }

    /// Whether `position` is reserved against building.
    pub fn is_unbuildable(&self, position: &GridPos) -> (r: bool)
        requires
            self.wf(),
        ensures
            r == self.unbuildable_at(*position),
    {
        if !position.inside_grid_bounds() {
            return false;
        }
        self.unbuildable[index_of(position)]
    }

    /// How many enemies have died on `position`.
    pub fn get_deaths(&self, position: &GridPos) -> (r: u64)
        requires
            self.wf(),
        ensures
            r == self.deaths_at(*position),
    {
        if !position.inside_grid_bounds() {
            return 0;
        }
        self.death_count[index_of(position)]
    }

    /// Overwrite the tower occupant of the in-bounds cell `p`, leaving every
    /// other cell and every other field untouched.
    pub(crate) fn set_tower_cell(&mut self, p: &GridPos, v: Option<EntityId>)
        requires
            old(self).towers.len() == N_CELLS,
            p.spec_inside(),
        ensures
            final(self).towers.len() == N_CELLS,
            final(self).tower_at(*p) == v,
            forall|q: GridPos|
                q != *p ==> #[trigger] final(self).tower_at(q) == old(self).tower_at(q),
            final(self).tower_origins@ == old(self).tower_origins@,
            final(self).enemy_spawners@ == old(self).enemy_spawners@,
            final(self).enemy_goals@ == old(self).enemy_goals@,
            final(self).unbuildable@ == old(self).unbuildable@,
            final(self).death_count@ == old(self).death_count@,
    {
        let i = index_of(p);
        self.towers.set(i, v);
        proof {
            assert forall|q: GridPos| q != *p implies #[trigger] self.tower_at(q) == old(
                self,
            ).tower_at(q) by {
                if q.spec_inside() && cell_index(q) == cell_index(*p) {
                    lemma_cell_index_injective(q, *p);
                }
            }
        }
    }

    /// Overwrite the spawner occupant of the in-bounds cell `p`.
    pub(crate) fn set_spawner_cell(&mut self, p: &GridPos, v: Option<EntityId>)
        requires
            old(self).enemy_spawners.len() == N_CELLS,
            p.spec_inside(),
        ensures
            final(self).enemy_spawners.len() == N_CELLS,
            final(self).spawner_at(*p) == v,
            forall|q: GridPos|
                q != *p ==> #[trigger] final(self).spawner_at(q) == old(self).spawner_at(q),
            final(self).towers@ == old(self).towers@,
            final(self).tower_origins@ == old(self).tower_origins@,
            final(self).enemy_goals@ == old(self).enemy_goals@,
            final(self).unbuildable@ == old(self).unbuildable@,
            final(self).death_count@ == old(self).death_count@,
    {
        let i = index_of(p);
        self.enemy_spawners.set(i, v);
        proof {
            assert forall|q: GridPos| q != *p implies #[trigger] self.spawner_at(q) == old(
                self,
            ).spawner_at(q) by {
                if q.spec_inside() && cell_index(q) == cell_index(*p) {
                    lemma_cell_index_injective(q, *p);
                }
            }
        }
    }

    /// Overwrite the goal occupant of the in-bounds cell `p`.
    pub(crate) fn set_goal_cell(&mut self, p: &GridPos, v: Option<EntityId>)
        requires
            old(self).enemy_goals.len() == N_CELLS,
            p.spec_inside(),
        ensures
            final(self).enemy_goals.len() == N_CELLS,
            final(self).goal_at(*p) == v,
            forall|q: GridPos|
                q != *p ==> #[trigger] final(self).goal_at(q) == old(self).goal_at(q),
            final(self).towers@ == old(self).towers@,
            final(self).tower_origins@ == old(self).tower_origins@,
            final(self).enemy_spawners@ == old(self).enemy_spawners@,
            final(self).unbuildable@ == old(self).unbuildable@,
            final(self).death_count@ == old(self).death_count@,
    {
        let i = index_of(p);
        self.enemy_goals.set(i, v);
        proof {
            assert forall|q: GridPos| q != *p implies #[trigger] self.goal_at(q) == old(
                self,
            ).goal_at(q) by {
                if q.spec_inside() && cell_index(q) == cell_index(*p) {
                    lemma_cell_index_injective(q, *p);
                }
            }
        }
    }

    /// Overwrite the building reservation of the in-bounds cell `p`.
    pub(crate) fn set_unbuildable_cell(&mut self, p: &GridPos, v: bool)
        requires
            old(self).unbuildable.len() == N_CELLS,
            p.spec_inside(),
        ensures
            final(self).unbuildable.len() == N_CELLS,
            final(self).unbuildable_at(*p) == v,
            forall|q: GridPos|
                q != *p ==> #[trigger] final(self).unbuildable_at(q) == old(self).unbuildable_at(q),
            final(self).towers@ == old(self).towers@,
            final(self).tower_origins@ == old(self).tower_origins@,
            final(self).enemy_spawners@ == old(self).enemy_spawners@,
            final(self).enemy_goals@ == old(self).enemy_goals@,
            final(self).death_count@ == old(self).death_count@,
    {
        let i = index_of(p);
        self.unbuildable.set(i, v);
        proof {
            assert forall|q: GridPos| q != *p implies #[trigger] self.unbuildable_at(q) == old(
                self,
            ).unbuildable_at(q) by {
                if q.spec_inside() && cell_index(q) == cell_index(*p) {
                    lemma_cell_index_injective(q, *p);
                }
            }
        }
    }

    /// Every cell currently covered by a goal.
    pub fn goal_cells(&self) -> (r: Vec<GridPos>)
        requires
            self.wf(),
        ensures
            forall|k: int|
                0 <= k < r.len() ==> (#[trigger] r@[k]).spec_inside() && self.goal_at(r@[k])
                    is Some,
            forall|p: GridPos|
                p.spec_inside() && #[trigger] self.goal_at(p) is Some ==> r@.contains(p),
            forall|a: int, b: int| 0 <= a < b < r.len() ==> r@[a] != r@[b],
    {
        let mut out: Vec<GridPos> = Vec::new();
        let mut row: isize = 0;
        while row < ROWS
            invariant
                0 <= row <= ROWS,
                self.wf(),
                forall|k: int|
                    0 <= k < out.len() ==> (#[trigger] out@[k]).spec_inside() && self.goal_at(
                        out@[k],
                    ) is Some,
                forall|p: GridPos|
                    p.spec_inside() && p.row < row && #[trigger] self.goal_at(p) is Some
                        ==> out@.contains(p),
                forall|k: int| 0 <= k < out.len() ==> (#[trigger] out@[k]).row < row,
                forall|a: int, b: int| 0 <= a < b < out.len() ==> out@[a] != out@[b],
            decreases ROWS - row,
        {
            let mut col: isize = 0;
            while col < COLUMNS
                invariant
                    0 <= col <= COLUMNS,
                    0 <= row < ROWS,
                    self.wf(),
                    forall|k: int|
                        0 <= k < out.len() ==> (#[trigger] out@[k]).spec_inside() && self.goal_at(
                            out@[k],
                        ) is Some,
                    forall|p: GridPos|
                        p.spec_inside() && (p.row < row || (p.row == row && p.col < col))
                            && #[trigger] self.goal_at(p) is Some ==> out@.contains(p),
                    forall|k: int|
                        0 <= k < out.len() ==> (#[trigger] out@[k]).row < row || ((#[trigger] out@[k]).row
                            == row && out@[k].col < col),
                    forall|a: int, b: int| 0 <= a < b < out.len() ==> out@[a] != out@[b],
                decreases COLUMNS - col,
            {
                let p = GridPos { row, col };
                let ghost prev = out@;
                if self.enemy_goals[index_of(&p)].is_some() {
                    out.push(p);
                }
                proof {
                    assert forall|q: GridPos|
                        q.spec_inside() && (q.row < row || (q.row == row && q.col < col + 1))
                            && #[trigger] self.goal_at(q) is Some implies out@.contains(q) by {
                        if q == p {
                            assert(out@[out@.len() - 1] == p);
                        } else {
                            assert(q.row < row || (q.row == row && q.col < col));
                            if out@ != prev {
                                vstd::seq_lib::lemma_seq_contains_after_push(prev, p, q);
                            }
                        }
                    }
                }
                col = col + 1;
            }
            row = row + 1;
        }
        out
    }

    /// Every cell currently covered by a tower: the tiles excluded from (or
    /// made costly for) enemy pathfinding.
    pub fn blocked_tiles(&self) -> (r: Vec<GridPos>)
        requires
            self.wf(),
        ensures
            forall|k: int|
                0 <= k < r.len() ==> (#[trigger] r@[k]).spec_inside() && self.tower_at(r@[k])
                    is Some,
            forall|p: GridPos|
                p.spec_inside() && #[trigger] self.tower_at(p) is Some ==> r@.contains(p),
            forall|a: int, b: int| 0 <= a < b < r.len() ==> r@[a] != r@[b],
    {
        let mut out: Vec<GridPos> = Vec::new();
        let mut row: isize = 0;
        while row < ROWS
            invariant
                0 <= row <= ROWS,
                self.wf(),
                forall|k: int|
                    0 <= k < out.len() ==> (#[trigger] out@[k]).spec_inside() && self.tower_at(
                        out@[k],
                    ) is Some,
                forall|p: GridPos|
                    p.spec_inside() && p.row < row && #[trigger] self.tower_at(p) is Some
                        ==> out@.contains(p),
                forall|k: int| 0 <= k < out.len() ==> (#[trigger] out@[k]).row < row,
                forall|a: int, b: int| 0 <= a < b < out.len() ==> out@[a] != out@[b],
            decreases ROWS - row,
        {
            let mut col: isize = 0;
            while col < COLUMNS
                invariant
                    0 <= col <= COLUMNS,
                    0 <= row < ROWS,
                    self.wf(),
                    forall|k: int|
                        0 <= k < out.len() ==> (#[trigger] out@[k]).spec_inside() && self.tower_at(
                            out@[k],
                        ) is Some,
                    forall|p: GridPos|
                        p.spec_inside() && (p.row < row || (p.row == row && p.col < col))
                            && #[trigger] self.tower_at(p) is Some ==> out@.contains(p),
                    forall|k: int|
                        0 <= k < out.len() ==> (#[trigger] out@[k]).row < row || ((#[trigger] out@[k]).row
                            == row && out@[k].col < col),
                    forall|a: int, b: int| 0 <= a < b < out.len() ==> out@[a] != out@[b],
                decreases COLUMNS - col,
            {
                let p = GridPos { row, col };
                let ghost prev = out@;
                if self.towers[index_of(&p)].is_some() {
                    out.push(p);
                }
                proof {
                    assert forall|q: GridPos|
                        q.spec_inside() && (q.row < row || (q.row == row && q.col < col + 1))
                            && #[trigger] self.tower_at(q) is Some implies out@.contains(q) by {
                        if q == p {
                            assert(out@[out@.len() - 1] == p);
                        } else {
                            assert(q.row < row || (q.row == row && q.col < col));
                            if out@ != prev {
                                vstd::seq_lib::lemma_seq_contains_after_push(prev, p, q);
                            }
                        }
                    }
                }
                col = col + 1;
            }
            row = row + 1;
        }
        out
    }

    /// Record that an enemy died on `cell`, biasing later planning.
    ///
    /// The first death on a cell only starts the count; every further death
    /// increments it and reports the cell so that routes crossing it are
    /// re-examined. The counts are bookkeeping only: feeding them into the
    /// per-cell costs handed to the search is the planning caller's policy.
    pub fn record_death(&mut self, cell: &GridPos) -> (reported: bool)
        requires
            old(self).wf(),
            cell.spec_inside(),
            old(self).deaths_at(*cell) < u64::MAX,
        ensures
            final(self).wf(),
            final(self).deaths_at(*cell) == old(self).deaths_at(*cell) + 1,
            forall|p: GridPos|
                p != *cell ==> #[trigger] final(self).deaths_at(p) == old(self).deaths_at(p),
            final(self).towers@ == old(self).towers@,
            final(self).tower_origins@ == old(self).tower_origins@,
            final(self).enemy_spawners@ == old(self).enemy_spawners@,
            final(self).enemy_goals@ == old(self).enemy_goals@,
            final(self).unbuildable@ == old(self).unbuildable@,
            reported == (old(self).deaths_at(*cell) > 0),
    {
        let i = index_of(cell);
        let prior = self.death_count[i];
        self.death_count.set(i, prior + 1);
        proof {
            assert forall|p: GridPos| p != *cell implies #[trigger] self.deaths_at(p)
                == old(self).deaths_at(p) by {
                if p.spec_inside() && cell_index(p) == cell_index(*cell) {
                    lemma_cell_index_injective(p, *cell);
                }
            }
            assert forall|p: GridPos| p.spec_inside() implies {
                &&& !(#[trigger] self.tower_at(p) is Some && self.spawner_at(p) is Some)
                &&& !(self.tower_at(p) is Some && self.goal_at(p) is Some)
                &&& !(self.spawner_at(p) is Some && self.goal_at(p) is Some)
            } by {
                assert(!(old(self).tower_at(p) is Some && old(self).spawner_at(p) is Some));
            }
        }
        prior > 0
    }
}

/// Two in-bounds positions with the same row-major index are the same cell.
pub proof fn lemma_cell_index_injective(a: GridPos, b: GridPos)
    requires
        a.spec_inside(),
        b.spec_inside(),
        cell_index(a) == cell_index(b),
    ensures
        a == b,
{
    assert(a.row == b.row) by {
        if a.row < b.row {
            assert(a.row * COLUMNS + COLUMNS <= b.row * COLUMNS) by (nonlinear_arith)
                requires
                    a.row < b.row,
                ;
        }
        if b.row < a.row {
            assert(b.row * COLUMNS + COLUMNS <= a.row * COLUMNS) by (nonlinear_arith)
                requires
                    b.row < a.row,
                ;
        }
    }
}

} // verus!
