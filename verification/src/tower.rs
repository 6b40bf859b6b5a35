//! Towers: their footprints, and placing them on / clearing them from the
//! occupancy grid. Placement blocks cells and removal frees them; both
//! report the affected cells so stale routes can be invalidated.

use vstd::prelude::*;

use crate::grid::{EntityId, Grid};
use crate::grid_pos::GridPos;
use crate::path_finding::PathChangedEvent;
use crate::{Orientation, COLUMNS, ROWS};

verus! {

/// The kinds of tower the player can place.
#[derive(Clone, Copy, PartialEq, Eq, Structural, Debug)]
pub enum TowerType {
    Wall,
    SpikedWall,
    Canon,
}

impl TowerType {
    /// Unrotated footprint as (width, height) in cells.
    pub open spec fn spec_size(self) -> (isize, isize) {
        match self {
            TowerType::Wall => (4isize, 1isize),
            TowerType::SpikedWall => (4isize, 1isize),
            TowerType::Canon => (3isize, 3isize),
        }
    }

    pub fn size(&self) -> (r: (isize, isize))
        ensures
            r == self.spec_size(),
    {
        match self {
            TowerType::Wall => (4, 1),
            TowerType::SpikedWall => (4, 1),
            TowerType::Canon => (3, 3),
        }
    }

    /// Hit points a freshly placed tower of this kind has.
    pub fn max_hp(&self) -> (r: isize)
        ensures
            r == match *self {
                TowerType::Wall => 100isize,
                TowerType::SpikedWall => 100isize,
                TowerType::Canon => 80isize,
            },
    {
        match self {
            TowerType::Wall => 100,
            TowerType::SpikedWall => 100,
            TowerType::Canon => 80,
        }
    }

    /// Which cell of the footprint sits under the cursor while placing.
    pub open spec fn spec_offset(self) -> (isize, isize) {
        match self {
            TowerType::Wall => (1isize, 0isize),
            TowerType::SpikedWall => (1isize, 0isize),
            TowerType::Canon => (1isize, 1isize),
        }
    }

    pub fn offset(&self) -> (r: (isize, isize))
        ensures
            r == self.spec_offset(),
    {
        match self {
            TowerType::Wall => (1, 0),
            TowerType::SpikedWall => (1, 0),
            TowerType::Canon => (1, 1),
        }
    }
}

/// A placed (or about to be placed) tower.
#[derive(Clone, Copy, PartialEq, Eq, Structural, Debug)]
pub struct Tower {
    pub variant: TowerType,
    pub orientation: Orientation,
}

/// The cells covered by a footprint of `size` anchored at `origin`:
/// `size.0` columns and `size.1` rows.
pub open spec fn covers(origin: GridPos, size: (isize, isize), p: GridPos) -> bool {
    &&& origin.row <= p.row < origin.row + size.1
    &&& origin.col <= p.col < origin.col + size.0
}

/// The prefix of the footprint already walked by the fill/clear loops:
/// all columns before `i`, and within column `i` the rows before `j`.
pub open spec fn covered_before(
    origin: GridPos,
    size: (isize, isize),
    i: int,
    j: int,
    p: GridPos,
) -> bool {
    covers(origin, size, p) && (p.col - origin.col < i || (p.col - origin.col == i && p.row
        - origin.row < j))
}

/// Every cell of a footprint is on the field exactly when the anchor is on
/// the field and the far corner does not stick out.
pub open spec fn footprint_inside(origin: GridPos, size: (isize, isize)) -> bool {
    &&& origin.spec_inside()
    &&& origin.row + size.1 <= ROWS
    &&& origin.col + size.0 <= COLUMNS
}

/// A tower of this size may be placed at `origin`: the whole footprint lies
/// on the field and every covered cell is free.
pub open spec fn placeable(g: Grid, size: (isize, isize), origin: GridPos) -> bool {
    &&& footprint_inside(origin, size)
    &&& forall|p: GridPos| covers(origin, size, p) ==> g.spec_is_free(p)
}

impl Tower {
    pub fn new(variant: TowerType, orientation: Orientation) -> (r: Self)
        ensures
            r.variant == variant,
            r.orientation == orientation,
    {
        Self { variant, orientation }
    }

    /// Footprint with the dimensions flipped when the tower is rotated
    /// sideways.
    pub open spec fn spec_size(self) -> (isize, isize) {
        let size = self.variant.spec_size();
        if self.orientation.spec_is_horizontal() {
            (size.1, size.0)
        } else {
            size
        }
    }

    pub fn size(&self) -> (r: (isize, isize))
        ensures
            r == self.spec_size(),
            1 <= r.0 <= 4,
            1 <= r.1 <= 4,
    {
        let size = self.variant.size();
        match self.orientation.is_horizontal() {
            true => (size.1, size.0),
            false => size,
        }
    }

    /// Cover every footprint cell with `entity` and remember its anchor.
    /// Returns the covered cells, for the path-change event.
    fn fill_grid(&self, origin: &GridPos, grid: &mut Grid, entity: EntityId) -> (blocked: Vec<
        GridPos,
    >)
        requires
            old(grid).wf(),
            footprint_inside(*origin, self.spec_size()),
            forall|p: GridPos|
                covers(*origin, self.spec_size(), p) ==> old(grid).spec_is_free(p),
            !old(grid).tower_origins@.contains_key(entity),
        ensures
            final(grid).wf(),
            final(grid).tower_origins@ == old(grid).tower_origins@.insert(entity, *origin),
            forall|p: GridPos| #[trigger]
                final(grid).tower_at(p) == if covers(*origin, self.spec_size(), p) {
                    Some(entity)
                } else {
                    old(grid).tower_at(p)
                },
            final(grid).enemy_spawners@ == old(grid).enemy_spawners@,
            final(grid).enemy_goals@ == old(grid).enemy_goals@,
            final(grid).unbuildable@ == old(grid).unbuildable@,
            final(grid).death_count@ == old(grid).death_count@,
            forall|k: int|
                0 <= k < blocked.len() ==> covers(*origin, self.spec_size(), #[trigger] blocked[k]),
            forall|p: GridPos|
                covers(*origin, self.spec_size(), p) ==> blocked@.contains(p),
            forall|a: int, b: int| 0 <= a < b < blocked.len() ==> blocked[a] != blocked[b],
    {
        let size = self.size();
        grid.tower_origins.insert(entity, *origin);
        let mut blocked: Vec<GridPos> = Vec::new();
        let mut i: isize = 0;
        while i < size.0
            invariant
                0 <= i <= size.0,
                size == self.spec_size(),
                footprint_inside(*origin, size),
                grid.towers.len() == crate::N_CELLS,
                grid.tower_origins@ == old(grid).tower_origins@.insert(entity, *origin),
                grid.enemy_spawners@ == old(grid).enemy_spawners@,
                grid.enemy_goals@ == old(grid).enemy_goals@,
                grid.unbuildable@ == old(grid).unbuildable@,
                grid.death_count@ == old(grid).death_count@,
                forall|p: GridPos| #[trigger]
                    grid.tower_at(p) == if covered_before(*origin, size, i as int, 0, p) {
                        Some(entity)
                    } else {
                        old(grid).tower_at(p)
                    },
                forall|k: int|
                    0 <= k < blocked.len() ==> covers(*origin, size, #[trigger] blocked[k]),
                forall|k: int|
                    0 <= k < blocked.len() ==> covered_before(
                        *origin,
                        size,
                        i as int,
                        0,
                        #[trigger] blocked[k],
                    ),
                forall|a: int, b: int| 0 <= a < b < blocked.len() ==> blocked[a] != blocked[b],
                forall|p: GridPos|
                    #[trigger] covered_before(*origin, size, i as int, 0, p) ==> blocked@.contains(
                        p,
                    ),
            decreases size.0 - i,
        {
            let mut j: isize = 0;
            while j < size.1
                invariant
                    0 <= i < size.0,
                    0 <= j <= size.1,
                    size == self.spec_size(),
                    footprint_inside(*origin, size),
                    grid.towers.len() == crate::N_CELLS,
                    grid.tower_origins@ == old(grid).tower_origins@.insert(entity, *origin),
                    grid.enemy_spawners@ == old(grid).enemy_spawners@,
                    grid.enemy_goals@ == old(grid).enemy_goals@,
                    grid.unbuildable@ == old(grid).unbuildable@,
                    grid.death_count@ == old(grid).death_count@,
                    forall|p: GridPos| #[trigger]
                        grid.tower_at(p) == if covered_before(*origin, size, i as int, j as int, p) {
                            Some(entity)
                        } else {
                            old(grid).tower_at(p)
                        },
                    forall|k: int|
                        0 <= k < blocked.len() ==> covers(*origin, size, #[trigger] blocked[k]),
                    forall|k: int|
                        0 <= k < blocked.len() ==> covered_before(
                            *origin,
                            size,
                            i as int,
                            j as int,
                            #[trigger] blocked[k],
                        ),
                    forall|a: int, b: int| 0 <= a < b < blocked.len() ==> blocked[a] != blocked[b],
                    forall|p: GridPos|
                        #[trigger] covered_before(*origin, size, i as int, j as int, p)
                            ==> blocked@.contains(p),
                decreases size.1 - j,
            {
                let ghost prev = blocked@;
                let pos = GridPos { row: origin.row + j, col: origin.col + i };
                grid.set_tower_cell(&pos, Some(entity));
                blocked.push(pos);
                proof {
                    assert(blocked@ == prev.push(pos));
                    assert(!covered_before(*origin, size, i as int, j as int, pos));
                    assert forall|p: GridPos|
                        covered_before(*origin, size, i as int, j + 1, p) implies blocked@.contains(
                        p,
                    ) by {
                        vstd::seq_lib::lemma_seq_contains_after_push(prev, pos, p);
                        if p != pos {
                            assert(covered_before(*origin, size, i as int, j as int, p));
                        }
                    }
                }
                j = j + 1;
            }
            proof {
                assert forall|p: GridPos| #[trigger] covered_before(*origin, size, i + 1, 0, p)
                    implies blocked@.contains(p) by {
                    assert(covered_before(*origin, size, i as int, size.1 as int, p));
                }
            }
            i = i + 1;
        }
        proof {
            assert forall|p: GridPos| covers(*origin, self.spec_size(), p) implies blocked@.contains(
                p,
            ) by {
                assert(covered_before(*origin, size, size.0 as int, 0, p));
            }
            assert forall|p: GridPos| p.spec_inside() implies {
                &&& !(#[trigger] grid.tower_at(p) is Some && grid.spawner_at(p) is Some)
                &&& !(grid.tower_at(p) is Some && grid.goal_at(p) is Some)
                &&& !(grid.spawner_at(p) is Some && grid.goal_at(p) is Some)
            } by {
                assert(!(old(grid).tower_at(p) is Some && old(grid).spawner_at(p) is Some));
                assert(!(old(grid).tower_at(p) is Some && old(grid).goal_at(p) is Some));
                assert(!(old(grid).spawner_at(p) is Some && old(grid).goal_at(p) is Some));
                if covers(*origin, self.spec_size(), p) {
                    assert(old(grid).spec_is_free(p));
                }
            }
            assert forall|e: EntityId| grid.tower_origins@.contains_key(e) implies (
            #[trigger] grid.tower_origins@[e]).spec_inside() by {
                if e != entity {
                    assert(old(grid).tower_origins@.contains_key(e));
                }
            }
        }
        blocked
    }

    /// Uncover every footprint cell of this tower and forget its anchor.
    /// Returns the freed cells, for the path-change event; a tower that was
    /// never placed frees nothing.
    pub fn clear_grid(&self, grid: &mut Grid, entity: EntityId) -> (freed: Vec<GridPos>)
        requires
            old(grid).wf(),
        ensures
            final(grid).wf(),
            final(grid).enemy_spawners@ == old(grid).enemy_spawners@,
            final(grid).enemy_goals@ == old(grid).enemy_goals@,
            final(grid).unbuildable@ == old(grid).unbuildable@,
            final(grid).death_count@ == old(grid).death_count@,
            old(grid).tower_origins@.contains_key(entity) ==> {
                let origin = old(grid).tower_origins@[entity];
                &&& final(grid).tower_origins@ == old(grid).tower_origins@.remove(entity)
                &&& forall|p: GridPos| #[trigger]
                    final(grid).tower_at(p) == if covers(origin, self.spec_size(), p) {
                        None::<EntityId>
                    } else {
                        old(grid).tower_at(p)
                    }
                &&& forall|k: int|
                    0 <= k < freed.len() ==> covers(origin, self.spec_size(), #[trigger] freed[k])
                &&& forall|p: GridPos| covers(origin, self.spec_size(), p) ==> freed@.contains(p)
                &&& forall|a: int, b: int| 0 <= a < b < freed.len() ==> freed[a] != freed[b]
            },
            !old(grid).tower_origins@.contains_key(entity) ==> {
                &&& *final(grid) == *old(grid)
                &&& freed.len() == 0
            },
    {
        let origin = match grid.get_origin(entity) {
            Some(o) => o,
            None => {
                return Vec::new();
            },
        };
        grid.tower_origins.remove(&entity);
        let size = self.size();
        let mut freed: Vec<GridPos> = Vec::new();
        let mut i: isize = 0;
        while i < size.0
            invariant
                0 <= i <= size.0,
                size == self.spec_size(),
                old(grid).tower_origins@.contains_key(entity),
                origin == old(grid).tower_origins@[entity],
                origin.spec_inside(),
                grid.towers.len() == crate::N_CELLS,
                grid.tower_origins@ == old(grid).tower_origins@.remove(entity),
                grid.enemy_spawners@ == old(grid).enemy_spawners@,
                grid.enemy_goals@ == old(grid).enemy_goals@,
                grid.unbuildable@ == old(grid).unbuildable@,
                grid.death_count@ == old(grid).death_count@,
                forall|p: GridPos| #[trigger]
                    grid.tower_at(p) == if covered_before(origin, size, i as int, 0, p) {
                        None::<EntityId>
                    } else {
                        old(grid).tower_at(p)
                    },
                forall|k: int| 0 <= k < freed.len() ==> covers(origin, size, #[trigger] freed[k]),
                forall|k: int|
                    0 <= k < freed.len() ==> covered_before(
                        origin,
                        size,
                        i as int,
                        0,
                        #[trigger] freed[k],
                    ),
                forall|a: int, b: int| 0 <= a < b < freed.len() ==> freed[a] != freed[b],
                forall|p: GridPos|
                    #[trigger] covered_before(origin, size, i as int, 0, p) ==> freed@.contains(p),
            decreases size.0 - i,
        {
            let mut j: isize = 0;
            while j < size.1
                invariant
                    0 <= i < size.0,
                    0 <= j <= size.1,
                    size == self.spec_size(),
                    old(grid).tower_origins@.contains_key(entity),
                    origin == old(grid).tower_origins@[entity],
                    origin.spec_inside(),
                    grid.towers.len() == crate::N_CELLS,
                    grid.tower_origins@ == old(grid).tower_origins@.remove(entity),
                    grid.enemy_spawners@ == old(grid).enemy_spawners@,
                    grid.enemy_goals@ == old(grid).enemy_goals@,
                    grid.unbuildable@ == old(grid).unbuildable@,
                    grid.death_count@ == old(grid).death_count@,
                    forall|p: GridPos| #[trigger]
                        grid.tower_at(p) == if covered_before(origin, size, i as int, j as int, p) {
                            None::<EntityId>
                        } else {
                            old(grid).tower_at(p)
                        },
                    forall|k: int|
                        0 <= k < freed.len() ==> covers(origin, size, #[trigger] freed[k]),
                    forall|k: int|
                        0 <= k < freed.len() ==> covered_before(
                            origin,
                            size,
                            i as int,
                            j as int,
                            #[trigger] freed[k],
                        ),
                    forall|a: int, b: int| 0 <= a < b < freed.len() ==> freed[a] != freed[b],
                    forall|p: GridPos|
                        #[trigger] covered_before(origin, size, i as int, j as int, p)
                            ==> freed@.contains(p),
                decreases size.1 - j,
            {
                let ghost prev = freed@;
                let pos = GridPos { row: origin.row + j, col: origin.col + i };
                if pos.inside_grid_bounds() {
                    grid.set_tower_cell(&pos, None);
                }
                freed.push(pos);
                proof {
                    assert(freed@ == prev.push(pos));
                    assert(!covered_before(origin, size, i as int, j as int, pos));
                    assert forall|p: GridPos|
                        covered_before(origin, size, i as int, j + 1, p) implies freed@.contains(
                        p,
                    ) by {
                        vstd::seq_lib::lemma_seq_contains_after_push(prev, pos, p);
                        if p != pos {
                            assert(covered_before(origin, size, i as int, j as int, p));
                        }
                    }
                }
                j = j + 1;
            }
            proof {
                assert forall|p: GridPos| #[trigger] covered_before(origin, size, i + 1, 0, p)
                    implies freed@.contains(p) by {
                    assert(covered_before(origin, size, i as int, size.1 as int, p));
                }
            }
            i = i + 1;
        }
        proof {
            assert forall|p: GridPos| covers(origin, self.spec_size(), p) implies freed@.contains(
                p,
            ) by {
                assert(covered_before(origin, size, size.0 as int, 0, p));
            }
            assert forall|p: GridPos| p.spec_inside() implies {
                &&& !(#[trigger] grid.tower_at(p) is Some && grid.spawner_at(p) is Some)
                &&& !(grid.tower_at(p) is Some && grid.goal_at(p) is Some)
                &&& !(grid.spawner_at(p) is Some && grid.goal_at(p) is Some)
            } by {
                assert(!(old(grid).tower_at(p) is Some && old(grid).spawner_at(p) is Some));
                assert(!(old(grid).tower_at(p) is Some && old(grid).goal_at(p) is Some));
                assert(!(old(grid).spawner_at(p) is Some && old(grid).goal_at(p) is Some));
            }
            assert forall|e: EntityId| grid.tower_origins@.contains_key(e) implies (
            #[trigger] grid.tower_origins@[e]).spec_inside() by {
                assert(old(grid).tower_origins@.contains_key(e));
            }
        }
        freed
    }
}

/// Try to place `tower` anchored at `grid_pos` for entity `entity`.
///
/// Succeeds exactly when the whole footprint lies on the field and every
/// covered cell is free; on success the cells are covered, the anchor is
/// remembered, and the returned event reports the newly blocked cells. On
/// failure the grid is unchanged.
pub fn place_tower(grid: &mut Grid, tower: &Tower, grid_pos: &GridPos, entity: EntityId) -> (r:
    Option<PathChangedEvent>)
    requires
        old(grid).wf(),
        !old(grid).tower_origins@.contains_key(entity),
    ensures
        final(grid).wf(),
        r is Some <==> placeable(*old(grid), tower.spec_size(), *grid_pos),
        r is None ==> *final(grid) == *old(grid),
        r is Some ==> {
            &&& final(grid).tower_origins@ == old(grid).tower_origins@.insert(entity, *grid_pos)
            &&& forall|p: GridPos| #[trigger]
                final(grid).tower_at(p) == if covers(*grid_pos, tower.spec_size(), p) {
                    Some(entity)
                } else {
                    old(grid).tower_at(p)
                }
            &&& final(grid).enemy_spawners@ == old(grid).enemy_spawners@
            &&& final(grid).enemy_goals@ == old(grid).enemy_goals@
            &&& final(grid).unbuildable@ == old(grid).unbuildable@
            &&& final(grid).death_count@ == old(grid).death_count@
            &&& !r->Some_0.now_free
            &&& forall|k: int|
                0 <= k < r->Some_0.changed.len() ==> covers(
                    *grid_pos,
                    tower.spec_size(),
                    #[trigger] r->Some_0.changed[k],
                )
            &&& forall|p: GridPos|
                covers(*grid_pos, tower.spec_size(), p) ==> r->Some_0.changed@.contains(p)
            &&& forall|a: int, b: int|
                0 <= a < b < r->Some_0.changed.len() ==> r->Some_0.changed[a]
                    != r->Some_0.changed[b]
        },
{
    let size = tower.size();
    if !grid_pos.inside_grid_bounds() {
        return None;
    }
    if grid_pos.row > ROWS - size.1 || grid_pos.col > COLUMNS - size.0 {
        return None;
    }
    let mut i: isize = 0;
    while i < size.0
        invariant
            0 <= i <= size.0,
            size == tower.spec_size(),
            footprint_inside(*grid_pos, size),
            grid.wf(),
            *grid == *old(grid),
            forall|p: GridPos|
                covered_before(*grid_pos, size, i as int, 0, p) ==> grid.spec_is_free(p),
        decreases size.0 - i,
    {
        let mut j: isize = 0;
        while j < size.1
            invariant
                0 <= i < size.0,
                0 <= j <= size.1,
                size == tower.spec_size(),
                footprint_inside(*grid_pos, size),
                grid.wf(),
                *grid == *old(grid),
                forall|p: GridPos|
                    covered_before(*grid_pos, size, i as int, j as int, p) ==> grid.spec_is_free(p),
            decreases size.1 - j,
        {
            let pos = GridPos { row: grid_pos.row + j, col: grid_pos.col + i };
            if !grid.is_free(&pos) {
                proof {
                    assert(covers(*grid_pos, size, pos));
                }
                return None;
            }
            j = j + 1;
        }
        i = i + 1;
    }
    let blocked = tower.fill_grid(grid_pos, grid, entity);
    Some(PathChangedEvent::now_blocked(blocked))
}

/// Law: placing a tower and then removing it restores the grid's tower cover
/// and anchor records exactly — no entry leaks.
///
/// `g1` relates to `g0` as `place_tower` leaves a grid after a successful
/// placement of `tower` at `origin` for a fresh `entity`, and `g2` relates to
/// `g1` as `clear_grid` leaves it after removing that same tower.
pub proof fn lemma_place_remove_round_trip(
    g0: Grid,
    g1: Grid,
    g2: Grid,
    tower: Tower,
    origin: GridPos,
    entity: EntityId,
)
    requires
        !g0.tower_origins@.contains_key(entity),
        placeable(g0, tower.spec_size(), origin),
        g1.tower_origins@ == g0.tower_origins@.insert(entity, origin),
        forall|p: GridPos| #[trigger]
            g1.tower_at(p) == if covers(origin, tower.spec_size(), p) {
                Some(entity)
            } else {
                g0.tower_at(p)
            },
        g2.tower_origins@ == g1.tower_origins@.remove(entity),
        forall|p: GridPos| #[trigger]
            g2.tower_at(p) == if covers(g1.tower_origins@[entity], tower.spec_size(), p) {
                None::<EntityId>
            } else {
                g1.tower_at(p)
            },
    ensures
        g2.tower_origins@ == g0.tower_origins@,
        forall|p: GridPos| #[trigger] g2.tower_at(p) == g0.tower_at(p),
{
    assert(g2.tower_origins@ =~= g0.tower_origins@);
    assert forall|p: GridPos| #[trigger] g2.tower_at(p) == g0.tower_at(p) by {
        if covers(origin, tower.spec_size(), p) {
            assert(g0.spec_is_free(p));
        }
    }
}

/// Shift a cursor cell so that the tower's designated anchor cell lands on
/// it, taking the rotation into account.
pub fn apply_offset(grid_pos: GridPos, tower: TowerType, orientation: Orientation) -> (r: GridPos)
    requires
        grid_pos.spec_inside(),
    ensures
        r == spec_apply_offset(grid_pos, tower, orientation),
{
    let size = tower.size();
    let offset = tower.offset();
    match orientation {
        Orientation::Up => GridPos { col: grid_pos.col - offset.0, row: grid_pos.row - offset.1 },
        Orientation::Down => GridPos {
            col: grid_pos.col - (size.0 - 1 - offset.0),
            row: grid_pos.row - (size.1 - 1 - offset.1),
        },
        Orientation::Left => GridPos { col: grid_pos.col - offset.1, row: grid_pos.row - offset.0 },
        Orientation::Right => GridPos {
            col: grid_pos.col - (size.1 - 1 - offset.1),
            row: grid_pos.row - (size.0 - 1 - offset.0),
        },
    }
}

/// Where a tower's anchor lands for a cursor on `grid_pos`.
pub open spec fn spec_apply_offset(grid_pos: GridPos, tower: TowerType, orientation: Orientation) -> GridPos {
    let size = tower.spec_size();
    let offset = tower.spec_offset();
    match orientation {
        Orientation::Up => GridPos {
            col: (grid_pos.col - offset.0) as isize,
            row: (grid_pos.row - offset.1) as isize,
        },
        Orientation::Down => GridPos {
            col: (grid_pos.col - (size.0 - 1 - offset.0)) as isize,
            row: (grid_pos.row - (size.1 - 1 - offset.1)) as isize,
        },
        Orientation::Left => GridPos {
            col: (grid_pos.col - offset.1) as isize,
            row: (grid_pos.row - offset.0) as isize,
        },
        Orientation::Right => GridPos {
            col: (grid_pos.col - (size.1 - 1 - offset.1)) as isize,
            row: (grid_pos.row - (size.0 - 1 - offset.0)) as isize,
        },
    }
}

} // verus!
