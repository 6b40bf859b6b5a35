//! Planning and re-planning: the A* search over the occupancy grid, and the
//! event protocol that invalidates routes when traversability changes.

use vstd::prelude::*;

use crate::grid::{cell_index, index_of, EntityId};
use crate::enemy::EnemyType;
use crate::grid_pos::{abs_int, manhattan, GridPos};
use crate::movement::EnemyPath;
use crate::{COLUMNS, N_CELLS};

verus! {

/// Returned by `find_path` when the open set empties before any goal is
/// reached: no traversable chain of cells leads from the start to a goal.
#[derive(Clone, Copy, PartialEq, Eq, Structural, Debug)]
pub struct NoPathFound;

/// Upper bound accepted for a single step's cost; it keeps accumulated path
/// costs far below the integer limit over any search of the field.
pub const COST_CAP: u64 = 0x1_0000_0000;

/// One legal move: onto an orthogonally adjacent cell that lies on the field.
pub open spec fn step_ok(a: GridPos, b: GridPos) -> bool {
    manhattan(a, b) == 1 && b.spec_inside()
}

/// `p` lists the cells visited after `start`, each reached by one legal move
/// from its predecessor.
pub open spec fn chain_ok(start: GridPos, p: Seq<GridPos>) -> bool {
    forall|i: int|
        0 <= i < p.len() ==> step_ok(
            if i == 0 {
                start
            } else {
                p[i - 1]
            },
            #[trigger] p[i],
        )
}

/// The chain `p` leads from `start` to one of `goals`.
pub open spec fn reaches(start: GridPos, goals: Seq<GridPos>, p: Seq<GridPos>) -> bool {
    &&& chain_ok(start, p)
    &&& if p.len() == 0 {
        goals.contains(start)
    } else {
        goals.contains(p.last())
    }
}

/// Some chain of legal moves leads from `start` to one of `goals`.
pub open spec fn reachable(start: GridPos, goals: Seq<GridPos>) -> bool {
    exists|p: Seq<GridPos>| reaches(start, goals, p)
}

/// A stored route: `r[0]` is the goal reached, and waypoints are consumed by
/// popping from the end, so consecutive elements step toward the goal. An
/// empty route means the start already is a goal.
pub open spec fn route_valid(start: GridPos, goals: Seq<GridPos>, r: Seq<GridPos>) -> bool {
    if r.len() == 0 {
        goals.contains(start)
    } else {
        &&& goals.contains(r[0])
        &&& step_ok(start, r[r.len() - 1])
        &&& forall|i: int| 0 <= i < r.len() - 1 ==> step_ok(#[trigger] r[i + 1], r[i])
        &&& forall|i: int, j: int| 0 <= i < j < r.len() ==> r[i] != r[j]
        &&& !r.contains(start)
    }
}

/// A valid route read back-to-front is a witness that its goal is reachable.
pub proof fn lemma_route_valid_reaches(start: GridPos, goals: Seq<GridPos>, r: Seq<GridPos>)
    requires
        route_valid(start, goals, r),
    ensures
        reaches(start, goals, r.reverse()),
{
    let rev = r.reverse();
    if r.len() > 0 {
        assert forall|i: int| 0 <= i < rev.len() implies step_ok(
            if i == 0 {
                start
            } else {
                rev[i - 1]
            },
            #[trigger] rev[i],
        ) by {
            if i == 0 {
                assert(rev[0] == r[r.len() - 1]);
            } else {
                assert(rev[i] == r[r.len() - 1 - i]);
                assert(rev[i - 1] == r[r.len() - i]);
                assert(step_ok(r[r.len() - 1 - i + 1], r[r.len() - 1 - i]));
            }
        }
        assert(rev.last() == r[0]);
    }
}

/// The cost of stepping onto a cell: the default travel cost for an
/// unoccupied cell; a tower cell costs its fight-through cost — unless the
/// step continues the fight against the same tower already engaged, which
/// charges only the default travel cost so that sunk combat progress is
/// never billed twice.
pub open spec fn spec_step_cost(
    engaged: Option<EntityId>,
    occupant: Option<(EntityId, u64)>,
    default_travel_cost: u64,
) -> u64 {
    match occupant {
        None => default_travel_cost,
        Some((e, fight)) => if engaged == Some(e) {
            default_travel_cost
        } else {
            fight
        },
    }
}

/// Incremental cost of one step, given the tower the mover is already
/// fighting (if any) and the occupant of the destination cell.
pub fn step_cost(
    engaged: Option<EntityId>,
    occupant: Option<(EntityId, u64)>,
    default_travel_cost: u64,
) -> (c: u64)
    ensures
        c == spec_step_cost(engaged, occupant, default_travel_cost),
{
    match occupant {
        None => default_travel_cost,
        Some((e, fight)) => {
            let same = match engaged {
                Some(t) => t == e,
                None => false,
            };
            if same {
                default_travel_cost
            } else {
                fight
            }
        },
    }
}

/// Sum of the entries of a status array.
pub(crate) open spec fn sum8(s: Seq<u8>) -> int
    decreases s.len(),
{
    if s.len() == 0 {
        0
    } else {
        sum8(s.drop_last()) + s.last()
    }
}

pub(crate) proof fn lemma_sum8_update(s: Seq<u8>, i: int, v: u8)
    requires
        0 <= i < s.len(),
    ensures
        sum8(s.update(i, v)) == sum8(s) - s[i] + v,
    decreases s.len(),
{
    let t = s.update(i, v);
    if i == s.len() - 1 {
        assert(t.drop_last() =~= s.drop_last());
        assert(t.last() == v);
    } else {
        assert(t.drop_last() =~= s.drop_last().update(i, v));
        assert(t.last() == s.last());
        lemma_sum8_update(s.drop_last(), i, v);
    }
}

pub(crate) proof fn lemma_sum8_bounds(s: Seq<u8>)
    requires
        forall|k: int| 0 <= k < s.len() ==> s[k] <= 2,
    ensures
        0 <= sum8(s) <= 2 * s.len(),
    decreases s.len(),
{
    if s.len() > 0 {
        lemma_sum8_bounds(s.drop_last());
    }
}

/// The in-bounds position whose row-major index is `i`.
pub fn pos_of_index(i: usize) -> (p: GridPos)
    requires
        i < N_CELLS,
    ensures
        p.spec_inside(),
        cell_index(p) == i,
{
    let p = GridPos {
        row: (i / (COLUMNS as usize)) as isize,
        col: (i % (COLUMNS as usize)) as isize,
    };
    proof {
        vstd::arithmetic::div_mod::lemma_fundamental_div_mod(i as int, COLUMNS as int);
        vstd::arithmetic::div_mod::lemma_mod_bound(i as int, COLUMNS as int);
    }
    p
}

/// Whether `p` occurs in `cells`.
pub fn pos_list_contains(cells: &Vec<GridPos>, p: &GridPos) -> (r: bool)
    ensures
        r == cells@.contains(*p),
{
    let mut k: usize = 0;
    while k < cells.len()
        invariant
            k <= cells.len(),
            forall|m: int| 0 <= m < k ==> cells@[m] != *p,
        decreases cells.len() - k,
    {
        if cells[k] == *p {
            return true;
        }
        k = k + 1;
    }
    false
}

/// The chain `ch` leads from `start` to the cell `dest`.
pub open spec fn chain_to(start: GridPos, ch: Seq<GridPos>, dest: GridPos) -> bool {
    chain_ok(start, ch) && if ch.len() == 0 {
        dest == start
    } else {
        ch.last() == dest
    }
}

/// No cell carries a tower: every step costs the default travel cost.
pub open spec fn no_towers(towers: Seq<Option<(EntityId, u64)>>) -> bool {
    forall|k: int| 0 <= k < towers.len() ==> (#[trigger] towers[k]) is None
}

/// The least goal distance is never negative.
pub(crate) proof fn lemma_min_goal_dist_nonneg(p: GridPos, goals: Seq<GridPos>)
    requires
        goals.len() > 0,
    ensures
        GridPos::min_goal_dist(p, goals) >= 0,
{
    GridPos::lemma_min_goal_dist_properties(p, goals);
    let k = choose|k: int|
        0 <= k < goals.len() && manhattan(p, #[trigger] goals[k]) == GridPos::min_goal_dist(
            p,
            goals,
        );
    assert(manhattan(p, goals[k]) >= 0);
}

/// A goal cell is at distance zero from the goal set.
pub(crate) proof fn lemma_min_goal_dist_zero_at_goal(g: GridPos, goals: Seq<GridPos>)
    requires
        goals.contains(g),
    ensures
        GridPos::min_goal_dist(g, goals) == 0,
{
    lemma_min_goal_dist_nonneg(g, goals);
    GridPos::lemma_min_goal_dist_properties(g, goals);
    let k = choose|k: int| 0 <= k < goals.len() && goals[k] == g;
    assert(manhattan(g, goals[k]) == 0);
    assert(manhattan(g, goals[k]) >= GridPos::min_goal_dist(g, goals));
}

/// Moving by one cell changes the least goal distance by at most the
/// distance moved.
pub(crate) proof fn lemma_min_goal_dist_triangle(a: GridPos, b: GridPos, goals: Seq<GridPos>)
    requires
        goals.len() > 0,
    ensures
        GridPos::min_goal_dist(a, goals) <= manhattan(a, b) + GridPos::min_goal_dist(b, goals),
{
    GridPos::lemma_min_goal_dist_properties(b, goals);
    let k = choose|k: int|
        0 <= k < goals.len() && manhattan(b, #[trigger] goals[k]) == GridPos::min_goal_dist(
            b,
            goals,
        );
    GridPos::lemma_min_goal_dist_properties(a, goals);
    assert(manhattan(a, goals[k]) >= GridPos::min_goal_dist(a, goals));
    assert(manhattan(a, goals[k]) <= manhattan(a, b) + manhattan(b, goals[k]));
}

/// Along a chain, the least goal distance at position `j` is at most the
/// number of remaining steps plus the distance at the chain's end.
#[verifier::spinoff_prover]
#[verifier::rlimit(100)]
pub(crate) proof fn lemma_h_telescope(
    start: GridPos,
    goals: Seq<GridPos>,
    ch: Seq<GridPos>,
    j: int,
)
    requires
        goals.len() > 0,
        chain_ok(start, ch),
        0 <= j < ch.len(),
    ensures
        GridPos::min_goal_dist(ch[j], goals) <= (ch.len() - 1 - j) + GridPos::min_goal_dist(
            ch.last(),
            goals,
        ),
    decreases ch.len() - j,
{
    if j < ch.len() - 1 {
        lemma_h_telescope(start, goals, ch, j + 1);
        assert(step_ok(ch[j + 1 - 1], ch[j + 1]));
        lemma_min_goal_dist_triangle(ch[j], ch[j + 1], goals);
    }
}

/// A prefix of a chain is a chain to the cell before the cut.
pub(crate) proof fn lemma_chain_take(start: GridPos, ch: Seq<GridPos>, j: int)
    requires
        chain_ok(start, ch),
        1 <= j <= ch.len(),
    ensures
        chain_to(start, ch.take(j), ch[j - 1]),
{
    let pre = ch.take(j);
    assert forall|i: int| 0 <= i < pre.len() implies step_ok(
        if i == 0 {
            start
        } else {
            pre[i - 1]
        },
        #[trigger] pre[i],
    ) by {
        assert(pre[i] == ch[i]);
        if i > 0 {
            assert(pre[i - 1] == ch[i - 1]);
        }
        assert(step_ok(
            if i == 0 {
                start
            } else {
                ch[i - 1]
            },
            ch[i],
        ));
    }
    assert(pre.last() == ch[j - 1]);
}

/// The first chain position not yet closed by the search.
pub(crate) proof fn lemma_first_unclosed(status: Seq<u8>, ch: Seq<GridPos>, lo: int) -> (j: int)
    requires
        status.len() == N_CELLS,
        0 <= lo < ch.len(),
        status[cell_index(ch[ch.len() - 1])] != 2,
        forall|i: int| 0 <= i < lo ==> status[cell_index(#[trigger] ch[i])] == 2,
    ensures
        lo <= j < ch.len(),
        status[cell_index(ch[j])] != 2,
        forall|i: int| 0 <= i < j ==> status[cell_index(#[trigger] ch[i])] == 2,
    decreases ch.len() - lo,
{
    if status[cell_index(ch[lo])] != 2 {
        lo
    } else {
        lemma_first_unclosed(status, ch, lo + 1)
    }
}

/// The tower a mover standing on `a` is fighting: the occupant of `a`,
/// except that nothing is engaged on the start cell.
pub open spec fn engaged_at(
    start: GridPos,
    towers: Seq<Option<(EntityId, u64)>>,
    a: GridPos,
) -> Option<EntityId> {
    if a == start {
        None
    } else {
        match tower_cost_at(towers, a) {
            Some(t) => Some(t.0),
            None => None,
        }
    }
}

/// Cost of the move from `a` onto `b` under the cost model, including the
/// same-tower discount.
pub open spec fn edge_cost(
    start: GridPos,
    towers: Seq<Option<(EntityId, u64)>>,
    d: u64,
    a: GridPos,
    b: GridPos,
) -> int {
    spec_step_cost(engaged_at(start, towers, a), tower_cost_at(towers, b), d) as int
}

/// Accumulated cost of walking the chain `ch` from `start`.
pub open spec fn chain_cost(
    start: GridPos,
    towers: Seq<Option<(EntityId, u64)>>,
    d: u64,
    ch: Seq<GridPos>,
) -> int
    decreases ch.len(),
{
    if ch.len() == 0 {
        0
    } else {
        chain_cost(start, towers, d, ch.drop_last()) + edge_cost(
            start,
            towers,
            d,
            if ch.len() == 1 {
                start
            } else {
                ch[ch.len() - 2]
            },
            ch.last(),
        )
    }
}

/// Accumulated cost of consuming a stored route (goal first, next step
/// last) starting from the cell `o`: waypoints are taken from the end.
pub open spec fn route_cost_from(
    start: GridPos,
    towers: Seq<Option<(EntityId, u64)>>,
    d: u64,
    o: GridPos,
    r: Seq<GridPos>,
) -> int
    decreases r.len(),
{
    if r.len() == 0 {
        0
    } else {
        edge_cost(start, towers, d, o, r.last()) + route_cost_from(
            start,
            towers,
            d,
            r.last(),
            r.drop_last(),
        )
    }
}

/// Accumulated cost of a returned route, walked from the start.
pub open spec fn route_cost(
    start: GridPos,
    towers: Seq<Option<(EntityId, u64)>>,
    d: u64,
    r: Seq<GridPos>,
) -> int {
    route_cost_from(start, towers, d, start, r)
}

/// Every tower's fight-through cost is at least the default travel cost:
/// per-step costs never undercut the travel unit, the admissibility
/// requirement of the cost model.
pub open spec fn tower_costs_floored(towers: Seq<Option<(EntityId, u64)>>, d: u64) -> bool {
    forall|k: int|
        0 <= k < towers.len() ==> ((#[trigger] towers[k]) matches Some(t) ==> t.1 >= d)
}

/// With floored tower costs, no move costs less than the default.
pub(crate) proof fn lemma_edge_cost_floored(
    start: GridPos,
    towers: Seq<Option<(EntityId, u64)>>,
    d: u64,
    a: GridPos,
    b: GridPos,
)
    requires
        tower_costs_floored(towers, d),
    ensures
        edge_cost(start, towers, d, a, b) >= d,
{
    match tower_cost_at(towers, b) {
        Some(t) => {
            assert(towers[cell_index(b)] matches Some(u) && u.1 >= d);
        },
        None => {},
    }
}

/// Extending a chain's walked prefix by one step adds that step's cost.
pub(crate) proof fn lemma_chain_cost_prefix(
    start: GridPos,
    towers: Seq<Option<(EntityId, u64)>>,
    d: u64,
    ch: Seq<GridPos>,
    j: int,
)
    requires
        0 <= j < ch.len(),
    ensures
        chain_cost(start, towers, d, ch.take(j + 1)) == chain_cost(start, towers, d, ch.take(j))
            + edge_cost(
            start,
            towers,
            d,
            if j == 0 {
                start
            } else {
                ch[j - 1]
            },
            ch[j],
        ),
{
    let p = ch.take(j + 1);
    assert(p.drop_last() =~= ch.take(j));
    assert(p.last() == ch[j]);
    if j > 0 {
        assert(p[j - 1] == ch[j - 1]);
    }
}

/// With floored costs of at least one unit, the remaining steps of a chain
/// cost at least one each.
pub(crate) proof fn lemma_chain_cost_suffix_bound(
    start: GridPos,
    towers: Seq<Option<(EntityId, u64)>>,
    d: u64,
    ch: Seq<GridPos>,
    j: int,
)
    requires
        tower_costs_floored(towers, d),
        d >= 1,
        0 <= j <= ch.len(),
    ensures
        chain_cost(start, towers, d, ch) >= chain_cost(start, towers, d, ch.take(j)) + (ch.len()
            - j),
    decreases ch.len() - j,
{
    if j == ch.len() {
        assert(ch.take(j) =~= ch);
    } else {
        lemma_chain_cost_suffix_bound(start, towers, d, ch, j + 1);
        lemma_chain_cost_prefix(start, towers, d, ch, j);
        lemma_edge_cost_floored(
            start,
            towers,
            d,
            if j == 0 {
                start
            } else {
                ch[j - 1]
            },
            ch[j],
        );
    }
}

/// Without towers every move costs the default, so a chain costs its length
/// times the default.
pub(crate) proof fn lemma_no_towers_chain_cost(
    start: GridPos,
    towers: Seq<Option<(EntityId, u64)>>,
    d: u64,
    ch: Seq<GridPos>,
)
    requires
        no_towers(towers),
    ensures
        chain_cost(start, towers, d, ch) == d * ch.len(),
    decreases ch.len(),
{
    if ch.len() == 0 {
    } else {
        lemma_no_towers_chain_cost(start, towers, d, ch.drop_last());
        assert(tower_cost_at(towers, ch.last()) is None);
        assert(d * ch.len() == d * (ch.len() - 1) + d) by (nonlinear_arith);
    }
}

/// Without towers a stored route likewise costs its length times the
/// default.
pub(crate) proof fn lemma_no_towers_route_cost(
    start: GridPos,
    towers: Seq<Option<(EntityId, u64)>>,
    d: u64,
    o: GridPos,
    r: Seq<GridPos>,
)
    requires
        no_towers(towers),
    ensures
        route_cost_from(start, towers, d, o, r) == d * r.len(),
    decreases r.len(),
{
    if r.len() == 0 {
    } else {
        lemma_no_towers_route_cost(start, towers, d, r.last(), r.drop_last());
        assert(tower_cost_at(towers, r.last()) is None);
        assert(d * r.len() == d * (r.len() - 1) + d) by (nonlinear_arith);
    }
}

/// All tower fight-through costs handed to the search are capped.
pub open spec fn tower_costs_capped(towers: Seq<Option<(EntityId, u64)>>) -> bool {
    forall|k: int|
        0 <= k < towers.len() ==> ((#[trigger] towers[k]) matches Some(t) ==> t.1 <= COST_CAP)
}

/// Search node state per cell: 0 undiscovered, 1 open, 2 closed.
pub(crate) open spec fn status_range_inv(status: Seq<u8>) -> bool {
    forall|k: int| 0 <= k < status.len() ==> (#[trigger] status[k]) <= 2
}

/// Every discovered cell other than the start was reached by one legal move
/// from its recorded parent, and that parent is closed.
pub(crate) open spec fn tree_inv(
    status: Seq<u8>,
    info: Seq<(u64, u64, GridPos)>,
    start: GridPos,
) -> bool {
    forall|p: GridPos|
        (p.spec_inside() && #[trigger] status[cell_index(p)] >= 1 && p != start) ==> {
            let par = info[cell_index(p)].2;
            &&& par.spec_inside()
            &&& step_ok(par, p)
            &&& status[cell_index(par)] == 2
        }
}

/// Accumulated costs stay below a bound that grows with the search, keeping
/// all additions well inside the integer range.
pub(crate) open spec fn gbound_inv(status: Seq<u8>, info: Seq<(u64, u64, GridPos)>) -> bool {
    forall|p: GridPos|
        (p.spec_inside() && #[trigger] status[cell_index(p)] >= 1) ==> info[cell_index(p)].0
            <= sum8(status) * COST_CAP
}

/// Every legal move out of a closed cell leads to a discovered cell.
pub(crate) open spec fn frontier_inv(status: Seq<u8>) -> bool {
    forall|p: GridPos, q: GridPos|
        (p.spec_inside() && #[trigger] status[cell_index(p)] == 2 && step_ok(p, q))
            ==> status[#[trigger] cell_index(q)] >= 1
}

/// The ghost closing order: exactly the closed cells carry a timestamp, all
/// timestamps are in the past, and parents close strictly before children.
pub(crate) open spec fn time_inv(
    status: Seq<u8>,
    info: Seq<(u64, u64, GridPos)>,
    time: Map<GridPos, nat>,
    tick: nat,
    start: GridPos,
) -> bool {
    &&& forall|p: GridPos| #[trigger]
        time.contains_key(p) ==> p.spec_inside() && status[cell_index(p)] == 2
    &&& forall|p: GridPos|
        (p.spec_inside() && #[trigger] status[cell_index(p)] == 2) ==> time.contains_key(p)
    &&& forall|p: GridPos| #[trigger] time.contains_key(p) ==> time[p] < tick
    &&& forall|p: GridPos|
        (p.spec_inside() && #[trigger] status[cell_index(p)] == 2 && p != start)
            ==> time.contains_key(info[cell_index(p)].2) && time[info[cell_index(p)].2] < time[p]
}

/// Every discovered cell's f-value is its g-value plus its least goal
/// distance.
pub(crate) open spec fn f_inv(
    status: Seq<u8>,
    info: Seq<(u64, u64, GridPos)>,
    goals: Seq<GridPos>,
) -> bool {
    forall|p: GridPos|
        (p.spec_inside() && #[trigger] status[cell_index(p)] >= 1) ==> info[cell_index(p)].1
            == info[cell_index(p)].0 + GridPos::min_goal_dist(p, goals)
}

/// Every discovered cell's g-value is its parent's plus the cost of the
/// move from the parent onto it.
pub(crate) open spec fn parent_g_inv(
    status: Seq<u8>,
    info: Seq<(u64, u64, GridPos)>,
    start: GridPos,
    towers: Seq<Option<(EntityId, u64)>>,
    d: u64,
) -> bool {
    forall|p: GridPos|
        (p.spec_inside() && #[trigger] status[cell_index(p)] >= 1 && p != start) ==> info[cell_index(
            p,
        )].0 == info[cell_index(info[cell_index(p)].2)].0 + edge_cost(
            start,
            towers,
            d,
            info[cell_index(p)].2,
            p,
        )
}

/// Every open neighbor of a closed cell has been relaxed through it.
pub(crate) open spec fn relax_bound_inv(
    status: Seq<u8>,
    info: Seq<(u64, u64, GridPos)>,
    start: GridPos,
    towers: Seq<Option<(EntityId, u64)>>,
    d: u64,
) -> bool {
    forall|c: GridPos, q: GridPos|
        (c.spec_inside() && #[trigger] status[cell_index(c)] == 2 && step_ok(c, q) && status[
        #[trigger] cell_index(q)] == 1) ==> info[cell_index(q)].0 <= info[cell_index(c)].0
            + edge_cost(start, towers, d, c, q)
}

/// Closed cells carry an optimal g-value: no chain from the start beats it.
pub(crate) open spec fn closed_opt_inv(
    status: Seq<u8>,
    info: Seq<(u64, u64, GridPos)>,
    start: GridPos,
    towers: Seq<Option<(EntityId, u64)>>,
    d: u64,
) -> bool {
    forall|c: GridPos, chc: Seq<GridPos>|
        (c.spec_inside() && status[cell_index(c)] == 2 && #[trigger] chain_to(start, chc, c))
            ==> info[cell_index(c)].0 <= chain_cost(start, towers, d, chc)
}

/// Until the start is closed, nothing else has been discovered.
pub(crate) open spec fn lone_start_inv(status: Seq<u8>, start: GridPos) -> bool {
    status[cell_index(start)] != 2 ==> forall|k: int|
        0 <= k < N_CELLS && k != cell_index(start) ==> status[k] == 0
}

/// Overwrite the status entry of the in-bounds cell `p`.
pub(crate) fn set_status(status: &mut Vec<u8>, p: &GridPos, v: u8)
    requires
        old(status).len() == N_CELLS,
        p.spec_inside(),
    ensures
        final(status)@ == old(status)@.update(cell_index(*p), v),
        final(status).len() == N_CELLS,
        final(status)@[cell_index(*p)] == v,
        forall|k: int|
            0 <= k < N_CELLS && k != cell_index(*p) ==> final(status)@[k] == old(status)@[k],
        forall|q: GridPos|
            q.spec_inside() && q != *p ==> final(status)@[cell_index(q)] == old(status)@[cell_index(
                q,
            )],
    {
    let i = index_of(p);
    status.set(i, v);
    proof {
        assert forall|q: GridPos| q.spec_inside() && q != *p implies status@[cell_index(q)] == old(
            status,
        )@[cell_index(q)] by {
            if cell_index(q) == cell_index(*p) {
                crate::grid::lemma_cell_index_injective(q, *p);
            }
        }
    }
}

/// Overwrite the (g, f, parent) record of the in-bounds cell `p`.
pub(crate) fn set_info(info: &mut Vec<(u64, u64, GridPos)>, p: &GridPos, v: (u64, u64, GridPos))
    requires
        old(info).len() == N_CELLS,
        p.spec_inside(),
    ensures
        final(info)@ == old(info)@.update(cell_index(*p), v),
        final(info).len() == N_CELLS,
        final(info)@[cell_index(*p)] == v,
        forall|k: int| 0 <= k < N_CELLS && k != cell_index(*p) ==> final(info)@[k] == old(info)@[k],
        forall|q: GridPos|
            q.spec_inside() && q != *p ==> final(info)@[cell_index(q)] == old(info)@[cell_index(q)],
    {
    let i = index_of(p);
    info.set(i, v);
    proof {
        assert forall|q: GridPos| q.spec_inside() && q != *p implies info@[cell_index(q)] == old(
            info,
        )@[cell_index(q)] by {
            if cell_index(q) == cell_index(*p) {
                crate::grid::lemma_cell_index_injective(q, *p);
            }
        }
    }
}

/// The open cell with the least f-value; ties go to the lowest cell index,
/// which fixes the search's tie-break deterministically.
pub(crate) fn select_open(status: &Vec<u8>, info: &Vec<(u64, u64, GridPos)>) -> (r: Option<usize>)
    requires
        status.len() == N_CELLS,
        info.len() == N_CELLS,
    ensures
        r matches Some(i) ==> {
            &&& i < N_CELLS
            &&& status@[i as int] == 1
            &&& forall|k: int|
                0 <= k < N_CELLS && status@[k] == 1 ==> (#[trigger] info@[k]).1 >= info@[i as int].1
            &&& forall|k: int|
                0 <= k < i ==> status@[k] == 1 ==> (#[trigger] info@[k]).1 > info@[i as int].1
        },
        r is None ==> forall|k: int| 0 <= k < N_CELLS ==> (#[trigger] status@[k]) != 1,
{
    let mut best: Option<usize> = None;
    let mut k: usize = 0;
    while k < N_CELLS
        invariant
            k <= N_CELLS,
            status.len() == N_CELLS,
            info.len() == N_CELLS,
            best matches Some(i) ==> {
                &&& i < k
                &&& status@[i as int] == 1
                &&& forall|m: int|
                    0 <= m < k && status@[m] == 1 ==> (#[trigger] info@[m]).1 >= info@[i as int].1
                &&& forall|m: int|
                    0 <= m < i ==> status@[m] == 1 ==> (#[trigger] info@[m]).1 > info@[i as int].1
            },
            best is None ==> forall|m: int| 0 <= m < k ==> (#[trigger] status@[m]) != 1,
        decreases N_CELLS - k,
    {
        if status[k] == 1 {
            let better = match best {
                Some(i) => info[k].1 < info[i].1,
                None => true,
            };
            if better {
                best = Some(k);
            }
        }
        k = k + 1;
    }
    best
}

/// Walking any legal chain from a closed start over a frontier-closed,
/// open-set-empty search keeps every visited cell closed.
pub(crate) proof fn lemma_chain_closed(status: Seq<u8>, start: GridPos, p: Seq<GridPos>, n: int)
    requires
        status.len() == N_CELLS,
        start.spec_inside(),
        status[cell_index(start)] == 2,
        chain_ok(start, p),
        0 <= n <= p.len(),
        frontier_inv(status),
        forall|k: int| 0 <= k < N_CELLS ==> (#[trigger] status[k]) != 1,
        status_range_inv(status),
    ensures
        forall|i: int|
            0 <= i < n ==> status[cell_index(#[trigger] p[i])] == 2 && p[i].spec_inside(),
    decreases n,
{
    if n > 0 {
        lemma_chain_closed(status, start, p, n - 1);
        let prev = if n == 1 {
            start
        } else {
            p[n - 2]
        };
        assert(step_ok(prev, p[n - 1]));
        assert(status[cell_index(p[n - 1])] >= 1);
    }
}

/// When the open cell `t` carries the least f-value, any chain from the
/// start bounds it: `f(t) <= cost(chain) + h(chain end)`. This is the heart
/// of the optimality argument; it needs every step to cost at least one
/// travel unit, which the floored cost model guarantees.
#[verifier::spinoff_prover]
#[verifier::rlimit(100)]
pub(crate) proof fn lemma_pop_bound(
    status: Seq<u8>,
    info: Seq<(u64, u64, GridPos)>,
    start: GridPos,
    goals: Seq<GridPos>,
    towers: Seq<Option<(EntityId, u64)>>,
    d: u64,
    t: GridPos,
    ch: Seq<GridPos>,
    dest: GridPos,
)
    requires
        status.len() == N_CELLS,
        info.len() == N_CELLS,
        start.spec_inside(),
        goals.len() > 0,
        tower_costs_floored(towers, d),
        d >= 1,
        t.spec_inside(),
        status[cell_index(t)] == 1,
        chain_to(start, ch, dest),
        ch.len() > 0 || status[cell_index(start)] != 2,
        status[cell_index(dest)] != 2,
        status_range_inv(status),
        frontier_inv(status),
        status[cell_index(start)] >= 1,
        info[cell_index(start)].0 == 0,
        status[cell_index(start)] != 2 ==> forall|k: int|
            0 <= k < N_CELLS && k != cell_index(start) ==> status[k] == 0,
        f_inv(status, info, goals),
        closed_opt_inv(status, info, start, towers, d),
        relax_bound_inv(status, info, start, towers, d),
        forall|k: int|
            0 <= k < N_CELLS && status[k] == 1 ==> (#[trigger] info[k]).1 >= info[cell_index(t)].1,
    ensures
        info[cell_index(t)].1 <= chain_cost(start, towers, d, ch) + GridPos::min_goal_dist(
            dest,
            goals,
        ),
{
    let len = ch.len() as int;
    if status[cell_index(start)] != 2 {
        assert(t == start) by {
            if t != start {
                if cell_index(t) == cell_index(start) {
                    crate::grid::lemma_cell_index_injective(t, start);
                } else {
                    assert(status[cell_index(t)] == 0);
                }
            }
        }
        assert(info[cell_index(t)].1 == GridPos::min_goal_dist(start, goals));
        if len == 0 {
            assert(dest == start);
        } else {
            lemma_h_telescope(start, goals, ch, 0);
            assert(step_ok(start, ch[0]));
            lemma_min_goal_dist_triangle(start, ch[0], goals);
            assert(GridPos::min_goal_dist(start, goals) <= len + GridPos::min_goal_dist(
                dest,
                goals,
            ));
            lemma_chain_cost_suffix_bound(start, towers, d, ch, 0);
            assert(ch.take(0).len() == 0);
        }
    } else {
        assert(len > 0);
        assert(ch[len - 1] == dest);
        let j = lemma_first_unclosed(status, ch, 0);
        let prev = if j == 0 {
            start
        } else {
            ch[j - 1]
        };
        assert(step_ok(prev, ch[j]));
        assert(prev.spec_inside()) by {
            if j > 0 {
                assert(step_ok(
                    if j - 1 == 0 {
                        start
                    } else {
                        ch[j - 2]
                    },
                    ch[j - 1],
                ));
            }
        }
        assert(status[cell_index(prev)] == 2);
        assert(status[cell_index(ch[j])] >= 1);
        assert(status[cell_index(ch[j])] == 1);
        assert(info[cell_index(prev)].0 <= chain_cost(start, towers, d, ch.take(j))) by {
            if j > 0 {
                lemma_chain_take(start, ch, j);
                assert(chain_to(start, ch.take(j), ch[j - 1]));
            } else {
                assert(ch.take(0).len() == 0);
            }
        }
        assert(info[cell_index(ch[j])].0 <= info[cell_index(prev)].0 + edge_cost(
            start,
            towers,
            d,
            prev,
            ch[j],
        ));
        lemma_h_telescope(start, goals, ch, j);
        assert(info[cell_index(ch[j])].1 == info[cell_index(ch[j])].0 + GridPos::min_goal_dist(
            ch[j],
            goals,
        ));
        assert(info[cell_index(t)].1 <= info[cell_index(ch[j])].1);
        lemma_chain_cost_prefix(start, towers, d, ch, j);
        lemma_chain_cost_suffix_bound(start, towers, d, ch, j + 1);
    }
}

/// Consider the move from the closed cell `tpos` onto the candidate cell at/// Consider the move from the closed cell `tpos` onto the candidate cell at
/// `(qrow, qcol)`: if that cell is on the field and not yet closed, discover
/// it or improve its tentative cost, recording `tpos` as its parent.
#[verifier::rlimit(30)]
pub(crate) fn relax(
    status: &mut Vec<u8>,
    info: &mut Vec<(u64, u64, GridPos)>,
    towers: &Vec<Option<(EntityId, u64)>>,
    goals: &Vec<GridPos>,
    default_travel_cost: u64,
    tpos: GridPos,
    qrow: isize,
    qcol: isize,
    engaged: Option<EntityId>,
    g_t: u64,
    start: Ghost<GridPos>,
    time: Ghost<Map<GridPos, nat>>,
    tick: Ghost<nat>,
    base_status: Ghost<Seq<u8>>,
    base_info: Ghost<Seq<(u64, u64, GridPos)>>,
    done: Ghost<Seq<GridPos>>,
)
    requires
        old(status).len() == N_CELLS,
        old(info).len() == N_CELLS,
        towers.len() == N_CELLS,
        goals.len() > 0,
        forall|k: int| 0 <= k < goals.len() ==> (#[trigger] goals[k]).spec_inside(),
        default_travel_cost <= COST_CAP,
        tower_costs_capped(towers@),
        tpos.spec_inside(),
        old(status)@[cell_index(tpos)] == 2,
        manhattan(tpos, GridPos { row: qrow, col: qcol }) == 1,
        g_t + COST_CAP <= sum8(old(status)@) * COST_CAP,
        g_t == old(info)@[cell_index(tpos)].0,
        engaged == engaged_at(start@, towers@, tpos),
        base_status@.len() == N_CELLS,
        base_info@.len() == N_CELLS,
        base_status@[cell_index(tpos)] == 2,
        g_t == base_info@[cell_index(tpos)].0,
        forall|k: int| 0 <= k < N_CELLS ==> (#[trigger] old(status)@[k]) >= base_status@[k],
        forall|k: int|
            0 <= k < N_CELLS ==> ((#[trigger] old(status)@[k]) == 2 <==> base_status@[k] == 2),
        forall|k: int|
            0 <= k < N_CELLS && base_status@[k] == 2 ==> (#[trigger] old(status)@[k])
                == base_status@[k],
        forall|k: int|
            0 <= k < N_CELLS && base_status@[k] == 2 ==> (#[trigger] old(info)@[k])
                == base_info@[k],
        forall|k: int|
            0 <= k < N_CELLS && base_status@[k] == 1 ==> (#[trigger] old(status)@[k]) == 1,
        forall|k: int|
            0 <= k < N_CELLS && base_status@[k] == 1 ==> (#[trigger] old(info)@[k]).0
                <= base_info@[k].0,
        forall|q: GridPos|
            (done@.contains(q) && #[trigger] step_ok(tpos, q) && base_status@[cell_index(q)] != 2)
                ==> old(status)@[cell_index(q)] == 1 && old(info)@[cell_index(q)].0 <= g_t
                + edge_cost(start@, towers@, default_travel_cost, tpos, q),
        status_range_inv(old(status)@),
        tree_inv(old(status)@, old(info)@, start@),
        gbound_inv(old(status)@, old(info)@),
        time_inv(old(status)@, old(info)@, time@, tick@, start@),
        f_inv(old(status)@, old(info)@, goals@),
        parent_g_inv(old(status)@, old(info)@, start@, towers@, default_travel_cost),
    ensures
        final(status).len() == N_CELLS,
        final(info).len() == N_CELLS,
        // only the candidate cell can change, and never away from closed
        forall|k: int|
            0 <= k < N_CELLS && k != cell_index(GridPos { row: qrow, col: qcol }) ==> (
            #[trigger] final(status)@[k]) == old(status)@[k],
        forall|k: int|
            0 <= k < N_CELLS && k != cell_index(GridPos { row: qrow, col: qcol }) ==> (
            #[trigger] final(info)@[k]) == old(info)@[k],
        forall|k: int|
            0 <= k < N_CELLS ==> (#[trigger] final(status)@[k]) >= old(status)@[k],
        forall|k: int|
            0 <= k < N_CELLS ==> (((#[trigger] final(status)@[k]) == 2) <==> old(status)@[k] == 2),
        sum8(final(status)@) >= sum8(old(status)@),
        // the candidate, when on the field, ends up discovered
        (GridPos { row: qrow, col: qcol }).spec_inside() ==> final(status)@[cell_index(
            GridPos { row: qrow, col: qcol },
        )] >= 1,
        status_range_inv(final(status)@),
        tree_inv(final(status)@, final(info)@, start@),
        gbound_inv(final(status)@, final(info)@),
        time_inv(final(status)@, final(info)@, time@, tick@, start@),
        forall|k: int|
            0 <= k < N_CELLS && old(status)@[k] == 2 ==> (#[trigger] final(status)@[k]) == old(
                status,
            )@[k],
        forall|k: int|
            0 <= k < N_CELLS && old(status)@[k] == 2 ==> (#[trigger] final(info)@[k]) == old(
                info,
            )@[k],
        forall|k: int|
            0 <= k < N_CELLS && old(status)@[k] == 1 ==> (#[trigger] final(info)@[k]).0 <= old(
                info,
            )@[k].0,
        f_inv(final(status)@, final(info)@, goals@),
        parent_g_inv(final(status)@, final(info)@, start@, towers@, default_travel_cost),
        forall|k: int| 0 <= k < N_CELLS ==> (#[trigger] final(status)@[k]) >= base_status@[k],
        forall|k: int|
            0 <= k < N_CELLS ==> ((#[trigger] final(status)@[k]) == 2 <==> base_status@[k] == 2),
        forall|k: int|
            0 <= k < N_CELLS && base_status@[k] == 2 ==> (#[trigger] final(status)@[k])
                == base_status@[k],
        forall|k: int|
            0 <= k < N_CELLS && base_status@[k] == 2 ==> (#[trigger] final(info)@[k])
                == base_info@[k],
        forall|k: int|
            0 <= k < N_CELLS && base_status@[k] == 1 ==> (#[trigger] final(status)@[k]) == 1,
        forall|k: int|
            0 <= k < N_CELLS && base_status@[k] == 1 ==> (#[trigger] final(info)@[k]).0
                <= base_info@[k].0,
        forall|q: GridPos|
            (done@.push(GridPos { row: qrow, col: qcol }).contains(q) && #[trigger] step_ok(
                tpos,
                q,
            ) && base_status@[cell_index(q)] != 2) ==> final(status)@[cell_index(q)] == 1
                && final(info)@[cell_index(q)].0 <= g_t + edge_cost(
                start@,
                towers@,
                default_travel_cost,
                tpos,
                q,
            ),
{
    let q = GridPos { row: qrow, col: qcol };
    proof {
        assert forall|p: GridPos| #[trigger] done@.push(q).contains(p) implies (p == q
            || done@.contains(p)) by {
            vstd::seq_lib::lemma_seq_contains_after_push(done@, q, p);
        }
        assert forall|p: GridPos| done@.contains(p) implies #[trigger] done@.push(q).contains(
            p,
        ) by {
            vstd::seq_lib::lemma_seq_contains_after_push(done@, q, p);
        }
    }
    if !q.inside_grid_bounds() {
        return ;
    }
    let qi = index_of(&q);
    if status[qi] == 2 {
        return ;
    }
    let occupant = towers[qi];
    let cost = step_cost(engaged, occupant, default_travel_cost);
    proof {
        assert(cost <= COST_CAP);
        lemma_sum8_bounds(old(status)@);
        let s0 = sum8(old(status)@);
        assert(s0 * COST_CAP <= 5600 * COST_CAP) by (nonlinear_arith)
            requires
                0 <= s0 <= 5600,
                COST_CAP == 0x1_0000_0000,
            ;
    }
    let ng = g_t + cost;
    proof {
        assert(occupant == tower_cost_at(towers@, q));
        assert(cost == edge_cost(start@, towers@, default_travel_cost, tpos, q));
    }
    if status[qi] == 0 || ng < info[qi].0 {
        let h = q.distance_to_closest(goals);
        proof {
            GridPos::lemma_min_goal_dist_properties(q, goals@);
            let k = choose|k: int|
                0 <= k < goals@.len() && manhattan(q, #[trigger] goals@[k])
                    == GridPos::min_goal_dist(q, goals@);
            assert(manhattan(q, goals@[k]) <= 110);
        }
        let nf = ng + (h as u64);
        let ghost pre_status = status@;
        if status[qi] == 0 {
            set_status(status, &q, 1);
            proof {
                lemma_sum8_update(pre_status, cell_index(q), 1);
            }
        }
        set_info(info, &q, (ng, nf, tpos));
        proof {
            assert(sum8(status@) >= sum8(old(status)@)) by {
                if status@ != old(status)@ {
                    lemma_sum8_update(pre_status, cell_index(q), 1);
                }
            }
            let s0 = sum8(old(status)@);
            let s1 = sum8(status@);
            assert(s0 * COST_CAP <= s1 * COST_CAP) by (nonlinear_arith)
                requires
                    s0 <= s1,
                    COST_CAP > 0,
                ;
            assert forall|p: GridPos|
                (p.spec_inside() && #[trigger] status@[cell_index(p)] >= 1 && p != start@) implies {
                let par = info@[cell_index(p)].2;
                &&& par.spec_inside()
                &&& step_ok(par, p)
                &&& status@[cell_index(par)] == 2
            } by {
                if p == q {
                    assert(info@[cell_index(q)].2 == tpos);
                    assert(status@[cell_index(tpos)] == old(status)@[cell_index(tpos)]);
                } else {
                    if cell_index(p) == cell_index(q) {
                        crate::grid::lemma_cell_index_injective(p, q);
                    }
                    assert(status@[cell_index(p)] == old(status)@[cell_index(p)]);
                    assert(info@[cell_index(p)] == old(info)@[cell_index(p)]);
                    let par = old(info)@[cell_index(p)].2;
                    assert(status@[cell_index(par)] == old(status)@[cell_index(par)]);
                }
            }
            assert forall|p: GridPos|
                (p.spec_inside() && #[trigger] status@[cell_index(p)] >= 1) implies info@[cell_index(
                p,
            )].0 <= sum8(status@) * COST_CAP by {
                if p == q {
                    assert(sum8(status@) >= sum8(old(status)@));
                } else {
                    if cell_index(p) == cell_index(q) {
                        crate::grid::lemma_cell_index_injective(p, q);
                    }
                    assert(info@[cell_index(p)] == old(info)@[cell_index(p)]);
                }
            }
            assert forall|p: GridPos|
                (p.spec_inside() && #[trigger] status@[cell_index(p)] == 2 && p != start@) implies
                time@.contains_key(info@[cell_index(p)].2) && time@[info@[cell_index(p)].2]
                < time@[p] by {
                assert(old(status)@[cell_index(p)] == 2);
                if cell_index(p) == cell_index(q) {
                    crate::grid::lemma_cell_index_injective(p, q);
                }
                assert(info@[cell_index(p)] == old(info)@[cell_index(p)]);
            }
            assert forall|p: GridPos|
                (p.spec_inside() && #[trigger] status@[cell_index(p)] >= 1) implies info@[cell_index(
                p,
            )].1 == info@[cell_index(p)].0 + GridPos::min_goal_dist(p, goals@) by {
                if p != q {
                    if cell_index(p) == cell_index(q) {
                        crate::grid::lemma_cell_index_injective(p, q);
                    }
                    assert(old(status)@[cell_index(p)] >= 1);
                    assert(info@[cell_index(p)] == old(info)@[cell_index(p)]);
                }
            }
            assert forall|p: GridPos|
                (p.spec_inside() && #[trigger] status@[cell_index(p)] >= 1 && p != start@) implies
                info@[cell_index(p)].0 == info@[cell_index(info@[cell_index(p)].2)].0 + edge_cost(
                start@,
                towers@,
                default_travel_cost,
                info@[cell_index(p)].2,
                p,
            ) by {
                if p == q {
                    assert(info@[cell_index(q)].2 == tpos);
                    assert(info@[cell_index(tpos)] == old(info)@[cell_index(tpos)]);
                } else {
                    if cell_index(p) == cell_index(q) {
                        crate::grid::lemma_cell_index_injective(p, q);
                    }
                    assert(old(status)@[cell_index(p)] >= 1);
                    assert(info@[cell_index(p)] == old(info)@[cell_index(p)]);
                    let par = old(info)@[cell_index(p)].2;
                    assert(old(status)@[cell_index(par)] == 2);
                    assert(info@[cell_index(par)] == old(info)@[cell_index(par)]);
                }
            }
        }
    }
}
/// Closing the popped open cell `tpos` and stamping it with the next tick
/// preserves the search invariants.
#[verifier::spinoff_prover]
#[verifier::rlimit(100)]
pub(crate) proof fn lemma_after_close(
    pre: Seq<u8>,
    status: Seq<u8>,
    info: Seq<(u64, u64, GridPos)>,
    time0: Map<GridPos, nat>,
    time: Map<GridPos, nat>,
    tick0: nat,
    tick: nat,
    start: GridPos,
    tpos: GridPos,
)
    requires
        pre.len() == N_CELLS,
        info.len() == N_CELLS,
        start.spec_inside(),
        tpos.spec_inside(),
        pre[cell_index(tpos)] == 1,
        status == pre.update(cell_index(tpos), 2),
        status_range_inv(pre),
        tree_inv(pre, info, start),
        gbound_inv(pre, info),
        time_inv(pre, info, time0, tick0, start),
        time == time0.insert(tpos, tick0),
        tick == tick0 + 1,
    ensures
        status_range_inv(status),
        tree_inv(status, info, start),
        gbound_inv(status, info),
        time_inv(status, info, time, tick, start),
        sum8(status) == sum8(pre) + 1,
        status[cell_index(start)] >= pre[cell_index(start)],
{
    lemma_sum8_update(pre, cell_index(tpos), 2);
    assert forall|p: GridPos| p.spec_inside() && p != tpos implies status[cell_index(p)]
        == pre[cell_index(p)] by {
        if cell_index(p) == cell_index(tpos) {
            crate::grid::lemma_cell_index_injective(p, tpos);
        }
    }
    assert forall|p: GridPos|
        (p.spec_inside() && #[trigger] status[cell_index(p)] >= 1 && p != start) implies {
        let par = info[cell_index(p)].2;
        &&& par.spec_inside()
        &&& step_ok(par, p)
        &&& status[cell_index(par)] == 2
    } by {
        assert(pre[cell_index(p)] >= 1);
        let par = info[cell_index(p)].2;
        assert(pre[cell_index(par)] == 2);
    }
    assert forall|p: GridPos| #[trigger] time.contains_key(p) implies p.spec_inside()
        && status[cell_index(p)] == 2 by {
        if p != tpos {
            assert(time0.contains_key(p));
        }
    }
    assert forall|p: GridPos|
        (p.spec_inside() && #[trigger] status[cell_index(p)] == 2 && p != start) implies
        time.contains_key(info[cell_index(p)].2) && time[info[cell_index(p)].2] < time[p] by {
        let par = info[cell_index(p)].2;
        if p == tpos {
            assert(pre[cell_index(par)] == 2);
            assert(par != tpos);
            assert(time0.contains_key(par));
            assert(time0[par] < tick0);
        } else {
            assert(pre[cell_index(p)] == 2);
            assert(pre[cell_index(par)] == 2);
            assert(par != tpos);
        }
    }
    assert forall|p: GridPos|
        (p.spec_inside() && #[trigger] status[cell_index(p)] >= 1) implies info[cell_index(p)].0
        <= sum8(status) * COST_CAP by {
        assert(pre[cell_index(p)] >= 1);
        let a = sum8(pre);
        let b = sum8(status);
        assert(a * COST_CAP <= b * COST_CAP) by (nonlinear_arith)
            requires
                a <= b,
                COST_CAP > 0,
            ;
    }
}

/// After expanding `tpos`, every open neighbor of a closed cell is again
/// within one relaxation step of it.
#[verifier::spinoff_prover]
#[verifier::rlimit(100)]
pub(crate) proof fn lemma_restore_relax_bound(
    pre_close: Seq<u8>,
    s0: Seq<u8>,
    i0: Seq<(u64, u64, GridPos)>,
    sf: Seq<u8>,
    iff: Seq<(u64, u64, GridPos)>,
    tpos: GridPos,
    start: GridPos,
    towers: Seq<Option<(EntityId, u64)>>,
    d: u64,
    g_t: u64,
)
    requires
        pre_close.len() == N_CELLS,
        s0.len() == N_CELLS,
        i0.len() == N_CELLS,
        sf.len() == N_CELLS,
        iff.len() == N_CELLS,
        tpos.spec_inside(),
        s0 == pre_close.update(cell_index(tpos), 2),
        pre_close[cell_index(tpos)] == 1,
        status_range_inv(pre_close),
        frontier_inv(pre_close),
        relax_bound_inv(pre_close, i0, start, towers, d),
        g_t == i0[cell_index(tpos)].0,
        forall|k: int| 0 <= k < N_CELLS && s0[k] == 2 ==> (#[trigger] sf[k]) == s0[k],
        forall|k: int| 0 <= k < N_CELLS && s0[k] == 2 ==> (#[trigger] iff[k]) == i0[k],
        forall|k: int| 0 <= k < N_CELLS ==> ((#[trigger] sf[k]) == 2 <==> s0[k] == 2),
        forall|k: int| 0 <= k < N_CELLS && s0[k] == 1 ==> (#[trigger] sf[k]) == 1,
        forall|k: int| 0 <= k < N_CELLS && s0[k] == 1 ==> (#[trigger] iff[k]).0 <= i0[k].0,
        forall|q: GridPos|
            (#[trigger] step_ok(tpos, q) && s0[cell_index(q)] != 2) ==> iff[cell_index(q)].0 <= g_t
                + edge_cost(start, towers, d, tpos, q),
    ensures
        relax_bound_inv(sf, iff, start, towers, d),
{
    assert forall|c: GridPos, q: GridPos|
        (c.spec_inside() && #[trigger] sf[cell_index(c)] == 2 && step_ok(c, q) && sf[#[trigger] cell_index(
            q,
        )] == 1) implies iff[cell_index(q)].0 <= iff[cell_index(c)].0 + edge_cost(
        start,
        towers,
        d,
        c,
        q,
    ) by {
        assert(s0[cell_index(c)] == 2);
        assert(iff[cell_index(c)] == i0[cell_index(c)]);
        assert(s0[cell_index(q)] != 2);
        if c == tpos {
            assert(iff[cell_index(q)].0 <= g_t + edge_cost(start, towers, d, tpos, q));
            assert(iff[cell_index(c)].0 == g_t);
        } else {
            if cell_index(c) == cell_index(tpos) {
                crate::grid::lemma_cell_index_injective(c, tpos);
            }
            assert(pre_close[cell_index(c)] == 2);
            assert(pre_close[cell_index(q)] >= 1);
            if cell_index(q) == cell_index(tpos) {
                crate::grid::lemma_cell_index_injective(q, tpos);
            }
            assert(s0[cell_index(q)] == pre_close[cell_index(q)]);
            assert(pre_close[cell_index(q)] == 1);
            assert(i0[cell_index(q)].0 <= i0[cell_index(c)].0 + edge_cost(start, towers, d, c, q));
            assert(iff[cell_index(q)].0 <= i0[cell_index(q)].0);
        }
    }
}

/// After the four relaxation steps of one expansion, the frontier is
/// closed again, no closed cell is a goal, the relaxation bounds hold, and
/// — when every step costs at least one travel unit — closed cells stay
/// optimal.
#[verifier::spinoff_prover]
#[verifier::rlimit(100)]
pub(crate) proof fn lemma_finish_expand(
    pre_close: Seq<u8>,
    s0: Seq<u8>,
    i0: Seq<(u64, u64, GridPos)>,
    sf: Seq<u8>,
    iff: Seq<(u64, u64, GridPos)>,
    tpos: GridPos,
    start: GridPos,
    goals: Seq<GridPos>,
    towers: Seq<Option<(EntityId, u64)>>,
    d: u64,
    g_t: u64,
    done4: Seq<GridPos>,
    uniform: bool,
)
    requires
        pre_close.len() == N_CELLS,
        s0.len() == N_CELLS,
        i0.len() == N_CELLS,
        sf.len() == N_CELLS,
        iff.len() == N_CELLS,
        tpos.spec_inside(),
        s0 == pre_close.update(cell_index(tpos), 2),
        pre_close[cell_index(tpos)] == 1,
        status_range_inv(s0),
        frontier_inv(pre_close),
        forall|p: GridPos|
            (p.spec_inside() && pre_close[#[trigger] cell_index(p)] == 2) ==> !goals.contains(p),
        !goals.contains(tpos),
        relax_bound_inv(pre_close, i0, start, towers, d),
        uniform ==> closed_opt_inv(s0, i0, start, towers, d),
        g_t == i0[cell_index(tpos)].0,
        done4 == Seq::<GridPos>::empty().push(
            GridPos { row: (tpos.row + 1) as isize, col: tpos.col },
        ).push(GridPos { row: (tpos.row - 1) as isize, col: tpos.col }).push(
            GridPos { row: tpos.row, col: (tpos.col + 1) as isize },
        ).push(GridPos { row: tpos.row, col: (tpos.col - 1) as isize }),
        forall|k: int| 0 <= k < N_CELLS ==> (#[trigger] sf[k]) >= s0[k],
        forall|k: int| 0 <= k < N_CELLS ==> ((#[trigger] sf[k]) == 2 <==> s0[k] == 2),
        forall|k: int| 0 <= k < N_CELLS && s0[k] == 2 ==> (#[trigger] sf[k]) == s0[k],
        forall|k: int| 0 <= k < N_CELLS && s0[k] == 2 ==> (#[trigger] iff[k]) == i0[k],
        forall|k: int| 0 <= k < N_CELLS && s0[k] == 1 ==> (#[trigger] sf[k]) == 1,
        forall|k: int| 0 <= k < N_CELLS && s0[k] == 1 ==> (#[trigger] iff[k]).0 <= i0[k].0,
        forall|q: GridPos|
            (done4.contains(q) && #[trigger] step_ok(tpos, q) && s0[cell_index(q)] != 2)
                ==> sf[cell_index(q)] == 1 && iff[cell_index(q)].0 <= g_t + edge_cost(
                start,
                towers,
                d,
                tpos,
                q,
            ),
    ensures
        frontier_inv(sf),
        forall|p: GridPos|
            (p.spec_inside() && #[trigger] sf[cell_index(p)] == 2) ==> !goals.contains(p),
        relax_bound_inv(sf, iff, start, towers, d),
        uniform ==> closed_opt_inv(sf, iff, start, towers, d),
{
    let c1 = GridPos { row: (tpos.row + 1) as isize, col: tpos.col };
    let c2 = GridPos { row: (tpos.row - 1) as isize, col: tpos.col };
    let c3 = GridPos { row: tpos.row, col: (tpos.col + 1) as isize };
    let c4 = GridPos { row: tpos.row, col: (tpos.col - 1) as isize };
    assert(status_range_inv(pre_close)) by {
        assert(forall|k: int|
            0 <= k < N_CELLS ==> pre_close[k] == s0[k] || (k == cell_index(tpos) && pre_close[k]
                == 1));
    }
    assert forall|q: GridPos|
        (#[trigger] step_ok(tpos, q) && s0[cell_index(q)] != 2) implies sf[cell_index(q)] == 1
        && iff[cell_index(q)].0 <= g_t + edge_cost(start, towers, d, tpos, q) by {
        assert(q == c1 || q == c2 || q == c3 || q == c4);
        assert(done4.contains(q)) by {
            if q == c1 {
                assert(done4[0] == q);
            } else if q == c2 {
                assert(done4[1] == q);
            } else if q == c3 {
                assert(done4[2] == q);
            } else {
                assert(done4[3] == q);
            }
        }
    }
    assert forall|p: GridPos, q: GridPos|
        (p.spec_inside() && #[trigger] sf[cell_index(p)] == 2 && step_ok(p, q)) implies sf[
    #[trigger] cell_index(q)] >= 1 by {
        assert(s0[cell_index(p)] == 2);
        if p == tpos {
            if s0[cell_index(q)] != 2 {
                assert(sf[cell_index(q)] == 1);
            } else {
                assert(sf[cell_index(q)] == 2);
            }
        } else {
            if cell_index(p) == cell_index(tpos) {
                crate::grid::lemma_cell_index_injective(p, tpos);
            }
            assert(pre_close[cell_index(p)] == 2);
            assert(pre_close[cell_index(q)] >= 1);
            assert(s0[cell_index(q)] >= 1);
            if s0[cell_index(q)] == 1 {
                assert(sf[cell_index(q)] == 1);
            } else {
                assert(s0[cell_index(q)] == 2);
                assert(sf[cell_index(q)] == 2);
            }
        }
    }
    assert forall|p: GridPos|
        (p.spec_inside() && #[trigger] sf[cell_index(p)] == 2) implies !goals.contains(p) by {
        assert(s0[cell_index(p)] == 2);
        if p != tpos {
            if cell_index(p) == cell_index(tpos) {
                crate::grid::lemma_cell_index_injective(p, tpos);
            }
            assert(pre_close[cell_index(p)] == 2);
        }
    }
    lemma_restore_relax_bound(pre_close, s0, i0, sf, iff, tpos, start, towers, d, g_t);
    if uniform {
        assert forall|c: GridPos, chc: Seq<GridPos>|
            (c.spec_inside() && sf[cell_index(c)] == 2 && #[trigger] chain_to(start, chc, c))
            implies iff[cell_index(c)].0 <= chain_cost(start, towers, d, chc) by {
            assert(s0[cell_index(c)] == 2);
            assert(iff[cell_index(c)] == i0[cell_index(c)]);
        }
    }
}

/// Expand the freshly closed cell `tpos`: consider the four orthogonal
/// moves out of it, discovering or improving each candidate. Restores the
/// frontier invariant for the whole closed set, and — when every step costs
/// at least one travel unit — keeps closed cells optimal.
#[verifier::spinoff_prover]
#[verifier::rlimit(100)]
pub(crate) fn expand(
    status: &mut Vec<u8>,
    info: &mut Vec<(u64, u64, GridPos)>,
    towers: &Vec<Option<(EntityId, u64)>>,
    goals: &Vec<GridPos>,
    default_travel_cost: u64,
    tpos: GridPos,
    engaged: Option<EntityId>,
    g_t: u64,
    start: Ghost<GridPos>,
    time: Ghost<Map<GridPos, nat>>,
    tick: Ghost<nat>,
    pre_close: Ghost<Seq<u8>>,
)
    requires
        old(status).len() == N_CELLS,
        old(info).len() == N_CELLS,
        towers.len() == N_CELLS,
        goals.len() > 0,
        forall|k: int| 0 <= k < goals.len() ==> (#[trigger] goals[k]).spec_inside(),
        default_travel_cost <= COST_CAP,
        tower_costs_capped(towers@),
        tpos.spec_inside(),
        old(status)@[cell_index(tpos)] == 2,
        g_t + COST_CAP <= sum8(old(status)@) * COST_CAP,
        g_t == old(info)@[cell_index(tpos)].0,
        engaged == engaged_at(start@, towers@, tpos),
        status_range_inv(old(status)@),
        tree_inv(old(status)@, old(info)@, start@),
        gbound_inv(old(status)@, old(info)@),
        time_inv(old(status)@, old(info)@, time@, tick@, start@),
        f_inv(old(status)@, old(info)@, goals@),
        parent_g_inv(old(status)@, old(info)@, start@, towers@, default_travel_cost),
        relax_bound_inv(pre_close@, old(info)@, start@, towers@, default_travel_cost),
        tower_costs_floored(towers@, default_travel_cost) && default_travel_cost >= 1
            ==> closed_opt_inv(old(status)@, old(info)@, start@, towers@, default_travel_cost),
        pre_close@.len() == N_CELLS,
        old(status)@ == pre_close@.update(cell_index(tpos), 2),
        pre_close@[cell_index(tpos)] == 1,
        frontier_inv(pre_close@),
        forall|p: GridPos|
            (p.spec_inside() && pre_close@[#[trigger] cell_index(p)] == 2) ==> !goals@.contains(p),
        !goals@.contains(tpos),
    ensures
        final(status).len() == N_CELLS,
        final(info).len() == N_CELLS,
        forall|k: int| 0 <= k < N_CELLS ==> (#[trigger] final(status)@[k]) >= old(status)@[k],
        sum8(final(status)@) >= sum8(old(status)@),
        status_range_inv(final(status)@),
        tree_inv(final(status)@, final(info)@, start@),
        gbound_inv(final(status)@, final(info)@),
        time_inv(final(status)@, final(info)@, time@, tick@, start@),
        frontier_inv(final(status)@),
        forall|p: GridPos|
            (p.spec_inside() && #[trigger] final(status)@[cell_index(p)] == 2) ==> !goals@.contains(
                p,
            ),
        forall|k: int|
            0 <= k < N_CELLS && old(status)@[k] == 2 ==> (#[trigger] final(status)@[k]) == old(
                status,
            )@[k],
        forall|k: int|
            0 <= k < N_CELLS && old(status)@[k] == 2 ==> (#[trigger] final(info)@[k]) == old(
                info,
            )@[k],
        f_inv(final(status)@, final(info)@, goals@),
        parent_g_inv(final(status)@, final(info)@, start@, towers@, default_travel_cost),
        relax_bound_inv(final(status)@, final(info)@, start@, towers@, default_travel_cost),
        tower_costs_floored(towers@, default_travel_cost) && default_travel_cost >= 1
            ==> closed_opt_inv(final(status)@, final(info)@, start@, towers@, default_travel_cost),
{
    let ghost s0 = status@;
    let ghost i0 = info@;
    let ghost c1 = GridPos { row: (tpos.row + 1) as isize, col: tpos.col };
    let ghost c2 = GridPos { row: (tpos.row - 1) as isize, col: tpos.col };
    let ghost c3 = GridPos { row: tpos.row, col: (tpos.col + 1) as isize };
    let ghost c4 = GridPos { row: tpos.row, col: (tpos.col - 1) as isize };
    let ghost dn0 = Seq::<GridPos>::empty();
    relax(
        status,
        info,
        towers,
        goals,
        default_travel_cost,
        tpos,
        tpos.row + 1,
        tpos.col,
        engaged,
        g_t,
        start,
        time,
        tick,
        Ghost(s0),
        Ghost(i0),
        Ghost(dn0),
    );
    relax(
        status,
        info,
        towers,
        goals,
        default_travel_cost,
        tpos,
        tpos.row - 1,
        tpos.col,
        engaged,
        g_t,
        start,
        time,
        tick,
        Ghost(s0),
        Ghost(i0),
        Ghost(dn0.push(c1)),
    );
    relax(
        status,
        info,
        towers,
        goals,
        default_travel_cost,
        tpos,
        tpos.row,
        tpos.col + 1,
        engaged,
        g_t,
        start,
        time,
        tick,
        Ghost(s0),
        Ghost(i0),
        Ghost(dn0.push(c1).push(c2)),
    );
    relax(
        status,
        info,
        towers,
        goals,
        default_travel_cost,
        tpos,
        tpos.row,
        tpos.col - 1,
        engaged,
        g_t,
        start,
        time,
        tick,
        Ghost(s0),
        Ghost(i0),
        Ghost(dn0.push(c1).push(c2).push(c3)),
    );
    proof {
        lemma_finish_expand(
            pre_close@,
            s0,
            i0,
            status@,
            info@,
            tpos,
            start@,
            goals@,
            towers@,
            default_travel_cost,
            g_t,
            dn0.push(c1).push(c2).push(c3).push(c4),
            tower_costs_floored(towers@, default_travel_cost) && default_travel_cost >= 1,
        );
        assert(sum8(status@) >= sum8(s0));
    }
}

/// Shortest-path search from `start` to the nearest of `goals` over the
/// 4-connected grid, in the style of A*.
///
/// Every in-bounds cell is traversable: stepping onto an empty cell costs
/// `default_travel_cost`, stepping onto a tower cell costs that tower's
/// fight-through cost from `towers` (indexed by cell), except that a step
/// continuing against the tower already being fought costs only the default
/// (see `spec_step_cost`). The open cell with the least f-value is expanded
/// first; ties go to the lowest row-major cell index.
///
/// Returns a route ordered goal first, next step last, ready to be consumed
/// by popping from the end; the empty route means `start` is itself a goal.
/// Succeeds exactly when some chain of legal moves reaches a goal. When the
/// cost model is admissible — every fight-through cost at least the default
/// travel cost, itself at least one unit, as `build_tower_costs` guarantees
/// — the returned route's accumulated step cost (`route_cost`) is no
/// greater than that of any chain of moves to any goal; on a tower-free
/// field this makes its length exactly the Manhattan distance to the
/// nearest goal (`lemma_uniform_route_length`).
#[verifier::rlimit(100)]
pub fn find_path(
    start: GridPos,
    goals: &Vec<GridPos>,
    towers: &Vec<Option<(EntityId, u64)>>,
    default_travel_cost: u64,
) -> (r: Result<Vec<GridPos>, NoPathFound>)
    requires
        start.spec_inside(),
        goals.len() > 0,
        forall|k: int| 0 <= k < goals.len() ==> (#[trigger] goals[k]).spec_inside(),
        towers.len() == N_CELLS,
        default_travel_cost <= COST_CAP,
        tower_costs_capped(towers@),
    ensures
        r is Ok <==> reachable(start, goals@),
        r matches Ok(route) ==> route_valid(start, goals@, route@),
        r matches Ok(route) ==> forall|i: int|
            1 <= i < route@.len() ==> !goals@.contains(#[trigger] route@[i]),
        tower_costs_floored(towers@, default_travel_cost) && default_travel_cost >= 1 ==> (r
            matches Ok(route) ==> forall|chg: Seq<GridPos>| #[trigger]
            reaches(start, goals@, chg) ==> route_cost(start, towers@, default_travel_cost, route@)
                <= chain_cost(start, towers@, default_travel_cost, chg)),
{
    let mut status: Vec<u8> = Vec::new();
    let mut info: Vec<(u64, u64, GridPos)> = Vec::new();
    let mut k0: usize = 0;
    while k0 < N_CELLS
        invariant
            status.len() == k0,
            info.len() == k0,
            k0 <= N_CELLS,
            sum8(status@) == 0,
            forall|k: int| 0 <= k < k0 ==> (#[trigger] status@[k]) == 0,
        decreases N_CELLS - k0,
    {
        let ghost prev = status@;
        status.push(0);
        info.push((0, 0, start));
        proof {
            assert(status@.drop_last() =~= prev);
        }
        k0 = k0 + 1;
    }
    let h0 = start.distance_to_closest(goals);
    let ghost zeroed = status@;
    set_status(&mut status, &start, 1);
    set_info(&mut info, &start, (0u64, h0 as u64, start));
    let ghost mut time = Map::<GridPos, nat>::empty();
    let ghost mut tick: nat = 1;
    proof {
        lemma_sum8_update(zeroed, cell_index(start), 1);
        assert forall|p: GridPos| p.spec_inside() && p != start implies status@[cell_index(p)]
            == 0 by {
            if cell_index(p) == cell_index(start) {
                crate::grid::lemma_cell_index_injective(p, start);
            }
        }
        assert(info@[cell_index(start)].0 == 0);
        assert forall|p: GridPos|
            (p.spec_inside() && #[trigger] status@[cell_index(p)] >= 1) implies info@[cell_index(
            p,
        )].1 == info@[cell_index(p)].0 + GridPos::min_goal_dist(p, goals@) by {
            if p != start {
                assert(status@[cell_index(p)] == 0);
            }
        }
        assert forall|p: GridPos|
            (p.spec_inside() && #[trigger] status@[cell_index(p)] >= 1 && p != start) implies
            false by {
            assert(status@[cell_index(p)] == 0);
        }
        assert forall|c: GridPos| c.spec_inside() implies #[trigger] status@[cell_index(c)]
            != 2 by {
            if c != start {
                assert(status@[cell_index(c)] == 0);
            }
        }
    }
    loop
        invariant
            status.len() == N_CELLS,
            info.len() == N_CELLS,
            start.spec_inside(),
            goals.len() > 0,
            forall|k: int| 0 <= k < goals.len() ==> (#[trigger] goals[k]).spec_inside(),
            towers.len() == N_CELLS,
            default_travel_cost <= COST_CAP,
            tower_costs_capped(towers@),
            status_range_inv(status@),
            status@[cell_index(start)] >= 1,
            tree_inv(status@, info@, start),
            gbound_inv(status@, info@),
            frontier_inv(status@),
            time_inv(status@, info@, time, tick, start),
            forall|p: GridPos|
                (p.spec_inside() && #[trigger] status@[cell_index(p)] == 2) ==> !goals@.contains(p),
            f_inv(status@, info@, goals@),
            info@[cell_index(start)].0 == 0,
            lone_start_inv(status@, start),
            parent_g_inv(status@, info@, start, towers@, default_travel_cost),
            relax_bound_inv(status@, info@, start, towers@, default_travel_cost),
            tower_costs_floored(towers@, default_travel_cost) && default_travel_cost >= 1
                ==> closed_opt_inv(status@, info@, start, towers@, default_travel_cost),
        decreases 2 * N_CELLS - sum8(status@),
    {
        let sel = select_open(&status, &info);
        let ti = match sel {
            None => {
                proof {
                    assert(status@[cell_index(start)] == 2);
                    assert(!reachable(start, goals@)) by {
                        if reachable(start, goals@) {
                            let pch = choose|pch: Seq<GridPos>| reaches(start, goals@, pch);
                            lemma_chain_closed(status@, start, pch, pch.len() as int);
                            if pch.len() == 0 {
                                assert(goals@.contains(start));
                            } else {
                                assert(status@[cell_index(pch[pch.len() - 1])] == 2);
                                assert(goals@.contains(pch[pch.len() - 1]));
                            }
                        }
                    }
                }
                return Err(NoPathFound);
            },
            Some(ti) => ti,
        };
        let tpos = pos_of_index(ti);
        let g_t = info[ti].0;
        let engaged: Option<EntityId> = if tpos == start {
            None
        } else {
            match towers[ti] {
                Some(t) => Some(t.0),
                None => None,
            }
        };
        proof {
            assert(engaged == engaged_at(start, towers@, tpos));
        }
        let ghost pre_close = status@;
        let ghost time0 = time;
        let ghost tick0 = tick;
        set_status(&mut status, &tpos, 2);
        proof {
            time = time.insert(tpos, tick0);
            tick = tick0 + 1;
            lemma_after_close(pre_close, status@, info@, time0, time, tick0, tick, start, tpos);
            assert forall|p: GridPos|
                (p.spec_inside() && #[trigger] status@[cell_index(p)] >= 1) implies info@[cell_index(
                p,
            )].1 == info@[cell_index(p)].0 + GridPos::min_goal_dist(p, goals@) by {
                assert(pre_close[cell_index(p)] >= 1);
            }
            assert(status@[cell_index(start)] == 2) by {
                if status@[cell_index(start)] != 2 {
                    assert(tpos != start);
                    if cell_index(tpos) == cell_index(start) {
                        crate::grid::lemma_cell_index_injective(tpos, start);
                    }
                    assert(pre_close[cell_index(start)] != 2);
                    assert(pre_close[cell_index(tpos)] == 0);
                }
            }
            assert forall|p: GridPos|
                (p.spec_inside() && #[trigger] status@[cell_index(p)] >= 1 && p != start) implies
                info@[cell_index(p)].0 == info@[cell_index(info@[cell_index(p)].2)].0 + edge_cost(
                start,
                towers@,
                default_travel_cost,
                info@[cell_index(p)].2,
                p,
            ) by {
                assert(pre_close[cell_index(p)] >= 1);
            }
            if tower_costs_floored(towers@, default_travel_cost) && default_travel_cost >= 1 {
                assert forall|chc: Seq<GridPos>| #[trigger] chain_to(start, chc, tpos) implies
                    info@[cell_index(tpos)].0 <= chain_cost(
                    start,
                    towers@,
                    default_travel_cost,
                    chc,
                ) by {
                    if chc.len() == 0 {
                        assert(tpos == start);
                    } else {
                        lemma_pop_bound(
                            pre_close,
                            info@,
                            start,
                            goals@,
                            towers@,
                            default_travel_cost,
                            tpos,
                            chc,
                            tpos,
                        );
                        assert(info@[cell_index(tpos)].1 == info@[cell_index(tpos)].0
                            + GridPos::min_goal_dist(tpos, goals@));
                    }
                }
                assert forall|c: GridPos, chc: Seq<GridPos>|
                    (c.spec_inside() && status@[cell_index(c)] == 2 && #[trigger] chain_to(
                        start,
                        chc,
                        c,
                    )) implies info@[cell_index(c)].0 <= chain_cost(
                    start,
                    towers@,
                    default_travel_cost,
                    chc,
                ) by {
                    if c != tpos {
                        assert(status@[cell_index(c)] == pre_close[cell_index(c)]);
                    }
                }
            }
        }
        if pos_list_contains(goals, &tpos) {
            proof {
                assert forall|p: GridPos|
                    (p.spec_inside() && #[trigger] status@[cell_index(p)] == 2 && p != tpos) implies
                    !goals@.contains(p) by {
                    assert(status@[cell_index(p)] == pre_close[cell_index(p)]);
                }
            }
            let mut route: Vec<GridPos> = Vec::new();
            let mut cur: GridPos = tpos;
            while !(cur == start)
                invariant
                    status.len() == N_CELLS,
                    info.len() == N_CELLS,
                    start.spec_inside(),
                    cur.spec_inside(),
                    status@[cell_index(cur)] == 2,
                    time.contains_key(cur),
                    tree_inv(status@, info@, start),
                    time_inv(status@, info@, time, tick, start),
                    status_range_inv(status@),
                    goals@.contains(tpos),
                    route@.len() == 0 ==> cur == tpos,
                    route@.len() > 0 ==> route@[0] == tpos,
                    route@.len() > 0 ==> step_ok(cur, route@[route@.len() - 1]),
                    forall|i: int|
                        0 <= i < route@.len() ==> (#[trigger] route@[i]).spec_inside()
                            && status@[cell_index(route@[i])] == 2 && time.contains_key(route@[i])
                            && route@[i] != start,
                    forall|i: int|
                        0 <= i < route@.len() - 1 ==> step_ok(#[trigger] route@[i + 1], route@[i]),
                    forall|i: int, j: int|
                        0 <= i < j < route@.len() ==> time[route@[j]] < time[route@[i]],
                    route@.len() > 0 ==> time[cur] < time[route@[route@.len() - 1]],
                    forall|p: GridPos|
                        (p.spec_inside() && #[trigger] status@[cell_index(p)] == 2 && p != tpos)
                            ==> !goals@.contains(p),
                    forall|i: int| 1 <= i < route@.len() ==> !goals@.contains(#[trigger] route@[i]),
                    info@[cell_index(start)].0 == 0,
                    parent_g_inv(status@, info@, start, towers@, default_travel_cost),
                    info@[cell_index(cur)].0 + route_cost_from(
                        start,
                        towers@,
                        default_travel_cost,
                        cur,
                        route@,
                    ) == info@[cell_index(tpos)].0,
                decreases time[cur],
            {
                let ghost prev_route = route@;
                let ghost oldcur = cur;
                route.push(cur);
                let ci = index_of(&cur);
                cur = info[ci].2;
                proof {
                    assert(route@ == prev_route.push(oldcur));
                    assert(step_ok(cur, oldcur));
                    assert(status@[cell_index(cur)] == 2);
                    assert(time[cur] < time[oldcur]);
                    if prev_route.len() > 0 {
                        assert(time[oldcur] < time[prev_route[0]]);
                        assert(oldcur != tpos);
                        assert(!goals@.contains(oldcur));
                    }
                    assert(info@[cell_index(oldcur)].2 == cur);
                    assert(info@[cell_index(oldcur)].0 == info@[cell_index(cur)].0 + edge_cost(
                        start,
                        towers@,
                        default_travel_cost,
                        cur,
                        oldcur,
                    ));
                    assert(route@.drop_last() =~= prev_route);
                    assert(route@.last() == oldcur);
                    assert(route_cost_from(start, towers@, default_travel_cost, cur, route@)
                        == edge_cost(start, towers@, default_travel_cost, cur, oldcur)
                        + route_cost_from(
                        start,
                        towers@,
                        default_travel_cost,
                        oldcur,
                        prev_route,
                    ));
                }
            }
            proof {
                if route.len() == 0 {
                    assert(cur == tpos);
                    assert(goals@.contains(start));
                } else {
                    assert forall|i: int, j: int|
                        0 <= i < j < route@.len() implies route@[i] != route@[j] by {
                        assert(time[route@[j]] < time[route@[i]]);
                    }
                    assert(!route@.contains(start)) by {
                        if route@.contains(start) {
                            let i = choose|i: int| 0 <= i < route@.len() && route@[i] == start;
                            assert(route@[i] != start);
                        }
                    }
                    assert(route_valid(start, goals@, route@));
                }
                lemma_route_valid_reaches(start, goals@, route@);
                if tower_costs_floored(towers@, default_travel_cost) && default_travel_cost
                    >= 1 {
                    assert(route_cost(start, towers@, default_travel_cost, route@)
                        == info@[cell_index(tpos)].0);
                    assert forall|chg: Seq<GridPos>| #[trigger] reaches(start, goals@, chg) implies
                        route_cost(start, towers@, default_travel_cost, route@) <= chain_cost(
                        start,
                        towers@,
                        default_travel_cost,
                        chg,
                    ) by {
                        if chg.len() == 0 {
                            if route@.len() > 0 {
                                assert(route@[0] == tpos);
                                assert(route@[0] != start);
                                assert(status@[cell_index(start)] == 2);
                                assert(!goals@.contains(start));
                            }
                        } else {
                            let dst = chg.last();
                            assert(goals@.contains(dst));
                            assert(chain_to(start, chg, dst));
                            let gi = choose|gi: int| 0 <= gi < goals@.len() && goals@[gi] == dst;
                            assert(dst.spec_inside());
                            assert(pre_close[cell_index(dst)] != 2) by {
                                if pre_close[cell_index(dst)] == 2 {
                                    assert(!goals@.contains(dst));
                                }
                            }
                            lemma_pop_bound(
                                pre_close,
                                info@,
                                start,
                                goals@,
                                towers@,
                                default_travel_cost,
                                tpos,
                                chg,
                                dst,
                            );
                            lemma_min_goal_dist_zero_at_goal(dst, goals@);
                            lemma_min_goal_dist_nonneg(tpos, goals@);
                            assert(info@[cell_index(tpos)].1 == info@[cell_index(tpos)].0
                                + GridPos::min_goal_dist(tpos, goals@));
                            assert(info@[cell_index(tpos)].0 <= chain_cost(
                                start,
                                towers@,
                                default_travel_cost,
                                chg,
                            ));
                        }
                    }
                }
            }
            return Ok(route);
        }
        proof {
            assert(g_t + COST_CAP <= sum8(status@) * COST_CAP) by {
                assert(g_t <= sum8(pre_close) * COST_CAP);
            }
        }
        let ghost mid_sum = sum8(status@);
        expand(
            &mut status,
            &mut info,
            towers,
            goals,
            default_travel_cost,
            tpos,
            engaged,
            g_t,
            Ghost(start),
            Ghost(time),
            Ghost(tick),
            Ghost(pre_close),
        );
        proof {
            lemma_sum8_bounds(status@);
            assert(sum8(status@) >= mid_sum);
            assert(mid_sum == sum8(pre_close) + 1);
        }
    }
}

/// Between any two cells on the field there is a chain of exactly the
/// Manhattan distance: walk the rows first, then the columns.
#[verifier::spinoff_prover]
#[verifier::rlimit(100)]
pub(crate) proof fn lemma_monotone_chain(start: GridPos, dest: GridPos) -> (ch: Seq<GridPos>)
    requires
        start.spec_inside(),
        dest.spec_inside(),
    ensures
        chain_to(start, ch, dest),
        ch.len() == manhattan(start, dest),
{
    let nr = abs_int(dest.row - start.row);
    let nc = abs_int(dest.col - start.col);
    let ch = Seq::new(
        (nr + nc) as nat,
        |i: int|
            if i < nr {
                GridPos {
                    row: (if dest.row >= start.row {
                        start.row + i + 1
                    } else {
                        start.row - i - 1
                    }) as isize,
                    col: start.col,
                }
            } else {
                GridPos {
                    row: dest.row,
                    col: (if dest.col >= start.col {
                        start.col + (i - nr) + 1
                    } else {
                        start.col - (i - nr) - 1
                    }) as isize,
                }
            },
    );
    assert forall|i: int| 0 <= i < ch.len() implies step_ok(
        if i == 0 {
            start
        } else {
            ch[i - 1]
        },
        #[trigger] ch[i],
    ) by {
        if i < nr {
            if dest.row >= start.row {
                assert(0 <= start.row + i + 1 <= dest.row);
                assert(ch[i].row == start.row + i + 1);
            } else {
                assert(0 <= dest.row <= start.row - i - 1);
                assert(ch[i].row == start.row - i - 1);
            }
            assert(ch[i].spec_inside());
            if i > 0 {
                if dest.row >= start.row {
                    assert(ch[i - 1].row == start.row + i);
                } else {
                    assert(ch[i - 1].row == start.row - i);
                }
            }
        } else {
            if dest.col >= start.col {
                assert(0 <= start.col + (i - nr) + 1 <= dest.col);
                assert(ch[i].col == start.col + (i - nr) + 1);
            } else {
                assert(0 <= dest.col <= start.col - (i - nr) - 1);
                assert(ch[i].col == start.col - (i - nr) - 1);
            }
            assert(ch[i].spec_inside());
            if i == nr {
                if i > 0 {
                    if dest.row >= start.row {
                        assert(ch[i - 1].row == start.row + i);
                    } else {
                        assert(ch[i - 1].row == start.row - i);
                    }
                    assert(ch[i - 1].row == dest.row);
                    assert(ch[i - 1].col == start.col);
                }
            } else {
                if dest.col >= start.col {
                    assert(ch[i - 1].col == start.col + (i - nr));
                } else {
                    assert(ch[i - 1].col == start.col - (i - nr));
                }
                assert(ch[i - 1].row == dest.row);
            }
        }
    }
    if ch.len() > 0 {
        assert(ch.last() == dest) by {
            let last = ch.len() - 1;
            if nc > 0 {
                if dest.col >= start.col {
                    assert(ch[last].col == start.col + (last - nr) + 1);
                    assert(last - nr + 1 == nc);
                } else {
                    assert(ch[last].col == start.col - (last - nr) - 1);
                }
                assert(ch[last].row == dest.row);
            } else {
                assert(last == nr - 1);
                if dest.row >= start.row {
                    assert(ch[last].row == start.row + nr);
                } else {
                    assert(ch[last].row == start.row - nr);
                }
                assert(ch[last].row == dest.row);
                assert(ch[last].col == start.col);
                assert(start.col == dest.col);
            }
        }
    } else {
        assert(dest == start);
    }
    ch
}

/// Law: on a field with no towers every step costs the same, so a
/// cost-minimal route is exactly as long as the Manhattan distance from the
/// start to the nearest goal. The premises are precisely what `find_path`
/// ensures about a returned route when `towers` records no tower and the
/// default travel cost is at least one unit.
pub proof fn lemma_uniform_route_length(
    start: GridPos,
    goals: Seq<GridPos>,
    towers: Seq<Option<(EntityId, u64)>>,
    d: u64,
    route: Seq<GridPos>,
)
    requires
        start.spec_inside(),
        goals.len() > 0,
        forall|k: int| 0 <= k < goals.len() ==> (#[trigger] goals[k]).spec_inside(),
        no_towers(towers),
        d >= 1,
        route_valid(start, goals, route),
        forall|chg: Seq<GridPos>| #[trigger]
            reaches(start, goals, chg) ==> route_cost(start, towers, d, route) <= chain_cost(
                start,
                towers,
                d,
                chg,
            ),
    ensures
        route.len() == GridPos::min_goal_dist(start, goals),
{
    lemma_route_length_at_least_distance(start, goals, route);
    GridPos::lemma_min_goal_dist_properties(start, goals);
    let k = choose|k: int|
        0 <= k < goals.len() && manhattan(start, #[trigger] goals[k]) == GridPos::min_goal_dist(
            start,
            goals,
        );
    let ch = lemma_monotone_chain(start, goals[k]);
    assert(reaches(start, goals, ch)) by {
        if ch.len() == 0 {
            assert(goals[k] == start);
            assert(goals.contains(start));
        } else {
            assert(ch.last() == goals[k]);
            assert(goals.contains(goals[k]));
        }
    }
    lemma_no_towers_route_cost(start, towers, d, start, route);
    lemma_no_towers_chain_cost(start, towers, d, ch);
    assert(route_cost(start, towers, d, route) <= chain_cost(start, towers, d, ch));
    let a = route.len() as int;
    let b = ch.len() as int;
    let di = d as int;
    assert(a <= b) by (nonlinear_arith)
        requires
            di >= 1,
            a >= 0,
            b >= 0,
            di * a <= di * b,
        ;
}

/// Emitted by every operation that changes traversability: the affected
/// cells, and whether they became free (tower destroyed) or blocked (tower
/// placed). Consumed once per tick by the invalidation pass.
pub struct PathChangedEvent {
    pub changed: Vec<GridPos>,
    /// If true, the positions in `changed` are now empty; else they are now
    /// blocked.
    pub now_free: bool,
}

impl PathChangedEvent {
    /// An event reporting that `freed` became traversable at default cost.
    pub fn now_free(freed: Vec<GridPos>) -> (r: Self)
        ensures
            r.changed == freed,
            r.now_free,
    {
        Self { changed: freed, now_free: true }
    }

    /// An event reporting that `blocked` became tower-occupied.
    pub fn now_blocked(blocked: Vec<GridPos>) -> (r: Self)
        ensures
            r.changed == blocked,
            !r.now_free,
    {
        Self { changed: blocked, now_free: false }
    }
}

/// The cells reported freed by this tick's events, in order.
pub open spec fn freed_cells(events: Seq<PathChangedEvent>) -> Seq<GridPos>
    decreases events.len(),
{
    if events.len() == 0 {
        Seq::empty()
    } else {
        freed_cells(events.drop_last()) + (if events.last().now_free {
            events.last().changed@
        } else {
            Seq::empty()
        })
    }
}

/// The cells reported blocked by this tick's events, in order.
pub open spec fn blocked_cells(events: Seq<PathChangedEvent>) -> Seq<GridPos>
    decreases events.len(),
{
    if events.len() == 0 {
        Seq::empty()
    } else {
        blocked_cells(events.drop_last()) + (if events.last().now_free {
            Seq::empty()
        } else {
            events.last().changed@
        })
    }
}

/// A route is stale after cells were blocked: some waypoint crosses a newly
/// blocked cell, and the immediate next waypoint (the last element) is not
/// itself the blocked one — an entity already committed to entering the
/// blocked cell keeps its route and turns to combat instead.
pub open spec fn route_broken(steps: Seq<GridPos>, blocked: Seq<GridPos>) -> bool {
    &&& steps.len() > 0
    &&& !blocked.contains(steps.last())
    &&& exists|j: int| 0 <= j < steps.len() && blocked.contains(#[trigger] steps[j])
}

/// What the invalidation pass leaves of one entity's route when only
/// blocked-cell events arrived.
pub open spec fn invalidated(r: Option<EnemyPath>, blocked: Seq<GridPos>) -> Option<EnemyPath> {
    match r {
        None => None,
        Some(path) => if route_broken(path.steps@, blocked) {
            None
        } else {
            Some(path)
        },
    }
}

/// Split this tick's events into the freed and the blocked cells.
pub fn partition_events(events: &Vec<PathChangedEvent>) -> (r: (Vec<GridPos>, Vec<GridPos>))
    ensures
        r.0@ == freed_cells(events@),
        r.1@ == blocked_cells(events@),
{
    let mut freed: Vec<GridPos> = Vec::new();
    let mut blocked: Vec<GridPos> = Vec::new();
    let mut k: usize = 0;
    while k < events.len()
        invariant
            k <= events.len(),
            freed@ == freed_cells(events@.take(k as int)),
            blocked@ == blocked_cells(events@.take(k as int)),
        decreases events.len() - k,
    {
        let ev = &events[k];
        let ghost freed0 = freed@;
        let ghost blocked0 = blocked@;
        let mut j: usize = 0;
        while j < ev.changed.len()
            invariant
                j <= ev.changed.len(),
                ev == &events[k as int],
                k < events.len(),
                ev.now_free ==> freed@ == freed0 + ev.changed@.take(j as int) && blocked@
                    == blocked0,
                !ev.now_free ==> blocked@ == blocked0 + ev.changed@.take(j as int) && freed@
                    == freed0,
            decreases ev.changed.len() - j,
        {
            let c = ev.changed[j];
            if ev.now_free {
                freed.push(c);
                proof {
                    assert(ev.changed@.take(j + 1) =~= ev.changed@.take(j as int).push(c));
                    assert(freed@ =~= freed0 + ev.changed@.take(j + 1));
                }
            } else {
                blocked.push(c);
                proof {
                    assert(ev.changed@.take(j + 1) =~= ev.changed@.take(j as int).push(c));
                    assert(blocked@ =~= blocked0 + ev.changed@.take(j + 1));
                }
            }
            j = j + 1;
        }
        proof {
            assert(events@.take(k + 1).drop_last() =~= events@.take(k as int));
            assert(events@.take(k + 1).last() == events@[k as int]);
            assert(ev.changed@.take(ev.changed@.len() as int) =~= ev.changed@);
            if ev.now_free {
                assert(blocked0 + Seq::<GridPos>::empty() =~= blocked0);
            } else {
                assert(freed0 + Seq::<GridPos>::empty() =~= freed0);
            }
        }
        k = k + 1;
    }
    proof {
        assert(events@.take(events@.len() as int) =~= events@);
    }
    (freed, blocked)
}

/// Whether any waypoint of `steps` is among `blocked`.
pub fn any_step_blocked(steps: &Vec<GridPos>, blocked: &Vec<GridPos>) -> (r: bool)
    ensures
        r == exists|j: int| 0 <= j < steps.len() && blocked@.contains(#[trigger] steps@[j]),
{
    let mut j: usize = 0;
    while j < steps.len()
        invariant
            j <= steps.len(),
            forall|m: int| 0 <= m < j ==> !blocked@.contains(#[trigger] steps@[m]),
        decreases steps.len() - j,
    {
        if pos_list_contains(blocked, &steps[j]) {
            return true;
        }
        j = j + 1;
    }
    false
}

/// The per-tick invalidation pass over every entity's route.
///
/// If any cell was freed this tick, every route is cleared unconditionally:
/// a freed cell may open a strictly shorter path for any entity, so only a
/// global re-plan is sound. Otherwise each route is cleared exactly when it
/// crosses a newly blocked cell — unless its immediate next waypoint is the
/// blocked cell itself, in which case the route is kept and the entity
/// engages the blocking tower instead.
pub fn check_for_broken_paths(routes: &mut Vec<Option<EnemyPath>>, events: &Vec<PathChangedEvent>)
    ensures
        final(routes).len() == old(routes).len(),
        freed_cells(events@).len() > 0 ==> forall|i: int|
            0 <= i < final(routes).len() ==> (#[trigger] final(routes)@[i]) is None,
        freed_cells(events@).len() == 0 ==> forall|i: int|
            0 <= i < final(routes).len() ==> #[trigger] final(routes)@[i] == invalidated(
                old(routes)@[i],
                blocked_cells(events@),
            ),
{
    let (freed, blocked) = partition_events(events);
    if freed.len() > 0 {
        let mut i: usize = 0;
        while i < routes.len()
            invariant
                i <= routes.len(),
                routes.len() == old(routes).len(),
                forall|m: int| 0 <= m < i ==> (#[trigger] routes@[m]) is None,
            decreases routes.len() - i,
        {
            routes.set(i, None);
            i = i + 1;
        }
        return ;
    }
    let mut i: usize = 0;
    while i < routes.len()
        invariant
            i <= routes.len(),
            routes.len() == old(routes).len(),
            blocked@ == blocked_cells(events@),
            forall|m: int|
                0 <= m < i ==> #[trigger] routes@[m] == invalidated(
                    old(routes)@[m],
                    blocked_cells(events@),
                ),
            forall|m: int| i <= m < routes.len() ==> #[trigger] routes@[m] == old(routes)@[m],
        decreases routes.len() - i,
    {
        let clear = match &routes[i] {
            None => false,
            Some(path) => {
                let next_is_blocked = match path.steps.last() {
                    Some(tile) => pos_list_contains(&blocked, tile),
                    None => false,
                };
                if next_is_blocked {
                    false
                } else {
                    any_step_blocked(&path.steps, &blocked)
                }
            },
        };
        if clear {
            routes.set(i, None);
        }
        i = i + 1;
    }
}

/// Any position on a valid route is within `r.len() - i` moves of the start.
pub(crate) proof fn lemma_route_prefix_distance(start: GridPos, r: Seq<GridPos>, i: int)
    requires
        r.len() > 0,
        0 <= i < r.len(),
        step_ok(start, r[r.len() - 1]),
        forall|m: int| 0 <= m < r.len() - 1 ==> step_ok(#[trigger] r[m + 1], r[m]),
    ensures
        manhattan(start, r[i]) <= r.len() - i,
    decreases r.len() - i,
{
    if i == r.len() - 1 {
        assert(manhattan(start, r[i]) == 1);
    } else {
        lemma_route_prefix_distance(start, r, i + 1);
        assert(step_ok(r[i + 1], r[i]));
    }
}

/// Law (admissibility): no valid route is shorter than the Manhattan
/// distance from its start to the nearest goal. Together with `find_path`'s
/// contract, every returned route has at least that many steps.
pub proof fn lemma_route_length_at_least_distance(
    start: GridPos,
    goals: Seq<GridPos>,
    r: Seq<GridPos>,
)
    requires
        goals.len() > 0,
        route_valid(start, goals, r),
    ensures
        r.len() >= GridPos::min_goal_dist(start, goals),
{
    GridPos::lemma_min_goal_dist_properties(start, goals);
    if r.len() == 0 {
        let k = choose|k: int| 0 <= k < goals.len() && goals[k] == start;
        assert(manhattan(start, goals[k]) == 0);
    } else {
        let k = choose|k: int| 0 <= k < goals.len() && goals[k] == r[0];
        lemma_route_prefix_distance(start, r, 0);
        assert(manhattan(start, goals[k]) <= r.len());
    }
}

/// The tower occupying cell `p` with its fight-through cost, if any.
pub open spec fn tower_cost_at(towers: Seq<Option<(EntityId, u64)>>, p: GridPos) -> Option<
    (EntityId, u64),
> {
    if p.spec_inside() && towers.len() == N_CELLS {
        towers[cell_index(p)]
    } else {
        None
    }
}

/// Append the candidate cell `(row, col)` to `out` when it lies on the
/// field, together with its occupant and step cost.
fn push_neighbor(
    out: &mut Vec<(GridPos, Option<EntityId>, u64)>,
    towers: &Vec<Option<(EntityId, u64)>>,
    default_travel_cost: u64,
    row: isize,
    col: isize,
)
    requires
        towers.len() == N_CELLS,
    ensures
        ({
            let q = GridPos { row, col };
            &&& !q.spec_inside() ==> final(out)@ == old(out)@
            &&& q.spec_inside() ==> final(out)@ == old(out)@.push(
                match tower_cost_at(towers@, q) {
                    Some(t) => (q, Some(t.0), t.1),
                    None => (q, None::<EntityId>, default_travel_cost),
                },
            )
        }),
{
    let q = GridPos { row, col };
    if q.inside_grid_bounds() {
        match towers[index_of(&q)] {
            Some(t) => out.push((q, Some(t.0), t.1)),
            None => out.push((q, None, default_travel_cost)),
        }
    }
}

impl GridPos {
    /// The in-bounds orthogonal neighbors of this cell, each with the tower
    /// occupying it (if any) and the cost of stepping onto it.
    pub fn neighbors(
        &self,
        towers: &Vec<Option<(EntityId, u64)>>,
        default_travel_cost: u64,
    ) -> (r: Vec<(GridPos, Option<EntityId>, u64)>)
        requires
            self.spec_inside(),
            towers.len() == N_CELLS,
        ensures
            forall|k: int|
                0 <= k < r.len() ==> {
                    let e = #[trigger] r@[k];
                    &&& step_ok(*self, e.0)
                    &&& match tower_cost_at(towers@, e.0) {
                        Some(t) => e.1 == Some(t.0) && e.2 == t.1,
                        None => e.1 is None && e.2 == default_travel_cost,
                    }
                },
            forall|q: GridPos|
                step_ok(*self, q) ==> exists|k: int| 0 <= k < r.len() && (#[trigger] r@[k]).0 == q,
            forall|a: int, b: int| 0 <= a < b < r.len() ==> (#[trigger] r@[a]).0 != (
            #[trigger] r@[b]).0,
            r.len() <= 4,
    {
        let mut out: Vec<(GridPos, Option<EntityId>, u64)> = Vec::new();
        push_neighbor(&mut out, towers, default_travel_cost, self.row + 1, self.col);
        push_neighbor(&mut out, towers, default_travel_cost, self.row - 1, self.col);
        push_neighbor(&mut out, towers, default_travel_cost, self.row, self.col + 1);
        push_neighbor(&mut out, towers, default_travel_cost, self.row, self.col - 1);
        proof {
            let c1g = GridPos { row: (self.row + 1) as isize, col: self.col };
            let c2g = GridPos { row: (self.row - 1) as isize, col: self.col };
            let c3g = GridPos { row: self.row, col: (self.col + 1) as isize };
            let c4g = GridPos { row: self.row, col: (self.col - 1) as isize };
            let m1: int = if c1g.spec_inside() {
                1int
            } else {
                0int
            };
            let m2: int = m1 + (if c2g.spec_inside() {
                1int
            } else {
                0int
            });
            let m3: int = m2 + (if c3g.spec_inside() {
                1int
            } else {
                0int
            });
            assert forall|a: int, b: int| 0 <= a < b < out.len() implies (#[trigger] out@[a]).0
                != (#[trigger] out@[b]).0 by {
                assert(out@[a].0 == if a < m1 {
                    c1g
                } else if a < m2 {
                    c2g
                } else if a < m3 {
                    c3g
                } else {
                    c4g
                });
                assert(out@[b].0 == if b < m1 {
                    c1g
                } else if b < m2 {
                    c2g
                } else if b < m3 {
                    c3g
                } else {
                    c4g
                });
            }
            assert forall|q: GridPos| step_ok(*self, q) implies exists|k: int|
                0 <= k < out.len() && (#[trigger] out@[k]).0 == q by {
                assert(q.row == self.row + 1 && q.col == self.col || q.row == self.row - 1 && q.col
                    == self.col || q.row == self.row && q.col == self.col + 1 || q.row == self.row
                    && q.col == self.col - 1);
                let c1 = GridPos { row: (self.row + 1) as isize, col: self.col };
                let c2 = GridPos { row: (self.row - 1) as isize, col: self.col };
                let c3 = GridPos { row: self.row, col: (self.col + 1) as isize };
                let c4 = GridPos { row: self.row, col: (self.col - 1) as isize };
                let n1: int = if c1.spec_inside() {
                    1int
                } else {
                    0int
                };
                let n2: int = n1 + (if c2.spec_inside() {
                    1int
                } else {
                    0int
                });
                let n3: int = n2 + (if c3.spec_inside() {
                    1int
                } else {
                    0int
                });
                if q == c1 {
                    assert(out@[0].0 == q);
                } else if q == c2 {
                    assert(out@[n1].0 == q);
                } else if q == c3 {
                    assert(out@[n2].0 == q);
                } else {
                    assert(out@[n3].0 == q);
                }
            }
        }
        out
    }
}

/// The hit points recorded for `e` in an association list of entity health
/// readings: the first matching entry wins.
pub open spec fn lookup_hp(healths: Seq<(EntityId, isize)>, e: EntityId) -> Option<isize>
    decreases healths.len(),
{
    if healths.len() == 0 {
        None
    } else if healths[0].0 == e {
        Some(healths[0].1)
    } else {
        lookup_hp(healths.subrange(1, healths.len() as int), e)
    }
}

/// Find the hit points recorded for `e`, if any.
pub fn hp_of(healths: &Vec<(EntityId, isize)>, e: EntityId) -> (r: Option<isize>)
    ensures
        r == lookup_hp(healths@, e),
{
    proof {
        assert(healths@.subrange(0, healths@.len() as int) =~= healths@);
    }
    let mut k: usize = 0;
    while k < healths.len()
        invariant
            k <= healths.len(),
            lookup_hp(healths@, e) == lookup_hp(
                healths@.subrange(k as int, healths@.len() as int),
                e,
            ),
        decreases healths.len() - k,
    {
        let entry = healths[k];
        proof {
            let tail = healths@.subrange(k as int, healths@.len() as int);
            assert(tail[0] == healths@[k as int]);
            assert(tail.subrange(1, tail.len() as int) =~= healths@.subrange(
                k + 1,
                healths@.len() as int,
            ));
        }
        if entry.0 == e {
            return Some(entry.1);
        }
        k = k + 1;
    }
    proof {
        assert(healths@.subrange(healths@.len() as int, healths@.len() as int).len() == 0);
    }
    None
}

/// A fight-through cost clamped into the range the search accepts.
pub open spec fn clamp_cost(c: int) -> u64 {
    if c > COST_CAP {
        COST_CAP
    } else {
        c as u64
    }
}

/// What the cost grid records for cell `p`: the tower covering it together
/// with this enemy's clamped fight-through cost, for towers whose health is
/// known; anything else is plain terrain.
pub open spec fn spec_cell_cost(
    g: crate::grid::Grid,
    healths: Seq<(EntityId, isize)>,
    enemy: EnemyType,
    p: GridPos,
) -> Option<(EntityId, u64)> {
    match g.tower_at(p) {
        None => None,
        Some(e) => match lookup_hp(healths, e) {
            None => None,
            Some(hp) => Some((e, clamp_cost(enemy.spec_travel_cost(hp)))),
        },
    }
}

/// Build the per-cell tower cost grid the search consumes, joining the
/// occupancy grid with the current tower health readings for one enemy's
/// combat stats. Every recorded cost lies between the enemy's default
/// travel cost and the search's cap, so the result keeps the search's
/// distance heuristic admissible. The grid's death counts are not folded
/// in: how (or whether) that bias reaches planning is the caller's policy,
/// applied to the costs handed to the search.
pub fn build_tower_costs(
    g: &crate::grid::Grid,
    healths: &Vec<(EntityId, isize)>,
    enemy: &EnemyType,
) -> (r: Vec<Option<(EntityId, u64)>>)
    requires
        g.wf(),
    ensures
        r.len() == N_CELLS,
        tower_costs_capped(r@),
        forall|k: int|
            0 <= k < r.len() ==> ((#[trigger] r@[k]) matches Some(t) ==> t.1
                >= enemy.spec_default_travel_cost()),
        forall|p: GridPos|
            p.spec_inside() ==> #[trigger] tower_cost_at(r@, p) == spec_cell_cost(
                *g,
                healths@,
                *enemy,
                p,
            ),
{
    let mut r: Vec<Option<(EntityId, u64)>> = Vec::new();
    let mut i: usize = 0;
    while i < N_CELLS
        invariant
            r.len() == i,
            i <= N_CELLS,
            g.wf(),
            forall|k: int|
                0 <= k < i ==> ((#[trigger] r@[k]) matches Some(t) ==> t.1 <= COST_CAP),
            forall|k: int|
                0 <= k < i ==> ((#[trigger] r@[k]) matches Some(t) ==> t.1
                    >= enemy.spec_default_travel_cost()),
            forall|p: GridPos|
                p.spec_inside() && cell_index(p) < i ==> r@[cell_index(p)] == spec_cell_cost(
                    *g,
                    healths@,
                    *enemy,
                    p,
                ),
        decreases N_CELLS - i,
    {
        let pos = pos_of_index(i);
        let entry: Option<(EntityId, u64)> = match g.get_tower(&pos) {
            None => None,
            Some(e) => match hp_of(healths, e) {
                None => None,
                Some(hp) => Some((e, enemy.travel_cost_clamped(hp))),
            },
        };
        r.push(entry);
        proof {
            assert forall|p: GridPos|
                p.spec_inside() && cell_index(p) < i + 1 implies r@[cell_index(p)]
                == spec_cell_cost(*g, healths@, *enemy, p) by {
                if cell_index(p) == i {
                    crate::grid::lemma_cell_index_injective(p, pos);
                }
            }
        }
        i = i + 1;
    }
    r
}

} // verus!
