//! Integer 2D grid coordinates with Manhattan distance and bounds checks.

use vstd::prelude::*;

use crate::{COLUMNS, ROWS};

verus! {

/// A cell of the playing field, addressed by row and column.
/// Positions outside `0..ROWS` x `0..COLUMNS` can be represented but are
/// never traversable.
#[derive(Clone, Copy, PartialEq, Eq, Structural, Debug, Hash)]
pub struct GridPos {
    pub row: isize,
    pub col: isize,
}

/// Absolute value of a mathematical integer.
pub open spec fn abs_int(x: int) -> int {
    if x < 0 {
        -x
    } else {
        x
    }
}

/// Manhattan distance between two positions, as a mathematical integer.
pub open spec fn manhattan(a: GridPos, b: GridPos) -> int {
    abs_int(a.row - b.row) + abs_int(a.col - b.col)
}

impl GridPos {
    /// Whether the position lies on the playing field.
    pub open spec fn spec_inside(self) -> bool {
        0 <= self.row < ROWS && 0 <= self.col < COLUMNS
    }

    pub fn new(row: isize, col: isize) -> (r: GridPos)
        ensures
            r == (GridPos { row, col }),
    {
        GridPos { row, col }
    }

    pub fn inside_grid_bounds(&self) -> (r: bool)
        ensures
            r == self.spec_inside(),
    {
        0 <= self.row && self.row < ROWS && 0 <= self.col && self.col < COLUMNS
    }

    /// Manhattan distance to `other`.
    pub fn distance_to(&self, other: &GridPos) -> (r: usize)
        requires
            manhattan(*self, *other) <= usize::MAX,
        ensures
            r == manhattan(*self, *other),
    {
        let dr: i128 = self.row as i128 - other.row as i128;
        let dc: i128 = self.col as i128 - other.col as i128;
        let adr: i128 = if dr < 0 {
            -dr
        } else {
            dr
        };
        let adc: i128 = if dc < 0 {
            -dc
        } else {
            dc
        };
        (adr + adc) as usize
    }

    /// A uniformly random position strictly inside the field's interior
    /// rectangle, drawn from `rng`.
    pub fn random(rng: &mut fastrand::Rng) -> (r: GridPos)
        ensures
            0 <= r.row < ROWS - 1,
            0 <= r.col < COLUMNS - 1,
    {
        GridPos {
            row: crate::rng::rng_isize_below(rng, ROWS - 1),
            col: crate::rng::rng_isize_below(rng, COLUMNS - 1),
        }
    }

    /// The least Manhattan distance from `p` to any of `goals`.
    pub open spec fn min_goal_dist(p: GridPos, goals: Seq<GridPos>) -> int
        decreases goals.len(),
    {
        if goals.len() == 0 {
            0
        } else if goals.len() == 1 {
            manhattan(p, goals[0])
        } else {
            vstd::math::min(
                manhattan(p, goals.last()),
                Self::min_goal_dist(p, goals.drop_last()),
            )
        }
    }

    /// The closest of `goals`: a member whose distance attains the minimum.
    pub fn closest(&self, goals: &Vec<GridPos>) -> (r: GridPos)
        requires
            goals.len() > 0,
            self.spec_inside(),
            forall|k: int| 0 <= k < goals.len() ==> (#[trigger] goals[k]).spec_inside(),
        ensures
            goals@.contains(r),
            manhattan(*self, r) == Self::min_goal_dist(*self, goals@),
    {
        let mut best: GridPos = goals[0];
        let mut best_d: usize = self.distance_to(&goals[0]);
        let mut k: usize = 1;
        while k < goals.len()
            invariant
                1 <= k <= goals.len(),
                self.spec_inside(),
                forall|m: int| 0 <= m < goals.len() ==> (#[trigger] goals[m]).spec_inside(),
                exists|m: int| 0 <= m < k && goals[m] == best,
                best_d == manhattan(*self, best),
                forall|m: int| 0 <= m < k ==> manhattan(*self, #[trigger] goals[m]) >= best_d,
            decreases goals.len() - k,
        {
            let d = self.distance_to(&goals[k]);
            if d < best_d {
                best = goals[k];
                best_d = d;
            }
            k = k + 1;
        }
        proof {
            let m = choose|m: int| 0 <= m < goals.len() && goals[m] == best;
            assert(goals@[m] == best);
            Self::lemma_min_goal_dist_properties(*self, goals@);
        }
        best
    }

    /// The distance to the closest of `goals`.
    pub fn distance_to_closest(&self, goals: &Vec<GridPos>) -> (r: usize)
        requires
            goals.len() > 0,
            self.spec_inside(),
            forall|k: int| 0 <= k < goals.len() ==> (#[trigger] goals[k]).spec_inside(),
        ensures
            r == Self::min_goal_dist(*self, goals@),
    {
        let c = self.closest(goals);
        proof {
            let m = choose|m: int| 0 <= m < goals@.len() && goals@[m] == c;
        }
        self.distance_to(&c)
    }

    /// The minimum distance is attained by some goal and is a lower bound on
    /// every goal's distance.
    pub proof fn lemma_min_goal_dist_properties(p: GridPos, goals: Seq<GridPos>)
        requires
            goals.len() > 0,
        ensures
            exists|k: int|
                0 <= k < goals.len() && manhattan(p, #[trigger] goals[k]) == Self::min_goal_dist(
                    p,
                    goals,
                ),
            forall|k: int|
                0 <= k < goals.len() ==> manhattan(p, #[trigger] goals[k]) >= Self::min_goal_dist(
                    p,
                    goals,
                ),
        decreases goals.len(),
    {
        if goals.len() == 1 {
            assert(manhattan(p, goals[0]) == Self::min_goal_dist(p, goals));
        } else {
            Self::lemma_min_goal_dist_properties(p, goals.drop_last());
            let sub = goals.drop_last();
            if Self::min_goal_dist(p, goals) == manhattan(p, goals.last()) {
                assert(manhattan(p, goals[goals.len() - 1]) == Self::min_goal_dist(p, goals));
            } else {
                let k = choose|k: int|
                    0 <= k < sub.len() && manhattan(p, #[trigger] sub[k]) == Self::min_goal_dist(
                        p,
                        sub,
                    );
                assert(goals[k] == sub[k]);
                assert(manhattan(p, goals[k]) == Self::min_goal_dist(p, goals));
            }
            assert forall|k: int|
                0 <= k < goals.len() implies manhattan(p, #[trigger] goals[k])
                >= Self::min_goal_dist(p, goals) by {
                if k < goals.len() - 1 {
                    assert(sub[k] == goals[k]);
                }
            }
        }
    }

    /// The position displaced by `dr` rows and `dc` columns.
    pub fn shifted(&self, dr: isize, dc: isize) -> (r: GridPos)
        requires
            isize::MIN <= self.row + dr <= isize::MAX,
            isize::MIN <= self.col + dc <= isize::MAX,
        ensures
            r.row == self.row + dr,
            r.col == self.col + dc,
    {
        GridPos { row: self.row + dr, col: self.col + dc }
    }
}

} // verus!
