//! A minimal grid cell used where only adjacency inside a known set of
//! walkable cells matters.

use vstd::prelude::*;

use crate::grid_pos::{abs_int, manhattan};

verus! {

/// A cell addressed by row and column.
#[derive(Clone, Copy, PartialEq, Eq, Structural, Debug, Hash)]
pub struct Tile {
    pub row: isize,
    pub col: isize,
}

/// Manhattan distance between two tiles, as a mathematical integer.
pub open spec fn tile_distance(a: Tile, b: Tile) -> int {
    abs_int(a.row - b.row) + abs_int(a.col - b.col)
}

/// Whether `b` is one of the four cells orthogonally adjacent to `a`.
pub open spec fn tile_adjacent(a: Tile, b: Tile) -> bool {
    tile_distance(a, b) == 1
}

impl Tile {
    pub fn new(row: isize, col: isize) -> (r: Self)
        ensures
            r == (Tile { row, col }),
    {
        Tile { row, col }
    }

    /// Manhattan distance to `other`.
    pub fn distance_to(&self, other: &Tile) -> (r: usize)
        requires
            tile_distance(*self, *other) <= usize::MAX,
        ensures
            r == tile_distance(*self, *other),
    {
        let dr: i128 = self.row as i128 - other.row as i128;
        let dc: i128 = self.col as i128 - other.col as i128;
        let adr: i128 = if dr < 0 {
            -dr
        } else {
            dr
        };
        let adc: i128 = if dc < 0 {
            -dc
        } else {
            dc
        };
        (adr + adc) as usize
    }

    /// The orthogonally adjacent tiles that occur in `tiles`.
    pub fn neighbors(&self, tiles: &Vec<Tile>) -> (r: Vec<Tile>)
        requires
            isize::MIN < self.row < isize::MAX,
            isize::MIN < self.col < isize::MAX,
        ensures
            forall|t: Tile| #[trigger]
                r@.contains(t) <==> (tile_adjacent(*self, t) && tiles@.contains(t)),
            forall|a: int, b: int| 0 <= a < b < r.len() ==> r@[a] != r@[b],
            r.len() <= 4,
    {
        let mut neighbors: Vec<Tile> = Vec::new();
        let candidates: [Tile; 4] = [
            Tile { row: self.row + 1, col: self.col },
            Tile { row: self.row - 1, col: self.col },
            Tile { row: self.row, col: self.col + 1 },
            Tile { row: self.row, col: self.col - 1 },
        ];
        let mut k: usize = 0;
        while k < 4
            invariant
                k <= 4,
                candidates@.len() == 4,
                candidates@[0] == (Tile { row: (self.row + 1) as isize, col: self.col }),
                candidates@[1] == (Tile { row: (self.row - 1) as isize, col: self.col }),
                candidates@[2] == (Tile { row: self.row, col: (self.col + 1) as isize }),
                candidates@[3] == (Tile { row: self.row, col: (self.col - 1) as isize }),
                isize::MIN < self.row < isize::MAX,
                isize::MIN < self.col < isize::MAX,
                forall|t: Tile| #[trigger]
                    neighbors@.contains(t) <==> exists|m: int|
                        0 <= m < k && candidates@[m] == t && tiles@.contains(t),
                forall|a: int|
                    0 <= a < neighbors@.len() ==> exists|m: int|
                        0 <= m < k && candidates@[m] == #[trigger] neighbors@[a],
                forall|a: int, b: int|
                    0 <= a < b < neighbors@.len() ==> neighbors@[a] != neighbors@[b],
                neighbors@.len() <= k,
            decreases 4 - k,
        {
            let cand = candidates[k];
            let ghost prev = neighbors@;
            if tile_list_contains(tiles, &cand) {
                neighbors.push(cand);
            }
            proof {
                assert(candidates@[0] != candidates@[1]);
                assert(candidates@[0] != candidates@[2]);
                assert(candidates@[0] != candidates@[3]);
                assert(candidates@[1] != candidates@[2]);
                assert(candidates@[1] != candidates@[3]);
                assert(candidates@[2] != candidates@[3]);
                assert forall|a: int|
                    0 <= a < neighbors@.len() implies exists|m: int|
                    0 <= m < k + 1 && candidates@[m] == #[trigger] neighbors@[a] by {
                    if a < prev.len() {
                        assert(neighbors@[a] == prev[a]);
                        let m = choose|m: int| 0 <= m < k && candidates@[m] == prev[a];
                        assert(candidates@[m] == neighbors@[a]);
                    } else {
                        assert(neighbors@[a] == cand);
                        assert(candidates@[k as int] == neighbors@[a]);
                    }
                }
                assert forall|a: int, b: int|
                    0 <= a < b < neighbors@.len() implies neighbors@[a] != neighbors@[b] by {
                    if b == prev.len() {
                        assert(neighbors@[a] == prev[a]);
                        assert(neighbors@[b] == cand);
                        let m = choose|m: int| 0 <= m < k && candidates@[m] == prev[a];
                        assert(candidates@[m] != candidates@[k as int]);
                    }
                }
                assert forall|t: Tile| #[trigger] neighbors@.contains(t) implies exists|m: int|
                    0 <= m < k + 1 && candidates@[m] == t && tiles@.contains(t) by {
                    if neighbors@ =~= prev.push(cand) {
                        vstd::seq_lib::lemma_seq_contains_after_push(prev, cand, t);
                    }
                    if prev.contains(t) {
                        let m = choose|m: int| 0 <= m < k && candidates@[m] == t && tiles@.contains(t);
                        assert(candidates@[m] == t && tiles@.contains(t));
                    } else {
                        assert(t == cand && tiles@.contains(t));
                        assert(candidates@[k as int] == t);
                    }
                }
                assert forall|t: Tile|
                    (exists|m: int| 0 <= m < k + 1 && candidates@[m] == t && tiles@.contains(t))
                    implies #[trigger] neighbors@.contains(t) by {
                    let m = choose|m: int|
                        0 <= m < k + 1 && candidates@[m] == t && tiles@.contains(t);
                    if m < k {
                        assert(prev.contains(t));
                        if neighbors@ != prev {
                            vstd::seq_lib::lemma_seq_contains_after_push(prev, cand, t);
                        }
                    } else {
                        assert(t == cand);
                        assert(neighbors@.last() == cand);
                    }
                }
            }
            k = k + 1;
        }
        proof {
            assert forall|t: Tile| #[trigger] neighbors@.contains(t) implies (tile_adjacent(
                *self,
                t,
            ) && tiles@.contains(t)) by {
                let m = choose|m: int| 0 <= m < 4 && candidates@[m] == t && tiles@.contains(t);
                assert(candidates@[m] == t);
            }
            assert forall|t: Tile| tile_adjacent(*self, t) && tiles@.contains(t)
                implies #[trigger] neighbors@.contains(t) by {
                assert(t.row == self.row + 1 && t.col == self.col || t.row == self.row - 1 && t.col
                    == self.col || t.row == self.row && t.col == self.col + 1 || t.row == self.row
                    && t.col == self.col - 1);
                if t.row == self.row + 1 && t.col == self.col {
                    assert(candidates@[0] == t);
                } else if t.row == self.row - 1 && t.col == self.col {
                    assert(candidates@[1] == t);
                } else if t.col == self.col + 1 {
                    assert(candidates@[2] == t);
                } else {
                    assert(candidates@[3] == t);
                }
            }
        }
        neighbors
    }
}

/// Whether `t` occurs in `tiles`.
pub fn tile_list_contains(tiles: &Vec<Tile>, t: &Tile) -> (r: bool)
    ensures
        r == tiles@.contains(*t),
{
    let mut k: usize = 0;
    while k < tiles.len()
        invariant
            k <= tiles.len(),
            forall|m: int| 0 <= m < k ==> tiles@[m] != *t,
        decreases tiles.len() - k,
    {
        if tiles[k] == *t {
            return true;
        }
        k = k + 1;
    }
    false
}

} // verus!
