//! Positions on an offset hexagonal grid.
//!
//! Up is negative, down positive, left negative, right positive. Each cell
//! has six neighbors; the column of a diagonal neighbor depends on the
//! parity of the row, because odd rows sit half a cell to the right of even
//! rows.

use vstd::math::max;
use vstd::math::min;
use vstd::prelude::*;

verus! {

/// A position on the offset hexagonal grid: a row and a column.
#[derive(Hash, PartialEq, Eq, Copy, Clone, Debug, Structural)]
pub struct HexPosn {
    pub r: isize,
    pub c: isize,
}

/// The six directions out of a hexagonal cell, in the canonical order used
/// everywhere in this crate: UpLeft, UpRight, Left, Right, BotLeft, BotRight.
#[derive(Debug, Hash, PartialEq, Eq, Copy, Clone, Structural)]
pub enum HexDirection {
    UpLeft,
    UpRight,
    Left,
    Right,
    BotLeft,
    BotRight,
}

impl View for HexPosn {
    type V = (int, int);

    open spec fn view(&self) -> (int, int) {
        (self.r as int, self.c as int)
    }
}

/// Parity of a row: 0 for even rows, 1 for odd rows, whatever the sign.
pub open spec fn row_parity(r: int) -> int {
    if r % 2 == 0 {
        0
    } else {
        1
    }
}

/// The neighbor of a position in a direction, as unbounded integers.
/// Diagonal columns are shifted by the parity of the starting row.
pub open spec fn spec_neighbor(p: (int, int), d: HexDirection) -> (int, int) {
    let r = p.0;
    let c = p.1;
    let o = row_parity(r);
    match d {
        HexDirection::UpLeft => (r - 1, c - 1 + o),
        HexDirection::UpRight => (r - 1, c + o),
        HexDirection::Right => (r, c + 1),
        HexDirection::BotLeft => (r + 1, c - 1 + o),
        HexDirection::BotRight => (r + 1, c + o),
        HexDirection::Left => (r, c - 1),
    }
}

/// The direction that undoes a step: following `d` and then `opposite(d)`
/// returns to the starting cell.
pub open spec fn spec_opposite(d: HexDirection) -> HexDirection {
    match d {
        HexDirection::UpLeft => HexDirection::BotRight,
        HexDirection::UpRight => HexDirection::BotLeft,
        HexDirection::Right => HexDirection::Left,
        HexDirection::BotLeft => HexDirection::UpRight,
        HexDirection::BotRight => HexDirection::UpLeft,
        HexDirection::Left => HexDirection::Right,
    }
}

/// A position whose row and column lie strictly inside the `isize`
/// extremes: exactly what a neighbor step in any of the six directions
/// needs to stay inside machine arithmetic.
pub open spec fn can_step(p: (int, int)) -> bool {
    &&& (isize::MIN as int) < p.0 < (isize::MAX as int)
    &&& (isize::MIN as int) < p.1 < (isize::MAX as int)
}

/// The coordinate range a game instance keeps its board inside:
/// comfortably clear of the `isize` extremes, so that neighbor steps and
/// the bounding-box size arithmetic of `get_dimensions` fit machine
/// integers on 32-bit as well as 64-bit targets.
pub const COORD_LIMIT: isize = 268435456;

/// A position within the game's coordinate range; implies `can_step`.
pub open spec fn in_coord_limit(p: (int, int)) -> bool {
    -(COORD_LIMIT as int) <= p.0 <= COORD_LIMIT as int
        && -(COORD_LIMIT as int) <= p.1 <= COORD_LIMIT as int
}

impl HexDirection {
    /// The rank of a direction in the canonical order; also the fixed total
    /// order used to break ties among equally short escape routes.
    pub open spec fn spec_rank(self) -> int {
        match self {
            HexDirection::UpLeft => 0,
            HexDirection::UpRight => 1,
            HexDirection::Left => 2,
            HexDirection::Right => 3,
            HexDirection::BotLeft => 4,
            HexDirection::BotRight => 5,
        }
    }

    /// Rank of the direction under the canonical tie-break order,
    /// UpLeft being least and BotRight greatest.
    pub fn rank(self) -> (r: u8)
        ensures
            r as int == self.spec_rank(),
    {
        match self {
            HexDirection::UpLeft => 0,
            HexDirection::UpRight => 1,
            HexDirection::Left => 2,
            HexDirection::Right => 3,
            HexDirection::BotLeft => 4,
            HexDirection::BotRight => 5,
        }
    }

    /// The direction that undoes this one.
    pub fn opposite(self) -> (r: HexDirection)
        ensures
            r == spec_opposite(self),
    {
        match self {
            HexDirection::UpLeft => HexDirection::BotRight,
            HexDirection::UpRight => HexDirection::BotLeft,
            HexDirection::Right => HexDirection::Left,
            HexDirection::BotLeft => HexDirection::UpRight,
            HexDirection::BotRight => HexDirection::UpLeft,
            HexDirection::Left => HexDirection::Right,
        }
    }
}

/// The componentwise bounding box of a sequence of coordinates: the
/// smallest box that contains them all, inclusive on both corners. The
/// box of an empty sequence is the origin alone.
pub open spec fn spec_bounds(s: Seq<(int, int)>) -> ((int, int), (int, int))
    decreases s.len(),
{
    if s.len() == 0 {
        ((0, 0), (0, 0))
    } else if s.len() == 1 {
        (s.last(), s.last())
    } else {
        let b = spec_bounds(s.drop_last());
        let k = s.last();
        (
            (vstd::math::min(b.0.0, k.0), vstd::math::min(b.0.1, k.1)),
            (vstd::math::max(b.1.0, k.0), vstd::math::max(b.1.1, k.1)),
        )
    }
}

/// The bounding box has ordered corners, contains every listed
/// coordinate, and — when the sequence is not empty — attains each of
/// its four corner coordinates at some element.
pub proof fn lemma_spec_bounds_props(s: Seq<(int, int)>)
    ensures
        spec_bounds(s).0.0 <= spec_bounds(s).1.0,
        spec_bounds(s).0.1 <= spec_bounds(s).1.1,
        forall|i: int|
            0 <= i < s.len() ==> {
                &&& spec_bounds(s).0.0 <= (#[trigger] s[i]).0 <= spec_bounds(s).1.0
                &&& spec_bounds(s).0.1 <= s[i].1 <= spec_bounds(s).1.1
            },
        s.len() > 0 ==> {
            &&& exists|i: int| 0 <= i < s.len() && (#[trigger] s[i]).0 == spec_bounds(s).0.0
            &&& exists|i: int| 0 <= i < s.len() && (#[trigger] s[i]).1 == spec_bounds(s).0.1
            &&& exists|i: int| 0 <= i < s.len() && (#[trigger] s[i]).0 == spec_bounds(s).1.0
            &&& exists|i: int| 0 <= i < s.len() && (#[trigger] s[i]).1 == spec_bounds(s).1.1
        },
    decreases s.len(),
{
    if s.len() == 0 {
    } else if s.len() == 1 {
        assert(s[0] == s.last());
    } else {
        lemma_spec_bounds_props(s.drop_last());
        assert forall|i: int| 0 <= i < s.len() implies {
            &&& spec_bounds(s).0.0 <= (#[trigger] s[i]).0 <= spec_bounds(s).1.0
            &&& spec_bounds(s).0.1 <= s[i].1 <= spec_bounds(s).1.1
        } by {
            if i < s.len() - 1 {
                assert(s.drop_last()[i] == s[i]);
            }
        }
        let b = spec_bounds(s.drop_last());
        if spec_bounds(s).0.0 == b.0.0 {
            let i = choose|i: int|
                0 <= i < s.drop_last().len() && (#[trigger] s.drop_last()[i]).0 == b.0.0;
            assert(s[i].0 == spec_bounds(s).0.0);
        } else {
            assert(s[s.len() - 1].0 == spec_bounds(s).0.0);
        }
        if spec_bounds(s).0.1 == b.0.1 {
            let i = choose|i: int|
                0 <= i < s.drop_last().len() && (#[trigger] s.drop_last()[i]).1 == b.0.1;
            assert(s[i].1 == spec_bounds(s).0.1);
        } else {
            assert(s[s.len() - 1].1 == spec_bounds(s).0.1);
        }
        if spec_bounds(s).1.0 == b.1.0 {
            let i = choose|i: int|
                0 <= i < s.drop_last().len() && (#[trigger] s.drop_last()[i]).0 == b.1.0;
            assert(s[i].0 == spec_bounds(s).1.0);
        } else {
            assert(s[s.len() - 1].0 == spec_bounds(s).1.0);
        }
        if spec_bounds(s).1.1 == b.1.1 {
            let i = choose|i: int|
                0 <= i < s.drop_last().len() && (#[trigger] s.drop_last()[i]).1 == b.1.1;
            assert(s[i].1 == spec_bounds(s).1.1);
        } else {
            assert(s[s.len() - 1].1 == spec_bounds(s).1.1);
        }
    }
}

impl HexPosn {
    /// Builds a position from a row and a column.
    pub fn from_vals(r: isize, c: isize) -> (p: HexPosn)
        ensures
            p@ == (r as int, c as int),
    {
        HexPosn { r, c }
    }

    /// The neighbor of this position in direction `d`.
    pub fn get_neighbor(&self, d: HexDirection) -> (p: HexPosn)
        requires
            can_step(self@),
        ensures
            p@ == spec_neighbor(self@, d),
    {
        let r = self.r;
        let c = self.c;
        let row_offset: isize = if r % 2 == 0 {
            0
        } else {
            1
        };
        proof {
            assert(row_offset as int == row_parity(r as int)) by {
                assert((r as int) % 2 == 0 <==> r % 2 == 0);
            };
        }
        match d {
            HexDirection::UpLeft => HexPosn { r: r - 1, c: c - 1 + row_offset },
            HexDirection::UpRight => HexPosn { r: r - 1, c: c + row_offset },
            HexDirection::Right => HexPosn { r, c: c + 1 },
            HexDirection::BotLeft => HexPosn { r: r + 1, c: c - 1 + row_offset },
            HexDirection::BotRight => HexPosn { r: r + 1, c: c + row_offset },
            HexDirection::Left => HexPosn { r, c: c - 1 },
        }
    }

    /// All six neighbors, paired with the direction that reaches each, in
    /// the canonical order.
    pub fn get_neighbors(&self) -> (v: Vec<(HexDirection, HexPosn)>)
        requires
            can_step(self@),
        ensures
            v@.len() == 6,
            forall|i: int|
                0 <= i < 6 ==> #[trigger] v@[i].0.spec_rank() == i && v@[i].1@ == spec_neighbor(
                    self@,
                    v@[i].0,
                ),
    {
        let mut v: Vec<(HexDirection, HexPosn)> = Vec::new();
        v.push((HexDirection::UpLeft, self.get_neighbor(HexDirection::UpLeft)));
        v.push((HexDirection::UpRight, self.get_neighbor(HexDirection::UpRight)));
        v.push((HexDirection::Left, self.get_neighbor(HexDirection::Left)));
        v.push((HexDirection::Right, self.get_neighbor(HexDirection::Right)));
        v.push((HexDirection::BotLeft, self.get_neighbor(HexDirection::BotLeft)));
        v.push((HexDirection::BotRight, self.get_neighbor(HexDirection::BotRight)));
        v
    }

    /// The componentwise minimum and maximum of two positions.
    pub fn get_bounding_coords(&self, p: HexPosn) -> (b: (HexPosn, HexPosn))
        ensures
            b.0@ == (min(self@.0, p@.0), min(self@.1, p@.1)),
            b.1@ == (max(self@.0, p@.0), max(self@.1, p@.1)),
    {
        let minr = if self.r < p.r {
            self.r
        } else {
            p.r
        };
        let minc = if self.c < p.c {
            self.c
        } else {
            p.c
        };
        let maxr = if self.r < p.r {
            p.r
        } else {
            self.r
        };
        let maxc = if self.c < p.c {
            p.c
        } else {
            self.c
        };
        (HexPosn { r: minr, c: minc }, HexPosn { r: maxr, c: maxc })
    }

    /// The smallest bounding box that contains every listed position,
    /// inclusive on both corners; two origin corners when the list is
    /// empty.
    pub fn get_bounds(coords: &Vec<HexPosn>) -> (b: (HexPosn, HexPosn))
        ensures
            (b.0@, b.1@) == spec_bounds(coords@.map_values(|q: HexPosn| q@)),
    {
        let ghost keys = coords@.map_values(|q: HexPosn| q@);
        if coords.len() == 0 {
            return (HexPosn { r: 0, c: 0 }, HexPosn { r: 0, c: 0 });
        }
        let first = coords[0];
        let mut minp = first;
        let mut maxp = first;
        let mut j: usize = 1;
        proof {
            assert(keys.take(1).len() == 1);
            assert(keys.take(1).last() == first@);
        }
        while j < coords.len()
            invariant
                1 <= j <= coords@.len(),
                keys == coords@.map_values(|q: HexPosn| q@),
                (minp@, maxp@) == spec_bounds(keys.take(j as int)),
            decreases coords@.len() - j,
        {
            let q = coords[j];
            proof {
                assert(keys.take(j + 1).drop_last() =~= keys.take(j as int));
                assert(keys.take(j + 1).last() == coords@[j as int]@);
            }
            let (new_min, _) = minp.get_bounding_coords(q);
            let (_, new_max) = maxp.get_bounding_coords(q);
            minp = new_min;
            maxp = new_max;
            j = j + 1;
        }
        proof {
            assert(keys.take(keys.len() as int) =~= keys);
        }
        (minp, maxp)
    }

    /// Whether this position lies inside the inclusive bounding box.
    pub fn in_bounds(&self, bounds: (HexPosn, HexPosn)) -> (r: bool)
        ensures
            r == (bounds.0@.0 <= self@.0 <= bounds.1@.0 && bounds.0@.1 <= self@.1 <= bounds.1@.1),
    {
        let (minb, maxb) = bounds;
        (minb.r <= self.r && self.r <= maxb.r) && (minb.c <= self.c && self.c <= maxb.c)
    }
}

/// Following a direction and then its opposite returns to the start:
/// for every position and every direction,
/// `spec_neighbor(spec_neighbor(p, d), spec_opposite(d)) == p`.
pub proof fn lemma_neighbor_opposite(p: (int, int), d: HexDirection)
    ensures
        spec_neighbor(spec_neighbor(p, d), spec_opposite(d)) == p,
{
    let r = p.0;
    assert(row_parity(r) == 0 ==> row_parity(r - 1) == 1 && row_parity(r + 1) == 1) by {
        if r % 2 == 0 {
            assert((r - 1) % 2 != 0) by (nonlinear_arith)
                requires
                    r % 2 == 0,
            ;
            assert((r + 1) % 2 != 0) by (nonlinear_arith)
                requires
                    r % 2 == 0,
            ;
        }
    };
    assert(row_parity(r) == 1 ==> row_parity(r - 1) == 0 && row_parity(r + 1) == 0) by {
        if r % 2 != 0 {
            assert((r - 1) % 2 == 0) by (nonlinear_arith)
                requires
                    r % 2 != 0,
            ;
            assert((r + 1) % 2 == 0) by (nonlinear_arith)
                requires
                    r % 2 != 0,
            ;
        }
    };
}

} // verus!
