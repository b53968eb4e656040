//! Tiles and the board: a bounded mapping from hex positions to tiles.
//!
//! The set of positions is fixed when the board is built; afterwards only
//! the tile kind at a position may change, and only from a passable tile to
//! a blocked one.

use vstd::prelude::*;

use crate::posn::HexPosn;
use crate::posn::spec_bounds;

verus! {

/// The board takes at most this many tiles at construction; a longer
/// sequence is silently truncated, which guards against unbounded
/// generators.
pub const MAX_BOARD_SIZE: usize = 100;

/// A tile of the classic game:
/// - `Free`: the pig can stand here and cannot escape,
/// - `Edge`: the pig can stand here and escapes,
/// - `Block`: the pig cannot enter.
#[derive(Debug, Clone, Copy, PartialEq, Eq, Structural)]
pub enum ClassicTile {
    Free,
    Edge,
    Block,
}

/// Why a placement was refused.
#[derive(Debug, Clone, Copy, PartialEq, Eq, Structural)]
pub enum PlaceError {
    /// The position is not part of the board at all.
    NotOnBoard,
    /// The tile at the position does not accept the placement.
    AlreadyBlocked,
    /// The pig is standing on the position.
    PigInTheWay,
}

impl ClassicTile {
    /// Whether the pig can walk onto this tile.
    pub open spec fn spec_passable(self) -> bool {
        !(self is Block)
    }

    /// Whether the pig escapes from this tile.
    pub open spec fn spec_exit(self) -> bool {
        self is Edge
    }

    /// Whether the pig can walk onto this tile.
    pub fn is_passable(&self) -> (b: bool)
        ensures
            b == self.spec_passable(),
    {
        match self {
            ClassicTile::Block => false,
            _ => true,
        }
    }

    /// Whether the pig escapes from this tile.
    pub fn is_exit(&self) -> (b: bool)
        ensures
            b == self.spec_exit(),
    {
        match self {
            ClassicTile::Edge => true,
            _ => false,
        }
    }

    /// Places `other` onto this tile: only a `Block` may be placed, and
    /// only over a passable tile. Returns the tile that results.
    pub fn place_onto(&self, other: Self) -> (r: Result<Self, PlaceError>)
        ensures
            self.spec_passable() && other is Block ==> r == Ok::<Self, PlaceError>(other),
            !(self.spec_passable() && other is Block) ==> r == Err::<Self, PlaceError>(
                PlaceError::AlreadyBlocked,
            ),
    {
        match (self, other) {
            (ClassicTile::Edge | ClassicTile::Free, ClassicTile::Block) => Ok(ClassicTile::Block),
            _ => Err(PlaceError::AlreadyBlocked),
        }
    }
}

/// The sequence of keys of an entry sequence, as integer pairs.
pub open spec fn keys_of(s: Seq<(HexPosn, ClassicTile)>) -> Seq<(int, int)> {
    s.map_values(|e: (HexPosn, ClassicTile)| e.0@)
}

/// The mapping that an entry sequence denotes: entries are inserted in
/// order, so a later entry for the same position wins.
pub open spec fn entries_map(s: Seq<(HexPosn, ClassicTile)>) -> Map<(int, int), ClassicTile>
    decreases s.len(),
{
    if s.len() == 0 {
        Map::empty()
    } else {
        entries_map(s.drop_last()).insert(s.last().0@, s.last().1)
    }
}

/// A mapping from positions to tiles. The key set is fixed at
/// construction; `place` may only change a tile's kind.
pub struct Board {
    entries: Vec<(HexPosn, ClassicTile)>,
}

impl View for Board {
    type V = Map<(int, int), ClassicTile>;

    closed spec fn view(&self) -> Map<(int, int), ClassicTile> {
        entries_map(self.entries@)
    }
}

impl Board {
    /// The board is well formed: one entry per position, and a bounded
    /// number of them.
    pub closed spec fn wf(&self) -> bool {
        &&& keys_of(self.entries@).no_duplicates()
        &&& self.entries@.len() <= MAX_BOARD_SIZE
    }

    /// The keys of the board, in insertion order; what the bounding box
    /// is computed over.
    pub closed spec fn key_seq(&self) -> Seq<(int, int)> {
        keys_of(self.entries@)
    }

    /// Builds a board from a sequence of position-tile pairs: every one
    /// of the first `MAX_BOARD_SIZE` entries is kept (extras are silently
    /// dropped), and a later entry for a position already seen replaces
    /// it.
    pub fn new(tiles: Vec<(HexPosn, ClassicTile)>) -> (b: Board)
        ensures
            b.wf(),
            b@ == entries_map(
                tiles@.take(
                    if tiles@.len() <= MAX_BOARD_SIZE as int {
                        tiles@.len() as int
                    } else {
                        MAX_BOARD_SIZE as int
                    },
                ),
            ),
    {
        let n = if tiles.len() <= MAX_BOARD_SIZE {
            tiles.len()
        } else {
            MAX_BOARD_SIZE
        };
        let mut b = Board { entries: Vec::new() };
        let mut i: usize = 0;
        proof {
            assert(tiles@.take(0) =~= Seq::<(HexPosn, ClassicTile)>::empty());
        }
        while i < n
            invariant
                i <= n,
                n <= tiles@.len(),
                n <= MAX_BOARD_SIZE,
                b.wf(),
                b.entries@.len() <= i,
                b@ == entries_map(tiles@.take(i as int)),
            decreases n - i,
        {
            let (p, t) = tiles[i];
            let ghost prev = tiles@.take(i as int);
            proof {
                assert(tiles@.take(i + 1).drop_last() =~= prev);
                assert(tiles@.take(i + 1).last() == tiles@[i as int]);
            }
            b.insert_entry(p, t);
            i = i + 1;
        }
        proof {
            assert(tiles@.take(n as int) =~= tiles@.take(
                if tiles@.len() <= MAX_BOARD_SIZE as int {
                    tiles@.len() as int
                } else {
                    MAX_BOARD_SIZE as int
                },
            ));
        }
        b
    }

    /// Inserts or overwrites the tile stored for a position.
    fn insert_entry(&mut self, p: HexPosn, t: ClassicTile)
        requires
            old(self).wf(),
            old(self).entries@.len() < MAX_BOARD_SIZE || old(self)@.dom().contains(p@),
        ensures
            final(self).wf(),
            final(self)@ == old(self)@.insert(p@, t),
            final(self).entries@.len() <= old(self).entries@.len() + 1,
            old(self)@.dom().contains(p@) ==> final(self).key_seq() == old(self).key_seq(),
            !old(self)@.dom().contains(p@) ==> final(self).key_seq() == old(self).key_seq().push(
                p@,
            ),
    {
        let ghost s0 = self.entries@;
        let mut j: usize = 0;
        while j < self.entries.len()
            invariant
                self.entries@ == s0,
                s0 == old(self).entries@,
                old(self).wf(),
                keys_of(s0).no_duplicates(),
                j <= s0.len(),
                forall|k: int| 0 <= k < j ==> (#[trigger] s0[k].0)@ != p@,
            decreases s0.len() - j,
        {
            let (q, _) = self.entries[j];
            if q.r == p.r && q.c == p.c {
                proof {
                    lemma_entries_map_found(s0, j as int, p@);
                    lemma_entries_map_update(s0, j as int, p, t);
                    assert(keys_of(s0.update(j as int, (p, t))) =~= keys_of(s0));
                }
                self.entries[j] = (p, t);
                return ;
            }
            j = j + 1;
        }
        proof {
            lemma_entries_map_push(s0, p, t);
            assert(keys_of(s0.push((p, t))) =~= keys_of(s0).push(p@));
            lemma_absent_key(s0, p@);
            if old(self)@.dom().contains(p@) {
                assert(false);
            }
        }
        self.entries.push((p, t));
    }

    /// The tile at a position, or `None` when the position is not part of
    /// the board.
    pub fn get_tile(&self, posn: HexPosn) -> (r: Option<ClassicTile>)
        requires
            self.wf(),
        ensures
            r == if self@.dom().contains(posn@) {
                Some(self@[posn@])
            } else {
                None::<ClassicTile>
            },
    {
        let mut j: usize = 0;
        while j < self.entries.len()
            invariant
                self.wf(),
                j <= self.entries@.len(),
                forall|k: int| 0 <= k < j ==> (#[trigger] self.entries@[k].0)@ != posn@,
            decreases self.entries@.len() - j,
        {
            let (q, t) = self.entries[j];
            if q.r == posn.r && q.c == posn.c {
                proof {
                    lemma_entries_map_found(self.entries@, j as int, posn@);
                }
                return Some(t);
            }
            j = j + 1;
        }
        proof {
            lemma_absent_key(self.entries@, posn@);
        }
        None
    }

    /// Places a tile at a position: fails when the position is off the
    /// board or the tile there refuses the placement; on success the new
    /// tile replaces the stored one.
    pub fn place(&mut self, posn: HexPosn, tile: ClassicTile) -> (r: Result<(), PlaceError>)
        requires
            old(self).wf(),
        ensures
            final(self).wf(),
            final(self).key_seq() == old(self).key_seq(),
            !old(self)@.dom().contains(posn@) ==> r == Err::<(), PlaceError>(PlaceError::NotOnBoard)
                && final(self)@ == old(self)@,
            old(self)@.dom().contains(posn@) && !(old(self)@[posn@].spec_passable()
                && tile is Block) ==> r == Err::<(), PlaceError>(PlaceError::AlreadyBlocked)
                && final(self)@ == old(self)@,
            old(self)@.dom().contains(posn@) && old(self)@[posn@].spec_passable() && tile is Block
                ==> r == Ok::<(), PlaceError>(()) && final(self)@ == old(self)@.insert(posn@, tile),
    {
        match self.get_tile(posn) {
            None => Err(PlaceError::NotOnBoard),
            Some(curr_tile) => {
                match curr_tile.place_onto(tile) {
                    Err(e) => Err(e),
                    Ok(new_tile) => {
                        self.insert_entry(posn, new_tile);
                        Ok(())
                    },
                }
            },
        }
    }

    /// The smallest bounding box of the board's positions, inclusive on
    /// both corners; two origin corners when the board is empty.
    pub fn get_dimensions(&self) -> (b: (HexPosn, HexPosn))
        requires
            self.wf(),
        ensures
            (b.0@, b.1@) == spec_bounds(self.key_seq()),
            b.0@.0 <= b.1@.0,
            b.0@.1 <= b.1@.1,
            forall|p: (int, int)|
                #[trigger] self@.dom().contains(p) ==> b.0@.0 <= p.0 <= b.1@.0 && b.0@.1 <= p.1
                    <= b.1@.1,
            (exists|q: (int, int)| #[trigger] self@.dom().contains(q)) ==> {
                &&& exists|q: (int, int)| #[trigger] self@.dom().contains(q) && q.0 == b.0@.0
                &&& exists|q: (int, int)| #[trigger] self@.dom().contains(q) && q.1 == b.0@.1
                &&& exists|q: (int, int)| #[trigger] self@.dom().contains(q) && q.0 == b.1@.0
                &&& exists|q: (int, int)| #[trigger] self@.dom().contains(q) && q.1 == b.1@.1
            },
            !(exists|q: (int, int)| #[trigger] self@.dom().contains(q)) ==> b.0@ == (0int, 0int)
                && b.1@ == (0int, 0int),
    {
        proof {
            self.lemma_bounds_of_dom();
        }
        if self.entries.len() == 0 {
            return (HexPosn { r: 0, c: 0 }, HexPosn { r: 0, c: 0 });
        }
        let (first, _) = self.entries[0];
        let mut minp = first;
        let mut maxp = first;
        let mut j: usize = 1;
        proof {
            assert(keys_of(self.entries@.take(1)).len() == 1);
            assert(keys_of(self.entries@.take(1)).last() == self.entries@[0].0@);
        }
        while j < self.entries.len()
            invariant
                self.wf(),
                1 <= j <= self.entries@.len(),
                (minp@, maxp@) == spec_bounds(keys_of(self.entries@.take(j as int))),
            decreases self.entries@.len() - j,
        {
            let (q, _) = self.entries[j];
            proof {
                assert(self.entries@.take(j + 1).drop_last() =~= self.entries@.take(j as int));
                assert(keys_of(self.entries@.take(j + 1)).drop_last() =~= keys_of(
                    self.entries@.take(j as int),
                ));
                assert(keys_of(self.entries@.take(j + 1)).last() == self.entries@[j as int].0@);
            }
            let (new_min, _) = minp.get_bounding_coords(q);
            let (_, new_max) = maxp.get_bounding_coords(q);
            minp = new_min;
            maxp = new_max;
            j = j + 1;
        }
        proof {
            assert(self.entries@.take(self.entries@.len() as int) =~= self.entries@);
        }
        (minp, maxp)
    }

    /// The bounding box over the board's keys has ordered corners inside
    /// the coordinate range, contains every position of the board, and —
    /// when the board has any position at all — attains each of its four
    /// corner coordinates at one.
    pub proof fn lemma_bounds_of_dom(&self)
        requires
            self.wf(),
        ensures
            ({
                let b = spec_bounds(self.key_seq());
                &&& b.0.0 <= b.1.0
                &&& b.0.1 <= b.1.1
                &&& forall|p: (int, int)|
                    #[trigger] self@.dom().contains(p) ==> b.0.0 <= p.0 <= b.1.0 && b.0.1 <= p.1
                        <= b.1.1
                &&& (exists|q: (int, int)| #[trigger] self@.dom().contains(q)) ==> {
                    &&& exists|q: (int, int)| #[trigger] self@.dom().contains(q) && q.0 == b.0.0
                    &&& exists|q: (int, int)| #[trigger] self@.dom().contains(q) && q.1 == b.0.1
                    &&& exists|q: (int, int)| #[trigger] self@.dom().contains(q) && q.0 == b.1.0
                    &&& exists|q: (int, int)| #[trigger] self@.dom().contains(q) && q.1 == b.1.1
                }
                &&& !(exists|q: (int, int)| #[trigger] self@.dom().contains(q)) ==> b.0 == (
                    0int,
                    0int,
                ) && b.1 == (0int, 0int)
            }),
    {
        let ks = self.key_seq();
        crate::posn::lemma_spec_bounds_props(ks);
        let b = spec_bounds(ks);
        assert forall|p: (int, int)| #[trigger] self@.dom().contains(p) implies b.0.0 <= p.0
            <= b.1.0 && b.0.1 <= p.1 <= b.1.1 by {
            lemma_dom_has_entry(self.entries@, p);
            let i = choose|i: int|
                0 <= i < self.entries@.len() && (#[trigger] self.entries@[i].0)@ == p;
            assert(ks[i] == p);
        }
        if exists|q: (int, int)| #[trigger] self@.dom().contains(q) {
            let q0 = choose|q: (int, int)| #[trigger] self@.dom().contains(q);
            lemma_dom_has_entry(self.entries@, q0);
            assert(self.entries@.len() > 0);
            assert(ks.len() > 0);
            let i1 = choose|i: int| 0 <= i < ks.len() && (#[trigger] ks[i]).0 == b.0.0;
            lemma_entries_map_found(self.entries@, i1, ks[i1]);
            assert(self@.dom().contains(ks[i1]) && ks[i1].0 == b.0.0);
            let i2 = choose|i: int| 0 <= i < ks.len() && (#[trigger] ks[i]).1 == b.0.1;
            lemma_entries_map_found(self.entries@, i2, ks[i2]);
            assert(self@.dom().contains(ks[i2]) && ks[i2].1 == b.0.1);
            let i3 = choose|i: int| 0 <= i < ks.len() && (#[trigger] ks[i]).0 == b.1.0;
            lemma_entries_map_found(self.entries@, i3, ks[i3]);
            assert(self@.dom().contains(ks[i3]) && ks[i3].0 == b.1.0);
            let i4 = choose|i: int| 0 <= i < ks.len() && (#[trigger] ks[i]).1 == b.1.1;
            lemma_entries_map_found(self.entries@, i4, ks[i4]);
            assert(self@.dom().contains(ks[i4]) && ks[i4].1 == b.1.1);
        } else {
            assert(self.entries@.len() == 0) by {
                if self.entries@.len() > 0 {
                    lemma_entry_key_in_dom(self.entries@, 0);
                    assert(self@.dom().contains(self.entries@[0].0@));
                }
            };
            assert(ks.len() == 0);
        }
    }

    /// The board's key set is finite and bounded by the construction cap.
    pub proof fn lemma_dom_bound(&self)
        requires
            self.wf(),
        ensures
            self@.dom().finite(),
            self@.dom().len() <= MAX_BOARD_SIZE,
    {
        lemma_entries_map_dom(self.entries@);
    }
}

/// Placing a block on the same position twice: the first placement meets
/// `place`'s success condition, and on the board it leaves, the same
/// placement meets the condition for `AlreadyBlocked` — the first
/// succeeds, the second must fail.
pub proof fn lemma_place_twice(m: Map<(int, int), ClassicTile>, p: (int, int))
    requires
        m.dom().contains(p),
        m[p].spec_passable(),
    ensures
        m.insert(p, ClassicTile::Block).dom().contains(p),
        !m.insert(p, ClassicTile::Block)[p].spec_passable(),
{
}

/// An entry whose key no other entry shares puts its tile at its key,
/// provided the key's coordinates are in range.
pub proof fn lemma_entries_map_get(s: Seq<(HexPosn, ClassicTile)>, i: int)
    requires
        0 <= i < s.len(),
        forall|j: int| 0 <= j < s.len() && j != i ==> (#[trigger] s[j].0)@ != s[i].0@,
    ensures
        entries_map(s).dom().contains(s[i].0@),
        entries_map(s)[s[i].0@] == s[i].1,
    decreases s.len(),
{
    if i == s.len() - 1 {
    } else {
        assert(s.drop_last()[i] == s[i]);
        assert forall|j: int|
            0 <= j < s.drop_last().len() && j != i implies (#[trigger] s.drop_last()[j].0)@
            != s.drop_last()[i].0@ by {
            assert(s.drop_last()[j] == s[j]);
        }
        lemma_entries_map_get(s.drop_last(), i);
        assert(s[s.len() - 1].0@ != s[i].0@);
    }
}

/// Every key of the denoted map comes from some entry.
pub proof fn lemma_entries_map_dom_key(s: Seq<(HexPosn, ClassicTile)>, k: (int, int))
    requires
        entries_map(s).dom().contains(k),
    ensures
        exists|j: int| 0 <= j < s.len() && (#[trigger] s[j].0)@ == k,
    decreases s.len(),
{
    if s.len() > 0 {
        if s.last().0@ == k {
            assert(s[s.len() - 1].0@ == k);
        } else {
            lemma_entries_map_dom_key(s.drop_last(), k);
            let j = choose|j: int|
                0 <= j < s.drop_last().len() && (#[trigger] s.drop_last()[j].0)@ == k;
            assert(s[j].0@ == k);
        }
    }
}

/// Every entry's key is a key of the denoted map, whichever entry's tile
/// ends up stored there.
pub proof fn lemma_entry_key_in_dom(s: Seq<(HexPosn, ClassicTile)>, i: int)
    requires
        0 <= i < s.len(),
    ensures
        entries_map(s).dom().contains(s[i].0@),
    decreases s.len(),
{
    if i == s.len() - 1 {
    } else {
        assert(s.drop_last()[i] == s[i]);
        lemma_entry_key_in_dom(s.drop_last(), i);
    }
}

/// An entry's key is in the denoted map, with the entry's tile as value,
/// provided no later entry shares the key.
proof fn lemma_entries_map_found(s: Seq<(HexPosn, ClassicTile)>, i: int, k: (int, int))
    requires
        keys_of(s).no_duplicates(),
        0 <= i < s.len(),
        s[i].0@ == k,
    ensures
        entries_map(s).dom().contains(k),
        entries_map(s)[k] == s[i].1,
    decreases s.len(),
{
    if i == s.len() - 1 {
    } else {
        assert(keys_of(s)[i] == k);
        assert(keys_of(s)[s.len() - 1] == s.last().0@);
        assert(keys_of(s.drop_last()) =~= keys_of(s).drop_last());
        lemma_entries_map_found(s.drop_last(), i, k);
    }
}

/// A key that no entry carries is not in the denoted map.
proof fn lemma_absent_key(s: Seq<(HexPosn, ClassicTile)>, k: (int, int))
    requires
        forall|i: int| 0 <= i < s.len() ==> (#[trigger] s[i].0)@ != k,
    ensures
        !entries_map(s).dom().contains(k),
    decreases s.len(),
{
    if s.len() > 0 {
        lemma_absent_key(s.drop_last(), k);
    }
}

/// Overwriting the entry that carries a key updates the denoted map at
/// that key alone.
proof fn lemma_entries_map_update(s: Seq<(HexPosn, ClassicTile)>, i: int, p: HexPosn, t: ClassicTile)
    requires
        keys_of(s).no_duplicates(),
        0 <= i < s.len(),
        s[i].0@ == p@,
    ensures
        entries_map(s.update(i, (p, t))) == entries_map(s).insert(p@, t),
    decreases s.len(),
{
    let su = s.update(i, (p, t));
    if i == s.len() - 1 {
        assert(su.drop_last() =~= s.drop_last());
        assert(entries_map(su) =~= entries_map(s).insert(p@, t));
    } else {
        assert(keys_of(s)[i] == p@);
        assert(keys_of(s)[s.len() - 1] == s.last().0@);
        assert(keys_of(s.drop_last()) =~= keys_of(s).drop_last());
        assert(su.drop_last() =~= s.drop_last().update(i, (p, t)));
        lemma_entries_map_update(s.drop_last(), i, p, t);
        assert(su.last() == s.last());
        assert(entries_map(su) =~= entries_map(s).insert(p@, t));
    }
}

/// Appending an entry inserts its key into the denoted map.
proof fn lemma_entries_map_push(s: Seq<(HexPosn, ClassicTile)>, p: HexPosn, t: ClassicTile)
    ensures
        entries_map(s.push((p, t))) == entries_map(s).insert(p@, t),
{
    assert(s.push((p, t)).drop_last() =~= s);
}

/// Every key of the denoted map is carried by some entry.
proof fn lemma_dom_has_entry(s: Seq<(HexPosn, ClassicTile)>, k: (int, int))
    requires
        entries_map(s).dom().contains(k),
    ensures
        exists|i: int| 0 <= i < s.len() && (#[trigger] s[i].0)@ == k,
    decreases s.len(),
{
    if s.len() > 0 {
        if s.last().0@ == k {
            assert(s[s.len() - 1].0@ == k);
        } else {
            lemma_dom_has_entry(s.drop_last(), k);
            let i = choose|i: int| 0 <= i < s.drop_last().len() && (#[trigger] s.drop_last()[i].0)@
                == k;
            assert(s[i].0@ == k);
        }
    }
}

/// The denoted map has at most one key per entry.
proof fn lemma_entries_map_dom(s: Seq<(HexPosn, ClassicTile)>)
    ensures
        entries_map(s).dom().finite(),
        entries_map(s).dom().len() <= s.len(),
    decreases s.len(),
{
    if s.len() > 0 {
        lemma_entries_map_dom(s.drop_last());
    }
}

} // verus!
