//! The pig and the match orchestration.
//!
//! `ClassicPig` walks toward the nearest exit: a level-synchronous
//! breadth-first search over the board finds the shortest escape routes,
//! and the lexicographically least of them — under the canonical direction
//! order UpLeft, UpRight, Left, Right, BotLeft, BotRight — decides the
//! step the pig takes.

use vstd::prelude::*;

use crate::board::Board;
use crate::board::ClassicTile;
use crate::board::PlaceError;
use crate::posn::HexDirection;
use crate::posn::HexPosn;
use crate::posn::can_step;
use crate::posn::in_coord_limit;
use crate::posn::spec_neighbor;
use crate::route::clear_escape_route;
use crate::route::enclosed;
use crate::route::escape_route;
use crate::route::exit_at;
use crate::route::lemma_escape_has_clear;
use crate::route::lemma_no_clear_escape_below;
use crate::route::lemma_route_clear_take;
use crate::route::lemma_route_end_take;
use crate::route::lemma_route_passable_take;
use crate::route::no_clear_escape_below;
use crate::route::no_escape_below;
use crate::route::passable_at;
use crate::route::route_clear;
use crate::route::route_end;
use crate::route::route_passable;
use crate::route::shortest_escape;

verus! {

/// The directions of a move history, in order.
pub open spec fn dirs_of(h: Seq<(HexDirection, HexPosn)>) -> Seq<HexDirection> {
    h.map_values(|e: (HexDirection, HexPosn)| e.0)
}

/// A move history is a clear passable walk from `s`, and each element
/// records the position it was taken from.
pub open spec fn hist_ok(
    m: Map<(int, int), ClassicTile>,
    s: (int, int),
    h: Seq<(HexDirection, HexPosn)>,
) -> bool {
    &&& route_passable(m, s, dirs_of(h))
    &&& route_clear(m, s, dirs_of(h))
    &&& forall|i: int|
        0 <= i < h.len() ==> (#[trigger] h[i]).1@ == route_end(s, dirs_of(h).take(i))
}

/// Some element of `seen` is at position `p`.
pub open spec fn in_seen(seen: Seq<HexPosn>, p: (int, int)) -> bool {
    exists|j: int| 0 <= j < seen.len() && (#[trigger] seen[j])@ == p
}

/// Some frontier entry is at position `p`.
pub open spec fn in_frontier(f: Seq<(HexPosn, Vec<(HexDirection, HexPosn)>)>, p: (int, int)) -> bool {
    exists|j: int| 0 <= j < f.len() && (#[trigger] f[j]).0@ == p
}

/// Some frontier entry at index `i` or later is at position `p`.
pub open spec fn in_frontier_from(
    f: Seq<(HexPosn, Vec<(HexDirection, HexPosn)>)>,
    i: int,
    p: (int, int),
) -> bool {
    exists|j: int| i <= j < f.len() && (#[trigger] f[j]).0@ == p
}

/// Every frontier entry carries a well-formed history of length `k` that
/// ends at the entry's position; past the first level the position is a
/// passable tile.
pub open spec fn frontier_ok(
    m: Map<(int, int), ClassicTile>,
    s: (int, int),
    f: Seq<(HexPosn, Vec<(HexDirection, HexPosn)>)>,
    k: int,
) -> bool {
    forall|j: int|
        0 <= j < f.len() ==> {
            &&& hist_ok(m, s, (#[trigger] f[j]).1@)
            &&& f[j].1@.len() == k
            &&& f[j].0@ == route_end(s, dirs_of(f[j].1@))
            &&& (k >= 1 ==> passable_at(m, f[j].0@))
        }
}

/// Every candidate history is a clear escape route of length `k`.
pub open spec fn candidates_ok(
    m: Map<(int, int), ClassicTile>,
    s: (int, int),
    cs: Seq<Vec<(HexDirection, HexPosn)>>,
    k: int,
) -> bool {
    forall|j: int|
        0 <= j < cs.len() ==> {
            &&& hist_ok(m, s, (#[trigger] cs[j])@)
            &&& cs[j]@.len() == k
            &&& exit_at(m, route_end(s, dirs_of(cs[j]@)))
        }
}

/// The visited positions are distinct, are the start or passable tiles,
/// and never exits.
pub open spec fn seen_ok(m: Map<(int, int), ClassicTile>, s: (int, int), seen: Seq<HexPosn>) -> bool {
    &&& seen.map_values(|q: HexPosn| q@).no_duplicates()
    &&& forall|j: int|
        0 <= j < seen.len() ==> ((#[trigger] seen[j])@ == s || passable_at(m, seen[j]@)) && !exit_at(
            m,
            seen[j]@,
        )
}

/// Every passable neighbor of a visited position is visited itself or
/// waits in the frontier.
pub open spec fn closure_ok(
    m: Map<(int, int), ClassicTile>,
    f: Seq<(HexPosn, Vec<(HexDirection, HexPosn)>)>,
    seen: Seq<HexPosn>,
) -> bool {
    forall|p: (int, int), d: HexDirection|
        #![trigger in_seen(seen, p), spec_neighbor(p, d)]
        in_seen(seen, p) && passable_at(m, spec_neighbor(p, d)) ==> in_seen(
            seen,
            spec_neighbor(p, d),
        ) || in_frontier(f, spec_neighbor(p, d))
}

/// Mid-level closure: the frontier has been processed up to `i`, and new
/// entries have gone to `nx`.
pub open spec fn mid_closure_ok(
    m: Map<(int, int), ClassicTile>,
    f: Seq<(HexPosn, Vec<(HexDirection, HexPosn)>)>,
    i: int,
    nx: Seq<(HexPosn, Vec<(HexDirection, HexPosn)>)>,
    seen: Seq<HexPosn>,
) -> bool {
    forall|p: (int, int), d: HexDirection|
        #![trigger in_seen(seen, p), spec_neighbor(p, d)]
        in_seen(seen, p) && passable_at(m, spec_neighbor(p, d)) ==> in_seen(
            seen,
            spec_neighbor(p, d),
        ) || in_frontier_from(f, i, spec_neighbor(p, d)) || in_frontier(nx, spec_neighbor(p, d))
}

/// Every non-exit endpoint of a clear passable walk shorter than `k`
/// steps has been visited.
pub open spec fn reached_ok(
    m: Map<(int, int), ClassicTile>,
    s: (int, int),
    seen: Seq<HexPosn>,
    k: int,
) -> bool {
    forall|ds: Seq<HexDirection>|
        #![trigger route_passable(m, s, ds)]
        route_passable(m, s, ds) && route_clear(m, s, ds) && ds.len() < k && !exit_at(
            m,
            route_end(s, ds),
        ) ==> in_seen(seen, route_end(s, ds))
}

/// Every position occurs at most once among the entries.
pub open spec fn unique_positions(f: Seq<(HexPosn, Vec<(HexDirection, HexPosn)>)>) -> bool {
    forall|j1: int, j2: int|
        0 <= j1 < j2 < f.len() ==> (#[trigger] f[j1]).0@ != (#[trigger] f[j2]).0@
}

/// A clear passable walk of length `k` whose position one step before
/// the end has been visited.
pub open spec fn walk_from_seen(
    m: Map<(int, int), ClassicTile>,
    s: (int, int),
    seen: Seq<HexPosn>,
    ds: Seq<HexDirection>,
    k: int,
) -> bool {
    &&& route_passable(m, s, ds)
    &&& route_clear(m, s, ds)
    &&& ds.len() == k
    &&& (k >= 1 ==> in_seen(seen, route_end(s, ds.take(k - 1))))
}

/// Entries at unvisited positions carry the lexicographically least
/// history among the walks of their length that reach their position
/// from a visited parent.
pub open spec fn entries_min(
    m: Map<(int, int), ClassicTile>,
    s: (int, int),
    f: Seq<(HexPosn, Vec<(HexDirection, HexPosn)>)>,
    seen: Seq<HexPosn>,
    k: int,
) -> bool {
    forall|j: int, ds: Seq<HexDirection>|
        #![trigger f[j], walk_from_seen(m, s, seen, ds, k)]
        0 <= j < f.len() && !in_seen(seen, f[j].0@) && walk_from_seen(m, s, seen, ds, k)
            && route_end(s, ds) == f[j].0@ ==> spec_lex_le(dirs_of(f[j].1@), ds)
}

/// The same, but the positions the level has not processed yet are
/// exempt: their own parents are still to come.
spec fn next_min(
    m: Map<(int, int), ClassicTile>,
    s: (int, int),
    f0: Seq<(HexPosn, Vec<(HexDirection, HexPosn)>)>,
    i: int,
    nx: Seq<(HexPosn, Vec<(HexDirection, HexPosn)>)>,
    seen: Seq<HexPosn>,
    k1: int,
) -> bool {
    forall|j: int, ds: Seq<HexDirection>|
        #![trigger nx[j], walk_from_seen(m, s, seen, ds, k1)]
        0 <= j < nx.len() && !in_seen(seen, nx[j].0@) && !in_frontier_from(f0, i, nx[j].0@)
            && walk_from_seen(m, s, seen, ds, k1) && route_end(s, ds) == nx[j].0@
            ==> spec_lex_le(dirs_of(nx[j].1@), ds)
}

/// For every processed live entry and every direction, the passable
/// unvisited neighbor it reaches waits in `nx` under a history no
/// greater than the entry's own history extended by that direction.
spec fn covered_min(
    m: Map<(int, int), ClassicTile>,
    f0: Seq<(HexPosn, Vec<(HexDirection, HexPosn)>)>,
    i: int,
    nx: Seq<(HexPosn, Vec<(HexDirection, HexPosn)>)>,
    seen0: Seq<HexPosn>,
    seen: Seq<HexPosn>,
) -> bool {
    forall|j: int, dd: HexDirection|
        #![trigger f0[j], spec_neighbor(f0[j].0@, dd)]
        0 <= j < i && !in_seen(seen0, f0[j].0@) && !exit_at(m, f0[j].0@) && passable_at(
            m,
            spec_neighbor(f0[j].0@, dd),
        ) && !in_seen(seen, spec_neighbor(f0[j].0@, dd)) ==> exists|t: int|
            0 <= t < nx.len() && (#[trigger] nx[t]).0@ == spec_neighbor(f0[j].0@, dd)
                && spec_lex_le(dirs_of(nx[t].1@), dirs_of(f0[j].1@).push(dd))
}

/// Every processed exit entry left its history among the candidates.
spec fn cand_recorded(
    m: Map<(int, int), ClassicTile>,
    f0: Seq<(HexPosn, Vec<(HexDirection, HexPosn)>)>,
    i: int,
    cs: Seq<Vec<(HexDirection, HexPosn)>>,
) -> bool {
    forall|j: int|
        0 <= j < i && exit_at(m, (#[trigger] f0[j]).0@) ==> exists|t: int|
            0 <= t < cs.len() && (#[trigger] cs[t])@ == f0[j].1@
}

/// Element `t` of the visited sequence came from one of the first `i`
/// frontier entries.
spec fn seen_src_at(
    f0: Seq<(HexPosn, Vec<(HexDirection, HexPosn)>)>,
    i: int,
    seen: Seq<HexPosn>,
    t: int,
) -> bool {
    exists|j: int| 0 <= j < i && (#[trigger] f0[j]).0 == seen[t]
}

/// For every clear escape of length `k` stepping out of a visited
/// parent, some recorded candidate is lexicographically no greater.
pub open spec fn candidates_min(
    m: Map<(int, int), ClassicTile>,
    s: (int, int),
    cs: Seq<Vec<(HexDirection, HexPosn)>>,
    seen: Seq<HexPosn>,
    k: int,
) -> bool {
    forall|ds: Seq<HexDirection>|
        #![trigger walk_from_seen(m, s, seen, ds, k)]
        walk_from_seen(m, s, seen, ds, k) && exit_at(m, route_end(s, ds)) ==> exists|t: int|
            0 <= t < cs.len() && spec_lex_le(dirs_of((#[trigger] cs[t])@), ds)
}

/// The route the pig follows: an escape route that no shorter escape
/// route undercuts and that no other escape route of the same length
/// precedes in the tie-break order.
pub open spec fn chosen_escape(
    m: Map<(int, int), ClassicTile>,
    s: (int, int),
    ds: Seq<HexDirection>,
) -> bool {
    &&& shortest_escape(m, s, ds)
    &&& forall|ds2: Seq<HexDirection>|
        #[trigger] escape_route(m, s, ds2) && ds2.len() == ds.len() ==> spec_lex_le(ds, ds2)
}

/// What the visited set has reached stays reached as it grows.
proof fn lemma_reached_grows(
    m: Map<(int, int), ClassicTile>,
    s: (int, int),
    seen0: Seq<HexPosn>,
    seen: Seq<HexPosn>,
    k: int,
)
    requires
        reached_ok(m, s, seen0, k),
        seen0.len() <= seen.len(),
        forall|t: int| 0 <= t < seen0.len() ==> seen[t] == (#[trigger] seen0[t]),
    ensures
        reached_ok(m, s, seen, k),
{
    assert forall|ds: Seq<HexDirection>|
        #![trigger route_passable(m, s, ds)]
        route_passable(m, s, ds) && route_clear(m, s, ds) && ds.len() < k && !exit_at(
            m,
            route_end(s, ds),
        ) implies in_seen(seen, route_end(s, ds)) by {
        assert(in_seen(seen0, route_end(s, ds)));
        let t = choose|t: int|
            0 <= t < seen0.len() && (#[trigger] seen0[t])@ == route_end(s, ds);
        assert(seen[t]@ == route_end(s, ds));
    }
}

/// An escape route of minimal length crosses no exit before its end.
proof fn lemma_shortest_is_clear(
    m: Map<(int, int), ClassicTile>,
    s: (int, int),
    ds: Seq<HexDirection>,
)
    requires
        escape_route(m, s, ds),
        no_escape_below(m, s, ds.len() as int),
    ensures
        route_clear(m, s, ds),
{
    assert forall|i: int| 0 < i < ds.len() implies !exit_at(
        m,
        #[trigger] route_end(s, ds.take(i)),
    ) by {
        if exit_at(m, route_end(s, ds.take(i))) {
            lemma_route_passable_take(m, s, ds, i);
            assert(escape_route(m, s, ds.take(i)));
        }
    }
}

/// The index of the entry at `p`'s position, when there is one.
fn find_pos(nx: &Vec<(HexPosn, Vec<(HexDirection, HexPosn)>)>, p: HexPosn) -> (r: Option<usize>)
    ensures
        r matches Some(t) ==> 0 <= t < nx@.len() && nx@[t as int].0@ == p@,
        r is None ==> !in_frontier(nx@, p@),
{
    let mut j: usize = 0;
    while j < nx.len()
        invariant
            j <= nx@.len(),
            forall|t: int| 0 <= t < j ==> (#[trigger] nx@[t]).0@ != p@,
        decreases nx@.len() - j,
    {
        let q = nx[j].0;
        if q.r == p.r && q.c == p.c {
            return Some(j);
        }
        j = j + 1;
    }
    None
}

/// Whether some element of `seen` is at `p`'s position.
fn contains_pos(seen: &Vec<HexPosn>, p: HexPosn) -> (r: bool)
    ensures
        r == in_seen(seen@, p@),
{
    let mut j: usize = 0;
    while j < seen.len()
        invariant
            j <= seen@.len(),
            forall|t: int| 0 <= t < j ==> (#[trigger] seen@[t])@ != p@,
        decreases seen@.len() - j,
    {
        let q = seen[j];
        if q.r == p.r && q.c == p.c {
            assert(seen@[j as int]@ == p@);
            return true;
        }
        j = j + 1;
    }
    false
}

/// An element-by-element copy of a move history.
fn clone_hist(h: &Vec<(HexDirection, HexPosn)>) -> (r: Vec<(HexDirection, HexPosn)>)
    ensures
        r@ == h@,
{
    let mut r: Vec<(HexDirection, HexPosn)> = Vec::new();
    let mut j: usize = 0;
    while j < h.len()
        invariant
            j <= h@.len(),
            r@ == h@.take(j as int),
        decreases h@.len() - j,
    {
        r.push(h[j]);
        proof {
            assert(h@.take(j + 1) =~= h@.take(j as int).push(h@[j as int]));
        }
        j = j + 1;
    }
    proof {
        assert(h@.take(h@.len() as int) =~= h@);
    }
    r
}

/// Whether history `a` comes strictly before history `b` in the
/// tie-break order: lexicographic comparison of the direction sequences
/// under the canonical rank, a shorter prefix coming first.
fn route_lt(a: &Vec<(HexDirection, HexPosn)>, b: &Vec<(HexDirection, HexPosn)>) -> (r: bool)
    ensures
        r == spec_lex_lt(dirs_of(a@), dirs_of(b@)),
{
    let mut j: usize = 0;
    proof {
        assert(dirs_of(a@).skip(0) =~= dirs_of(a@));
        assert(dirs_of(b@).skip(0) =~= dirs_of(b@));
    }
    while j < a.len() && j < b.len()
        invariant
            j <= a@.len(),
            j <= b@.len(),
            spec_lex_lt(dirs_of(a@), dirs_of(b@)) == spec_lex_lt(
                dirs_of(a@).skip(j as int),
                dirs_of(b@).skip(j as int),
            ),
        decreases a@.len() - j,
    {
        let ra = a[j].0.rank();
        let rb = b[j].0.rank();
        proof {
            lemma_lex_lt_step(dirs_of(a@), dirs_of(b@), j as int);
        }
        if ra < rb {
            return true;
        }
        if ra > rb {
            return false;
        }
        j = j + 1;
    }
    proof {
        let sa = dirs_of(a@).skip(j as int);
        let sb = dirs_of(b@).skip(j as int);
        assert(sa.len() == 0 || sb.len() == 0);
        if sb.len() == 0 {
            assert(!spec_lex_lt(sa, sb));
        } else {
            assert(sa.len() == 0);
        }
    }
    a.len() < b.len()
}

/// Lexicographic order on direction sequences under the canonical rank;
/// a proper prefix comes before its extensions.
pub open spec fn spec_lex_lt(a: Seq<HexDirection>, b: Seq<HexDirection>) -> bool
    decreases a.len(),
{
    if b.len() == 0 {
        false
    } else if a.len() == 0 {
        true
    } else if a[0].spec_rank() < b[0].spec_rank() {
        true
    } else if a[0].spec_rank() > b[0].spec_rank() {
        false
    } else {
        spec_lex_lt(a.drop_first(), b.drop_first())
    }
}

/// Lexicographic order, weakly: strictly before, or the same sequence.
pub open spec fn spec_lex_le(a: Seq<HexDirection>, b: Seq<HexDirection>) -> bool {
    spec_lex_lt(a, b) || a == b
}

/// The lexicographic order is total: two sequences that neither
/// precedes are the same.
proof fn lemma_lex_connex(a: Seq<HexDirection>, b: Seq<HexDirection>)
    requires
        !spec_lex_lt(a, b),
        !spec_lex_lt(b, a),
    ensures
        a == b,
    decreases a.len(),
{
    if b.len() == 0 {
        assert(a.len() == 0);
        assert(a =~= b);
    } else if a.len() == 0 {
        assert(spec_lex_lt(a, b));
    } else {
        assert(a[0].spec_rank() == b[0].spec_rank());
        assert(a[0] == b[0]);
        lemma_lex_connex(a.drop_first(), b.drop_first());
        assert(a.len() == b.len());
        assert forall|i: int| 0 <= i < a.len() implies a[i] == b[i] by {
            if i >= 1 {
                assert(a[i] == a.drop_first()[i - 1]);
                assert(b[i] == b.drop_first()[i - 1]);
            }
        }
        assert(a =~= b);
    }
}

/// The lexicographic order is transitive.
proof fn lemma_lex_lt_trans(a: Seq<HexDirection>, b: Seq<HexDirection>, c: Seq<HexDirection>)
    requires
        spec_lex_lt(a, b),
        spec_lex_lt(b, c),
    ensures
        spec_lex_lt(a, c),
    decreases a.len(),
{
    if a.len() == 0 {
    } else {
        assert(b.len() > 0 && c.len() > 0);
        if a[0].spec_rank() == b[0].spec_rank() && b[0].spec_rank() == c[0].spec_rank() {
            lemma_lex_lt_trans(a.drop_first(), b.drop_first(), c.drop_first());
        }
    }
}

/// Weak transitivity, in the combinations the search needs.
proof fn lemma_lex_le_trans(a: Seq<HexDirection>, b: Seq<HexDirection>, c: Seq<HexDirection>)
    requires
        spec_lex_le(a, b),
        spec_lex_le(b, c),
    ensures
        spec_lex_le(a, c),
{
    if spec_lex_lt(a, b) && spec_lex_lt(b, c) {
        lemma_lex_lt_trans(a, b, c);
    }
}

/// Appending one step keeps the order: a strictly smaller history stays
/// strictly smaller whatever is appended, and appending to the same
/// history orders by the rank of the appended direction.
proof fn lemma_lex_append(a: Seq<HexDirection>, b: Seq<HexDirection>, x: HexDirection, y: HexDirection)
    requires
        a.len() == b.len(),
    ensures
        spec_lex_lt(a, b) ==> spec_lex_lt(a.push(x), b.push(y)),
        a == b && x.spec_rank() < y.spec_rank() ==> spec_lex_lt(a.push(x), b.push(y)),
        a == b && x.spec_rank() == y.spec_rank() ==> a.push(x) == b.push(y),
    decreases a.len(),
{
    if a.len() == 0 {
        if a == b {
            assert(x.spec_rank() == y.spec_rank() ==> x == y);
            if x == y {
                assert(a.push(x) =~= b.push(y));
            }
            assert(a.push(x)[0] == x && b.push(y)[0] == y);
            assert(x.spec_rank() < y.spec_rank() ==> spec_lex_lt(a.push(x), b.push(y)));
        }
    } else {
        assert(a.push(x)[0] == a[0] && b.push(y)[0] == b[0]);
        assert(a.push(x).drop_first() =~= a.drop_first().push(x));
        assert(b.push(y).drop_first() =~= b.drop_first().push(y));
        if a == b {
            assert(a.drop_first() == b.drop_first());
            lemma_lex_append(a.drop_first(), b.drop_first(), x, y);
            if x.spec_rank() == y.spec_rank() {
                assert(x == y);
                assert(a.push(x) =~= b.push(y));
            }
        } else if spec_lex_lt(a, b) {
            if a[0].spec_rank() == b[0].spec_rank() {
                lemma_lex_append(a.drop_first(), b.drop_first(), x, y);
            }
        }
    }
}

/// One unfolding step of the lexicographic order at offset `j`.
proof fn lemma_lex_lt_step(a: Seq<HexDirection>, b: Seq<HexDirection>, j: int)
    requires
        0 <= j < a.len(),
        0 <= j < b.len(),
    ensures
        a[j].spec_rank() < b[j].spec_rank() ==> spec_lex_lt(a.skip(j), b.skip(j)),
        a[j].spec_rank() > b[j].spec_rank() ==> !spec_lex_lt(a.skip(j), b.skip(j)),
        a[j].spec_rank() == b[j].spec_rank() ==> spec_lex_lt(a.skip(j), b.skip(j)) == spec_lex_lt(
            a.skip(j + 1),
            b.skip(j + 1),
        ),
{
    assert(a.skip(j).len() == a.len() - j);
    assert(a.skip(j)[0] == a[j]);
    assert(b.skip(j)[0] == b[j]);
    assert(a.skip(j).drop_first() =~= a.skip(j + 1));
    assert(b.skip(j).drop_first() =~= b.skip(j + 1));
}

/// The classic pig: a position on the board and the shortest-route
/// escape strategy.
pub struct ClassicPig {
    pub position: HexPosn,
}

impl ClassicPig {
    /// The classic pig starts at row 5, column 2.
    pub fn new() -> (pig: ClassicPig)
        ensures
            pig.position@ == (5int, 2int),
    {
        ClassicPig { position: HexPosn { r: 5, c: 2 } }
    }

    /// The pig's position.
    pub fn position(&self) -> (p: HexPosn)
        ensures
            p == self.position,
    {
        self.position
    }

    /// One move of the classic pig: a level-synchronous breadth-first
    /// search drains the board level by level until the first level that
    /// holds an exit, recording each exit reached there as a candidate
    /// route; the pig takes the first step of the lexicographically least
    /// candidate. A position already waiting in the next level keeps the
    /// smaller of its two pending histories, so each position carries the
    /// least history that reaches it, and the route followed is the
    /// least among all shortest escape routes (`chosen_escape`). Returns
    /// the new position, or `None` exactly when the pig is enclosed.
    #[verifier::rlimit(100)]
    pub fn move_pig(&mut self, board: &Board) -> (r: Option<HexPosn>)
        requires
            board.wf(),
            can_step(old(self).position@),
            forall|p: (int, int)| board@.dom().contains(p) ==> can_step(p),
            !exit_at(board@, old(self).position@),
        ensures
            r is None <==> enclosed(board@, old(self).position@),
            r is None ==> final(self).position == old(self).position,
            r matches Some(p) ==> final(self).position == p && (exists|ds: Seq<HexDirection>|
                #[trigger] shortest_escape(board@, old(self).position@, ds) && ds.len() >= 1 && p@
                    == spec_neighbor(old(self).position@, ds[0])),
            r matches Some(p) ==> (exists|ds: Seq<HexDirection>|
                #[trigger] chosen_escape(board@, old(self).position@, ds) && ds.len() >= 1 && p@
                    == spec_neighbor(old(self).position@, ds[0])),
    {
        let ghost m = board@;
        let start = self.position;
        let ghost s = start@;
        let mut frontier: Vec<(HexPosn, Vec<(HexDirection, HexPosn)>)> = Vec::new();
        let empty_hist: Vec<(HexDirection, HexPosn)> = Vec::new();
        frontier.push((start, empty_hist));
        let mut seen: Vec<HexPosn> = Vec::new();
        let mut candidates: Vec<Vec<(HexDirection, HexPosn)>> = Vec::new();
        let ghost mut k: int = 0;
        proof {
            board.lemma_dom_bound();
            assert(dirs_of(frontier@[0].1@).len() == 0);
            assert(entries_min(m, s, frontier@, seen@, 0)) by {
                assert forall|j: int, ds: Seq<HexDirection>|
                    #![trigger frontier@[j], walk_from_seen(m, s, seen@, ds, 0)]
                    0 <= j < frontier@.len() && !in_seen(seen@, frontier@[j].0@) && walk_from_seen(
                        m,
                        s,
                        seen@,
                        ds,
                        0,
                    ) && route_end(s, ds) == frontier@[j].0@ implies spec_lex_le(
                    dirs_of(frontier@[j].1@),
                    ds,
                ) by {
                    assert(dirs_of(frontier@[j].1@) =~= ds);
                }
            };
        }
        while frontier.len() > 0 && candidates.len() == 0
            invariant
                board.wf(),
                m == board@,
                m.dom().finite(),
                forall|q: (int, int)| m.dom().contains(q) ==> can_step(q),
                s == old(self).position@,
                self.position == old(self).position,
                can_step(s),
                !exit_at(m, s),
                0 <= k,
                k <= seen@.len() + 1,
                k == 0 ==> frontier@.len() > 0 && seen@.len() == 0,
                frontier@.len() > 0 && k >= 1 ==> k <= seen@.len(),
                frontier_ok(m, s, frontier@, k),
                seen_ok(m, s, seen@),
                candidates@.len() == 0 ==> closure_ok(m, frontier@, seen@),
                candidates@.len() == 0 ==> reached_ok(m, s, seen@, k),
                candidates@.len() == 0 ==> no_clear_escape_below(m, s, k),
                candidates@.len() >= 1 ==> candidates_ok(m, s, candidates@, k - 1) && k >= 1
                    && no_clear_escape_below(m, s, k - 1) && candidates_min(
                    m,
                    s,
                    candidates@,
                    seen@,
                    k - 1,
                ) && reached_ok(m, s, seen@, k - 1),
                unique_positions(frontier@),
                candidates@.len() == 0 ==> entries_min(m, s, frontier@, seen@, k),
            decreases m.dom().len() + 2 - k,
        {
            let ghost seen0 = seen@;
            let ghost frontier0 = frontier@;
            let mut next: Vec<(HexPosn, Vec<(HexDirection, HexPosn)>)> = Vec::new();
            let mut i: usize = 0;
            while i < frontier.len()
                invariant
                    board.wf(),
                    m == board@,
                    forall|q: (int, int)| m.dom().contains(q) ==> can_step(q),
                    can_step(s),
                    !exit_at(m, s),
                    0 <= k,
                    i <= frontier0.len(),
                    frontier@ == frontier0,
                    frontier_ok(m, s, frontier0, k),
                    k == 0 ==> frontier0.len() > 0 && seen0.len() == 0,
                    seen_ok(m, s, seen@),
                    seen0.len() <= seen@.len(),
                    forall|t: int| 0 <= t < seen0.len() ==> seen@[t] == (#[trigger] seen0[t]),
                    closure_ok(m, frontier0, seen0),
                    reached_ok(m, s, seen0, k),
                    no_clear_escape_below(m, s, k),
                    candidates_ok(m, s, candidates@, k),
                    frontier_ok(m, s, next@, k + 1),
                    candidates@.len() == 0 ==> mid_closure_ok(m, frontier0, i as int, next@, seen@),
                    forall|j: int|
                        0 <= j < i && !exit_at(m, (#[trigger] frontier0[j]).0@) ==> in_seen(
                            seen@,
                            frontier0[j].0@,
                        ),
                    forall|j: int|
                        0 <= j < i && exit_at(m, (#[trigger] frontier0[j]).0@) ==> candidates@.len()
                            >= 1,
                    next@.len() >= 1 ==> seen@.len() >= seen0.len() + 1,
                    unique_positions(next@),
                    candidates@.len() == 0 ==> next_min(
                        m,
                        s,
                        frontier0,
                        i as int,
                        next@,
                        seen@,
                        k + 1,
                    ),
                    candidates@.len() == 0 ==> covered_min(
                        m,
                        frontier0,
                        i as int,
                        next@,
                        seen0,
                        seen@,
                    ),
                    cand_recorded(m, frontier0, i as int, candidates@),
                    forall|t: int|
                        seen0.len() <= t < seen@.len() ==> #[trigger] seen_src_at(
                            frontier0,
                            i as int,
                            seen@,
                            t,
                        ),
                    unique_positions(frontier0),
                    entries_min(m, s, frontier0, seen0, k),
                decreases frontier0.len() - i,
            {
                let curr: HexPosn = frontier[i].0;
                let ghost h = frontier0[i as int].1@;
                proof {
                    assert(frontier0[i as int].0 == curr);
                    assert(hist_ok(m, s, h));
                    assert(h.len() == k);
                    assert(curr@ == route_end(s, dirs_of(h)));
                    if k == 0 {
                        assert(dirs_of(h).len() == 0);
                        assert(curr@ == s);
                    } else {
                        assert(passable_at(m, curr@));
                    }
                    assert(can_step(curr@));
                }
                let already = contains_pos(&seen, curr);
                if already {
                    proof {
                        assert(!exit_at(m, curr@)) by {
                            let t = choose|t: int|
                                0 <= t < seen@.len() && (#[trigger] seen@[t])@ == curr@;
                        };
                        if candidates@.len() == 0 {
                            assert forall|p: (int, int), d: HexDirection|
                                #![trigger in_seen(seen@, p), spec_neighbor(p, d)]
                                in_seen(seen@, p) && passable_at(m, spec_neighbor(p, d)) implies
                                in_seen(seen@, spec_neighbor(p, d)) || in_frontier_from(
                                    frontier0,
                                    i + 1,
                                    spec_neighbor(p, d),
                                ) || in_frontier(next@, spec_neighbor(p, d)) by {
                                let n = spec_neighbor(p, d);
                                if in_frontier_from(frontier0, i as int, n) && !in_frontier_from(
                                    frontier0,
                                    i + 1,
                                    n,
                                ) {
                                    let j = choose|j: int|
                                        i <= j < frontier0.len() && (#[trigger] frontier0[j]).0@
                                            == n;
                                    assert(j == i);
                                    assert(n == curr@);
                                    assert(in_seen(seen@, n));
                                }
                            }
                        }
                        assert(unique_positions(frontier0));
                        assert(in_seen(seen0, curr@)) by {
                            let t = choose|t: int|
                                0 <= t < seen@.len() && (#[trigger] seen@[t])@ == curr@;
                            if t >= seen0.len() {
                                assert(seen_src_at(frontier0, i as int, seen@, t));
                                let j = choose|j: int|
                                    0 <= j < i && (#[trigger] frontier0[j]).0 == seen@[t];
                                assert(frontier0[j].0@ == curr@);
                                assert(frontier0[i as int].0@ == curr@);
                            } else {
                                assert(seen0[t] == seen@[t]);
                            }
                        };
                        if candidates@.len() == 0 {
                            assert(covered_min(m, frontier0, i + 1, next@, seen0, seen@)) by {
                                assert forall|j: int, dd: HexDirection|
                                    #![trigger frontier0[j], spec_neighbor(frontier0[j].0@, dd)]
                                    0 <= j < i + 1 && !in_seen(seen0, frontier0[j].0@) && !exit_at(
                                        m,
                                        frontier0[j].0@,
                                    ) && passable_at(m, spec_neighbor(frontier0[j].0@, dd))
                                        && !in_seen(
                                        seen@,
                                        spec_neighbor(frontier0[j].0@, dd),
                                    ) implies exists|tt: int|
                                    0 <= tt < next@.len() && (#[trigger] next@[tt]).0@
                                        == spec_neighbor(frontier0[j].0@, dd) && spec_lex_le(
                                        dirs_of(next@[tt].1@),
                                        dirs_of(frontier0[j].1@).push(dd),
                                    ) by {
                                    assert(j < i);
                                }
                            };
                            assert(next_min(m, s, frontier0, i + 1, next@, seen@, k + 1)) by {
                                assert forall|j: int, ds: Seq<HexDirection>|
                                    #![trigger next@[j], walk_from_seen(m, s, seen@, ds, k + 1)]
                                    0 <= j < next@.len() && !in_seen(seen@, next@[j].0@)
                                        && !in_frontier_from(frontier0, i + 1, next@[j].0@)
                                        && walk_from_seen(m, s, seen@, ds, k + 1) && route_end(
                                        s,
                                        ds,
                                    ) == next@[j].0@ implies spec_lex_le(
                                    dirs_of(next@[j].1@),
                                    ds,
                                ) by {
                                    assert(!in_frontier_from(frontier0, i as int, next@[j].0@))
                                        by {
                                        if in_frontier_from(frontier0, i as int, next@[j].0@) {
                                            let jj = choose|jj: int|
                                                i <= jj < frontier0.len() && (
                                                #[trigger] frontier0[jj]).0@ == next@[j].0@;
                                            assert(jj == i);
                                            assert(next@[j].0@ == curr@);
                                            assert(in_seen(seen@, curr@));
                                        }
                                    };
                                }
                            };
                        }
                        assert(cand_recorded(m, frontier0, i + 1, candidates@)) by {
                            assert forall|j: int|
                                0 <= j < i + 1 && exit_at(m, (#[trigger] frontier0[j]).0@) implies
                                exists|t: int|
                                    0 <= t < candidates@.len() && (#[trigger] candidates@[t])@
                                        == frontier0[j].1@ by {
                                assert(j < i);
                                let t = choose|t: int|
                                    0 <= t < candidates@.len() && (#[trigger] candidates@[t])@
                                        == frontier0[j].1@;
                            }
                        };
                        assert forall|t: int| seen0.len() <= t < seen@.len() implies
                            #[trigger] seen_src_at(frontier0, i + 1, seen@, t) by {
                            assert(seen_src_at(frontier0, i as int, seen@, t));
                            let j = choose|j: int|
                                0 <= j < i && (#[trigger] frontier0[j]).0 == seen@[t];
                        }
                    }
                    i = i + 1;
                } else {
                    let tile_opt = board.get_tile(curr);
                    let exit_here = match &tile_opt {
                        Option::Some(t) => t.is_exit(),
                        Option::None => false,
                    };
                    proof {
                        assert(exit_here == exit_at(m, curr@));
                    }
                    if exit_here {
                        let ghost cand_b = candidates@;
                        let c = clone_hist(&frontier[i].1);
                        candidates.push(c);
                        proof {
                            assert(candidates@.last()@ == h);
                            assert(candidates_ok(m, s, candidates@, k)) by {
                                assert forall|j: int| 0 <= j < candidates@.len() implies {
                                    &&& hist_ok(m, s, (#[trigger] candidates@[j])@)
                                    &&& candidates@[j]@.len() == k
                                    &&& exit_at(m, route_end(s, dirs_of(candidates@[j]@)))
                                } by {
                                    if j < candidates@.len() - 1 {
                                        assert(candidates@[j] == cand_b[j]);
                                    }
                                }
                            };
                            assert(cand_recorded(m, frontier0, i + 1, candidates@)) by {
                                assert forall|j: int|
                                    0 <= j < i + 1 && exit_at(m, (#[trigger] frontier0[j]).0@)
                                        implies exists|t: int|
                                        0 <= t < candidates@.len() && (#[trigger] candidates@[t])@
                                            == frontier0[j].1@ by {
                                    if j == i {
                                        assert(candidates@[candidates@.len() - 1]@ == h);
                                        assert(frontier0[i as int].1@ == h);
                                    } else {
                                        let t = choose|t: int|
                                            0 <= t < cand_b.len() && (#[trigger] cand_b[t])@
                                                == frontier0[j].1@;
                                        assert(candidates@[t] == cand_b[t]);
                                    }
                                }
                            };
                            assert forall|t: int| seen0.len() <= t < seen@.len() implies
                                #[trigger] seen_src_at(frontier0, i + 1, seen@, t) by {
                                assert(seen_src_at(frontier0, i as int, seen@, t));
                                let j = choose|j: int|
                                    0 <= j < i && (#[trigger] frontier0[j]).0 == seen@[t];
                            }
                        }
                        i = i + 1;
                    } else {
                        let neighbors = curr.get_neighbors();
                        let mut nj: usize = 0;
                        while nj < neighbors.len()
                            invariant
                                board.wf(),
                                m == board@,
                                nj <= neighbors@.len(),
                                neighbors@.len() == 6,
                                forall|t: int|
                                    0 <= t < 6 ==> (#[trigger] neighbors@[t]).0.spec_rank() == t
                                        && neighbors@[t].1@ == spec_neighbor(
                                        curr@,
                                        neighbors@[t].0,
                                    ),
                                hist_ok(m, s, h),
                                h.len() == k,
                                0 <= k,
                                curr@ == route_end(s, dirs_of(h)),
                                !exit_at(m, curr@),
                                k >= 1 ==> passable_at(m, curr@),
                                k == 0 ==> curr@ == s,
                                i < frontier0.len(),
                                frontier@ == frontier0,
                                frontier0[i as int].1@ == h,
                                frontier_ok(m, s, next@, k + 1),
                                forall|t: int|
                                    0 <= t < nj && passable_at(
                                        m,
                                        #[trigger] spec_neighbor(curr@, neighbors@[t].0),
                                    ) ==> in_seen(seen@, spec_neighbor(curr@, neighbors@[t].0))
                                        || in_frontier(
                                        next@,
                                        spec_neighbor(curr@, neighbors@[t].0),
                                    ),
                                candidates@.len() == 0 ==> mid_closure_ok(
                                    m,
                                    frontier0,
                                    i as int,
                                    next@,
                                    seen@,
                                ),
                                unique_positions(next@),
                                closure_ok(m, frontier0, seen0),
                                reached_ok(m, s, seen0, k),
                                entries_min(m, s, frontier0, seen0, k),
                                seen_ok(m, s, seen@),
                                seen0.len() <= seen@.len(),
                                forall|t: int|
                                    0 <= t < seen0.len() ==> seen@[t] == (#[trigger] seen0[t]),
                                forall|j: int|
                                    0 <= j < i && !exit_at(m, (#[trigger] frontier0[j]).0@)
                                        ==> in_seen(seen@, frontier0[j].0@),
                                cand_recorded(m, frontier0, i as int, candidates@),
                                forall|t: int|
                                    seen0.len() <= t < seen@.len() ==> #[trigger] seen_src_at(
                                        frontier0,
                                        i as int,
                                        seen@,
                                        t,
                                    ),
                                !in_seen(seen@, curr@),
                                candidates@.len() == 0 ==> next_min(
                                    m,
                                    s,
                                    frontier0,
                                    i as int,
                                    next@,
                                    seen@,
                                    k + 1,
                                ),
                                candidates@.len() == 0 ==> covered_min(
                                    m,
                                    frontier0,
                                    i as int,
                                    next@,
                                    seen0,
                                    seen@,
                                ),
                                forall|t: int|
                                    0 <= t < nj && passable_at(
                                        m,
                                        #[trigger] spec_neighbor(curr@, neighbors@[t].0),
                                    ) && !in_seen(seen@, spec_neighbor(curr@, neighbors@[t].0))
                                        ==> exists|tt: int|
                                        0 <= tt < next@.len() && (#[trigger] next@[tt]).0@
                                            == spec_neighbor(curr@, neighbors@[t].0)
                                            && spec_lex_le(
                                            dirs_of(next@[tt].1@),
                                            dirs_of(h).push(neighbors@[t].0),
                                        ),
                            decreases 6 - nj,
                        {
                            let d = neighbors[nj].0;
                            let p = neighbors[nj].1;
                            let t_opt = board.get_tile(p);
                            let pass = match &t_opt {
                                Option::Some(t) => t.is_passable(),
                                Option::None => false,
                            };
                            proof {
                                assert(pass == passable_at(m, p@));
                                assert(p@ == spec_neighbor(curr@, d));
                            }
                            if pass {
                                let p_seen = contains_pos(&seen, p);
                                if !p_seen {
                                    let mut nh = clone_hist(&frontier[i].1);
                                    nh.push((d, curr));
                                    proof {
                                        let nds = dirs_of(nh@);
                                        assert(nds =~= dirs_of(h).push(d));
                                        assert(nds.drop_last() =~= dirs_of(h));
                                        assert(route_end(s, nds) == spec_neighbor(
                                            route_end(s, dirs_of(h)),
                                            d,
                                        ));
                                        assert(route_end(s, nds) == p@);
                                        assert(route_passable(m, s, nds));
                                        assert(route_clear(m, s, nds)) by {
                                            assert forall|t: int| 0 < t < nds.len() implies
                                                !exit_at(
                                                m,
                                                #[trigger] route_end(s, nds.take(t)),
                                            ) by {
                                                if t < nds.len() - 1 {
                                                    assert(nds.take(t) =~= dirs_of(h).take(t));
                                                } else {
                                                    assert(nds.take(t) =~= dirs_of(h));
                                                }
                                            }
                                        };
                                        assert(hist_ok(m, s, nh@)) by {
                                            assert forall|t: int| 0 <= t < nh@.len() implies (
                                            #[trigger] nh@[t]).1@ == route_end(
                                                s,
                                                dirs_of(nh@).take(t),
                                            ) by {
                                                if t < nh@.len() - 1 {
                                                    assert(nh@[t] == h[t]);
                                                    assert(nds.take(t) =~= dirs_of(h).take(t));
                                                } else {
                                                    assert(nh@[t] == (d, curr));
                                                    assert(nds.take(t) =~= dirs_of(h));
                                                }
                                            }
                                        };
                                    }
                                    let found = find_pos(&next, p);
                                    match found {
                                        Option::None => {
                                            let ghost next_b = next@;
                                            proof {
                                                assert(frontier_ok(
                                                    m,
                                                    s,
                                                    next@.push((p, nh)),
                                                    k + 1,
                                                )) by {
                                                    assert forall|j: int|
                                                        0 <= j < next@.push((p, nh)).len() implies {
                                                        &&& hist_ok(
                                                            m,
                                                            s,
                                                            (#[trigger] next@.push((p, nh))[j]).1@,
                                                        )
                                                        &&& next@.push((p, nh))[j].1@.len() == k + 1
                                                        &&& next@.push((p, nh))[j].0@ == route_end(
                                                            s,
                                                            dirs_of(next@.push((p, nh))[j].1@),
                                                        )
                                                        &&& (k + 1 >= 1 ==> passable_at(
                                                            m,
                                                            next@.push((p, nh))[j].0@,
                                                        ))
                                                    } by {
                                                        if j < next@.len() {
                                                            assert(next@.push((p, nh))[j]
                                                                == next@[j]);
                                                        } else {
                                                            assert(next@.push((p, nh))[j] == (
                                                            p,
                                                            nh,
                                                            ));
                                                        }
                                                    }
                                                };
                                            }
                                            next.push((p, nh));
                                            proof {
                                                assert(next@ == next_b.push((p, nh)));
                                                assert(in_frontier(next@, p@)) by {
                                                    assert((next@[next@.len() - 1]).0@ == p@);
                                                };
                                                assert(unique_positions(next@)) by {
                                                    assert forall|j1: int, j2: int|
                                                        0 <= j1 < j2 < next@.len() implies (
                                                    #[trigger] next@[j1]).0@ != (
                                                    #[trigger] next@[j2]).0@ by {
                                                        assert(next@[j1] == next_b[j1]);
                                                        if j2 < next_b.len() {
                                                            assert(next@[j2] == next_b[j2]);
                                                        } else {
                                                            assert(!in_frontier(next_b, p@));
                                                            assert(next@[j2].0@ == p@);
                                                        }
                                                    }
                                                };
                                                assert forall|t: int|
                                                    0 <= t < nj + 1 && passable_at(
                                                        m,
                                                        #[trigger] spec_neighbor(
                                                            curr@,
                                                            neighbors@[t].0,
                                                        ),
                                                    ) implies in_seen(
                                                    seen@,
                                                    spec_neighbor(curr@, neighbors@[t].0),
                                                ) || in_frontier(
                                                    next@,
                                                    spec_neighbor(curr@, neighbors@[t].0),
                                                ) by {
                                                    let n = spec_neighbor(curr@, neighbors@[t].0);
                                                    if t < nj {
                                                        if in_frontier(next_b, n) {
                                                            let j = choose|j: int|
                                                                0 <= j < next_b.len() && (
                                                                #[trigger] next_b[j]).0@ == n;
                                                            assert(next@[j].0@ == n);
                                                        }
                                                    } else {
                                                        assert(n == p@);
                                                    }
                                                }
                                                assert forall|t: int|
                                                    0 <= t < nj + 1 && passable_at(
                                                        m,
                                                        #[trigger] spec_neighbor(
                                                            curr@,
                                                            neighbors@[t].0,
                                                        ),
                                                    ) && !in_seen(
                                                        seen@,
                                                        spec_neighbor(curr@, neighbors@[t].0),
                                                    ) implies exists|tt: int|
                                                    0 <= tt < next@.len() && (
                                                    #[trigger] next@[tt]).0@ == spec_neighbor(
                                                        curr@,
                                                        neighbors@[t].0,
                                                    ) && spec_lex_le(
                                                        dirs_of(next@[tt].1@),
                                                        dirs_of(h).push(neighbors@[t].0),
                                                    ) by {
                                                    let n = spec_neighbor(curr@, neighbors@[t].0);
                                                    if t < nj {
                                                        let tt = choose|tt: int|
                                                            0 <= tt < next_b.len() && (
                                                            #[trigger] next_b[tt]).0@ == n
                                                                && spec_lex_le(
                                                                dirs_of(next_b[tt].1@),
                                                                dirs_of(h).push(neighbors@[t].0),
                                                            );
                                                        assert(next@[tt] == next_b[tt]);
                                                    } else {
                                                        let tt = next@.len() - 1;
                                                        assert(next@[tt] == (p, nh));
                                                        assert(dirs_of(nh@) == dirs_of(h).push(d));
                                                    }
                                                }
                                                if candidates@.len() == 0 {
                                                    assert(mid_closure_ok(
                                                        m,
                                                        frontier0,
                                                        i as int,
                                                        next@,
                                                        seen@,
                                                    )) by {
                                                        assert forall|q: (int, int), dd: HexDirection|
                                                            #![trigger in_seen(seen@, q), spec_neighbor(q, dd)]
                                                            in_seen(seen@, q) && passable_at(
                                                                m,
                                                                spec_neighbor(q, dd),
                                                            ) implies in_seen(
                                                            seen@,
                                                            spec_neighbor(q, dd),
                                                        ) || in_frontier_from(
                                                            frontier0,
                                                            i as int,
                                                            spec_neighbor(q, dd),
                                                        ) || in_frontier(
                                                            next@,
                                                            spec_neighbor(q, dd),
                                                        ) by {
                                                            let n = spec_neighbor(q, dd);
                                                            if in_frontier(next_b, n) {
                                                                let j = choose|j: int|
                                                                    0 <= j < next_b.len() && (
                                                                    #[trigger] next_b[j]).0@ == n;
                                                                assert(next@[j].0@ == n);
                                                            }
                                                        }
                                                    };
                                                    assert(covered_min(
                                                        m,
                                                        frontier0,
                                                        i as int,
                                                        next@,
                                                        seen0,
                                                        seen@,
                                                    )) by {
                                                        assert forall|j: int, dd: HexDirection|
                                                            #![trigger frontier0[j], spec_neighbor(frontier0[j].0@, dd)]
                                                            0 <= j < i && !in_seen(
                                                                seen0,
                                                                frontier0[j].0@,
                                                            ) && !exit_at(m, frontier0[j].0@)
                                                                && passable_at(
                                                                m,
                                                                spec_neighbor(frontier0[j].0@, dd),
                                                            ) && !in_seen(
                                                                seen@,
                                                                spec_neighbor(frontier0[j].0@, dd),
                                                            ) implies exists|tt: int|
                                                            0 <= tt < next@.len() && (
                                                            #[trigger] next@[tt]).0@
                                                                == spec_neighbor(
                                                                frontier0[j].0@,
                                                                dd,
                                                            ) && spec_lex_le(
                                                                dirs_of(next@[tt].1@),
                                                                dirs_of(frontier0[j].1@).push(dd),
                                                            ) by {
                                                            let tt = choose|tt: int|
                                                                0 <= tt < next_b.len() && (
                                                                #[trigger] next_b[tt]).0@
                                                                    == spec_neighbor(
                                                                    frontier0[j].0@,
                                                                    dd,
                                                                ) && spec_lex_le(
                                                                    dirs_of(next_b[tt].1@),
                                                                    dirs_of(
                                                                        frontier0[j].1@,
                                                                    ).push(dd),
                                                                );
                                                            assert(next@[tt] == next_b[tt]);
                                                        }
                                                    };
                                                    assert(next_min(
                                                        m,
                                                        s,
                                                        frontier0,
                                                        i as int,
                                                        next@,
                                                        seen@,
                                                        k + 1,
                                                    )) by {
                                                        assert forall|j: int, ds: Seq<HexDirection>|
                                                            #![trigger next@[j], walk_from_seen(m, s, seen@, ds, k + 1)]
                                                            0 <= j < next@.len() && !in_seen(
                                                                seen@,
                                                                next@[j].0@,
                                                            ) && !in_frontier_from(
                                                                frontier0,
                                                                i as int,
                                                                next@[j].0@,
                                                            ) && walk_from_seen(
                                                                m,
                                                                s,
                                                                seen@,
                                                                ds,
                                                                k + 1,
                                                            ) && route_end(s, ds) == next@[j].0@
                                                            implies spec_lex_le(
                                                            dirs_of(next@[j].1@),
                                                            ds,
                                                        ) by {
                                                            if j < next_b.len() {
                                                                assert(next@[j] == next_b[j]);
                                                                assert(spec_lex_le(
                                                                    dirs_of(next_b[j].1@),
                                                                    ds,
                                                                ));
                                                            } else {
                                                                assert(next@[j] == (p, nh));
                                                                assert(ds.take(k + 1) =~= ds);
                                                                lemma_route_end_take(s, ds, k);
                                                                let u = route_end(s, ds.take(k));
                                                                assert(p@ == spec_neighbor(
                                                                    u,
                                                                    ds[k as int],
                                                                ));
                                                                assert(in_seen(seen@, u));
                                                                let tpar = choose|tp: int|
                                                                    0 <= tp < seen@.len() && (
                                                                    #[trigger] seen@[tp])@ == u;
                                                                if tpar < seen0.len() {
                                                                    assert(seen@[tpar] == seen0[
                                                                        tpar
                                                                    ]);
                                                                    assert(in_seen(seen0, u));
                                                                    assert(in_seen(
                                                                        seen0,
                                                                        spec_neighbor(
                                                                            u,
                                                                            ds[k as int],
                                                                        ),
                                                                    ) || in_frontier(
                                                                        frontier0,
                                                                        spec_neighbor(
                                                                            u,
                                                                            ds[k as int],
                                                                        ),
                                                                    ));
                                                                    if in_seen(seen0, p@) {
                                                                        let tx = choose|tx: int|
                                                                            0 <= tx < seen0.len()
                                                                                && (
                                                                            #[trigger] seen0[tx])@
                                                                                == p@;
                                                                        assert(seen@[tx]@ == p@);
                                                                        assert(false);
                                                                    } else {
                                                                        let jj = choose|jj: int|
                                                                            0 <= jj
                                                                                < frontier0.len()
                                                                                && (
                                                                            #[trigger] frontier0[
                                                                                jj
                                                                            ]).0@ == p@;
                                                                        if jj >= i {
                                                                            assert(in_frontier_from(
                                                                                frontier0,
                                                                                i as int,
                                                                                p@,
                                                                            ));
                                                                            assert(false);
                                                                        } else if exit_at(
                                                                            m,
                                                                            frontier0[jj].0@,
                                                                        ) {
                                                                            let tc = choose|
                                                                                tc: int,
                                                                            |
                                                                                0 <= tc
                                                                                    < candidates@.len()
                                                                                    && (
                                                                                #[trigger] candidates@[
                                                                                    tc
                                                                                ])@ == frontier0[
                                                                                jj
                                                                            ].1@;
                                                                            assert(false);
                                                                        } else {
                                                                            assert(in_seen(
                                                                                seen@,
                                                                                frontier0[jj].0@,
                                                                            ));
                                                                            assert(false);
                                                                        }
                                                                    }
                                                                } else {
                                                                    assert(seen_src_at(
                                                                        frontier0,
                                                                        i as int,
                                                                        seen@,
                                                                        tpar,
                                                                    ));
                                                                    let jj = choose|jj: int|
                                                                        0 <= jj < i && (
                                                                        #[trigger] frontier0[jj]).0
                                                                            == seen@[tpar];
                                                                    assert(frontier0[jj].0@ == u);
                                                                    assert(!in_seen(seen0, u)) by {
                                                                        if in_seen(seen0, u) {
                                                                            let tx = choose|
                                                                                tx: int,
                                                                            |
                                                                                0 <= tx
                                                                                    < seen0.len()
                                                                                    && (
                                                                                #[trigger] seen0[
                                                                                    tx
                                                                                ])@ == u;
                                                                            assert(seen@[tx]@
                                                                                == u);
                                                                            let mapped =
                                                                                seen@.map_values(
                                                                                |q: HexPosn| q@,
                                                                            );
                                                                            assert(mapped[tx]
                                                                                == mapped[tpar]);
                                                                            assert(false);
                                                                        }
                                                                    };
                                                                    assert(!exit_at(m, u));
                                                                    assert(spec_neighbor(
                                                                        frontier0[jj].0@,
                                                                        ds[k as int],
                                                                    ) == p@);
                                                                    assert(!in_seen(seen@, p@));
                                                                    let tt = choose|tt: int|
                                                                        0 <= tt < next_b.len()
                                                                            && (
                                                                        #[trigger] next_b[tt]).0@
                                                                            == spec_neighbor(
                                                                            frontier0[jj].0@,
                                                                            ds[k as int],
                                                                        ) && spec_lex_le(
                                                                            dirs_of(
                                                                                next_b[tt].1@,
                                                                            ),
                                                                            dirs_of(
                                                                                frontier0[jj].1@,
                                                                            ).push(ds[k as int]),
                                                                        );
                                                                    assert(in_frontier(
                                                                        next_b,
                                                                        p@,
                                                                    ));
                                                                    assert(false);
                                                                }
                                                            }
                                                        }
                                                    };
                                                }
                                            }
                                        },
                                        Option::Some(tfound) => {
                                            let keep_old = !route_lt(&nh, &next[tfound].1);
                                            if keep_old {
                                                proof {
                                                    let b_dirs = dirs_of(
                                                        next@[tfound as int].1@,
                                                    );
                                                    let a_dirs = dirs_of(nh@);
                                                    assert(!spec_lex_lt(a_dirs, b_dirs));
                                                    if !spec_lex_lt(b_dirs, a_dirs) {
                                                        lemma_lex_connex(a_dirs, b_dirs);
                                                    }
                                                    assert(spec_lex_le(b_dirs, a_dirs));
                                                    assert(a_dirs == dirs_of(h).push(d));
                                                    assert(spec_lex_le(
                                                        b_dirs,
                                                        dirs_of(h).push(d),
                                                    ));
                                                    assert((#[trigger] next@[tfound as int]).0@
                                                        == p@);
                                                    assert(in_frontier(next@, p@));
                                                }
                                            } else {
                                                let ghost next_b = next@;
                                                proof {
                                                    assert(spec_lex_lt(
                                                        dirs_of(nh@),
                                                        dirs_of(next_b[tfound as int].1@),
                                                    ));
                                                    assert(frontier_ok(
                                                        m,
                                                        s,
                                                        next_b.update(tfound as int, (p, nh)),
                                                        k + 1,
                                                    )) by {
                                                        let upd = next_b.update(
                                                            tfound as int,
                                                            (p, nh),
                                                        );
                                                        assert forall|j: int|
                                                            0 <= j < upd.len() implies {
                                                            &&& hist_ok(
                                                                m,
                                                                s,
                                                                (#[trigger] upd[j]).1@,
                                                            )
                                                            &&& upd[j].1@.len() == k + 1
                                                            &&& upd[j].0@ == route_end(
                                                                s,
                                                                dirs_of(upd[j].1@),
                                                            )
                                                            &&& (k + 1 >= 1 ==> passable_at(
                                                                m,
                                                                upd[j].0@,
                                                            ))
                                                        } by {
                                                            if j != tfound as int {
                                                                assert(upd[j] == next_b[j]);
                                                            } else {
                                                                assert(upd[j] == (p, nh));
                                                            }
                                                        }
                                                    };
                                                }
                                                next[tfound] = (p, nh);
                                                proof {
                                                    assert(next@ == next_b.update(
                                                        tfound as int,
                                                        (p, nh),
                                                    ));
                                                    assert forall|t: int|
                                                        0 <= t < next@.len() implies (
                                                    #[trigger] next@[t]).0@ == next_b[t].0@ by {
                                                        if t != tfound as int {
                                                            assert(next@[t] == next_b[t]);
                                                        }
                                                    }
                                                    assert(unique_positions(next@)) by {
                                                        assert forall|j1: int, j2: int|
                                                            0 <= j1 < j2 < next@.len() implies (
                                                        #[trigger] next@[j1]).0@ != (
                                                        #[trigger] next@[j2]).0@ by {
                                                            assert(next@[j1].0@ == next_b[j1].0@);
                                                            assert(next@[j2].0@ == next_b[j2].0@);
                                                            assert(next_b[j1].0@ != next_b[j2].0@);
                                                        }
                                                    };
                                                    assert(in_frontier(next@, p@)) by {
                                                        assert(next@[tfound as int].0@ == p@);
                                                    };
                                                    assert forall|t: int|
                                                        0 <= t < nj + 1 && passable_at(
                                                            m,
                                                            #[trigger] spec_neighbor(
                                                                curr@,
                                                                neighbors@[t].0,
                                                            ),
                                                        ) implies in_seen(
                                                        seen@,
                                                        spec_neighbor(curr@, neighbors@[t].0),
                                                    ) || in_frontier(
                                                        next@,
                                                        spec_neighbor(curr@, neighbors@[t].0),
                                                    ) by {
                                                        let n = spec_neighbor(
                                                            curr@,
                                                            neighbors@[t].0,
                                                        );
                                                        if t < nj {
                                                            if in_frontier(next_b, n) {
                                                                let j = choose|j: int|
                                                                    0 <= j < next_b.len() && (
                                                                    #[trigger] next_b[j]).0@ == n;
                                                                assert(next@[j].0@ == n);
                                                            }
                                                        } else {
                                                            assert(n == p@);
                                                        }
                                                    }
                                                    assert forall|t: int|
                                                        0 <= t < nj + 1 && passable_at(
                                                            m,
                                                            #[trigger] spec_neighbor(
                                                                curr@,
                                                                neighbors@[t].0,
                                                            ),
                                                        ) && !in_seen(
                                                            seen@,
                                                            spec_neighbor(curr@, neighbors@[t].0),
                                                        ) implies exists|tt: int|
                                                        0 <= tt < next@.len() && (
                                                        #[trigger] next@[tt]).0@ == spec_neighbor(
                                                            curr@,
                                                            neighbors@[t].0,
                                                        ) && spec_lex_le(
                                                            dirs_of(next@[tt].1@),
                                                            dirs_of(h).push(neighbors@[t].0),
                                                        ) by {
                                                        let n = spec_neighbor(
                                                            curr@,
                                                            neighbors@[t].0,
                                                        );
                                                        if t < nj {
                                                            let tt = choose|tt: int|
                                                                0 <= tt < next_b.len() && (
                                                                #[trigger] next_b[tt]).0@ == n
                                                                    && spec_lex_le(
                                                                    dirs_of(next_b[tt].1@),
                                                                    dirs_of(h).push(
                                                                        neighbors@[t].0,
                                                                    ),
                                                                );
                                                            if tt == tfound as int {
                                                                lemma_lex_le_trans(
                                                                    dirs_of(nh@),
                                                                    dirs_of(next_b[tt].1@),
                                                                    dirs_of(h).push(
                                                                        neighbors@[t].0,
                                                                    ),
                                                                );
                                                                assert(next@[tt].0@ == n);
                                                            } else {
                                                                assert(next@[tt] == next_b[tt]);
                                                            }
                                                        } else {
                                                            let tt = tfound as int;
                                                            assert(next@[tt] == (p, nh));
                                                            assert(dirs_of(nh@) == dirs_of(
                                                                h,
                                                            ).push(d));
                                                        }
                                                    }
                                                    if candidates@.len() == 0 {
                                                        assert(mid_closure_ok(
                                                            m,
                                                            frontier0,
                                                            i as int,
                                                            next@,
                                                            seen@,
                                                        )) by {
                                                            assert forall|
                                                                q: (int, int),
                                                                dd: HexDirection,
                                                            |
                                                                #![trigger in_seen(seen@, q), spec_neighbor(q, dd)]
                                                                in_seen(seen@, q) && passable_at(
                                                                    m,
                                                                    spec_neighbor(q, dd),
                                                                ) implies in_seen(
                                                                seen@,
                                                                spec_neighbor(q, dd),
                                                            ) || in_frontier_from(
                                                                frontier0,
                                                                i as int,
                                                                spec_neighbor(q, dd),
                                                            ) || in_frontier(
                                                                next@,
                                                                spec_neighbor(q, dd),
                                                            ) by {
                                                                let n = spec_neighbor(q, dd);
                                                                if in_frontier(next_b, n) {
                                                                    let j = choose|j: int|
                                                                        0 <= j < next_b.len()
                                                                            && (
                                                                        #[trigger] next_b[j]).0@
                                                                            == n;
                                                                    assert(next@[j].0@ == n);
                                                                }
                                                            }
                                                        };
                                                        assert(covered_min(
                                                            m,
                                                            frontier0,
                                                            i as int,
                                                            next@,
                                                            seen0,
                                                            seen@,
                                                        )) by {
                                                            assert forall|j: int, dd: HexDirection|
                                                                #![trigger frontier0[j], spec_neighbor(frontier0[j].0@, dd)]
                                                                0 <= j < i && !in_seen(
                                                                    seen0,
                                                                    frontier0[j].0@,
                                                                ) && !exit_at(m, frontier0[j].0@)
                                                                    && passable_at(
                                                                    m,
                                                                    spec_neighbor(
                                                                        frontier0[j].0@,
                                                                        dd,
                                                                    ),
                                                                ) && !in_seen(
                                                                    seen@,
                                                                    spec_neighbor(
                                                                        frontier0[j].0@,
                                                                        dd,
                                                                    ),
                                                                ) implies exists|tt: int|
                                                                0 <= tt < next@.len() && (
                                                                #[trigger] next@[tt]).0@
                                                                    == spec_neighbor(
                                                                    frontier0[j].0@,
                                                                    dd,
                                                                ) && spec_lex_le(
                                                                    dirs_of(next@[tt].1@),
                                                                    dirs_of(
                                                                        frontier0[j].1@,
                                                                    ).push(dd),
                                                                ) by {
                                                                let tt = choose|tt: int|
                                                                    0 <= tt < next_b.len() && (
                                                                    #[trigger] next_b[tt]).0@
                                                                        == spec_neighbor(
                                                                        frontier0[j].0@,
                                                                        dd,
                                                                    ) && spec_lex_le(
                                                                        dirs_of(next_b[tt].1@),
                                                                        dirs_of(
                                                                            frontier0[j].1@,
                                                                        ).push(dd),
                                                                    );
                                                                if tt == tfound as int {
                                                                    lemma_lex_le_trans(
                                                                        dirs_of(nh@),
                                                                        dirs_of(next_b[tt].1@),
                                                                        dirs_of(
                                                                            frontier0[j].1@,
                                                                        ).push(dd),
                                                                    );
                                                                    assert(next@[tt].0@
                                                                        == next_b[tt].0@);
                                                                } else {
                                                                    assert(next@[tt]
                                                                        == next_b[tt]);
                                                                }
                                                            }
                                                        };
                                                        assert(next_min(
                                                            m,
                                                            s,
                                                            frontier0,
                                                            i as int,
                                                            next@,
                                                            seen@,
                                                            k + 1,
                                                        )) by {
                                                            assert forall|
                                                                j: int,
                                                                ds: Seq<HexDirection>,
                                                            |
                                                                #![trigger next@[j], walk_from_seen(m, s, seen@, ds, k + 1)]
                                                                0 <= j < next@.len() && !in_seen(
                                                                    seen@,
                                                                    next@[j].0@,
                                                                ) && !in_frontier_from(
                                                                    frontier0,
                                                                    i as int,
                                                                    next@[j].0@,
                                                                ) && walk_from_seen(
                                                                    m,
                                                                    s,
                                                                    seen@,
                                                                    ds,
                                                                    k + 1,
                                                                ) && route_end(s, ds)
                                                                    == next@[j].0@ implies
                                                                spec_lex_le(
                                                                dirs_of(next@[j].1@),
                                                                ds,
                                                            ) by {
                                                                assert(next@[j].0@
                                                                    == next_b[j].0@);
                                                                assert(spec_lex_le(
                                                                    dirs_of(next_b[j].1@),
                                                                    ds,
                                                                ));
                                                                if j == tfound as int {
                                                                    lemma_lex_le_trans(
                                                                        dirs_of(nh@),
                                                                        dirs_of(next_b[j].1@),
                                                                        ds,
                                                                    );
                                                                } else {
                                                                    assert(next@[j]
                                                                        == next_b[j]);
                                                                }
                                                            }
                                                        };
                                                    }
                                                }
                                            }
                                        },
                                    }
                                }
                            }
                            nj = nj + 1;
                        }
                        let ghost seen_b = seen@;
                        seen.push(curr);
                        proof {
                            assert(seen@ == seen_b.push(curr));
                            assert(seen_ok(m, s, seen@)) by {
                                let mapped = seen@.map_values(|q: HexPosn| q@);
                                let mapped_b = seen_b.map_values(|q: HexPosn| q@);
                                assert(mapped =~= mapped_b.push(curr@));
                                assert forall|t: int| 0 <= t < mapped_b.len() implies mapped_b[t]
                                    != curr@ by {
                                    assert(seen_b[t]@ == mapped_b[t]);
                                };
                            };
                            assert forall|j: int|
                                0 <= j < i + 1 && !exit_at(m, (#[trigger] frontier0[j]).0@) implies
                                in_seen(seen@, frontier0[j].0@) by {
                                if j == i {
                                    assert(seen@[seen@.len() - 1]@ == curr@);
                                } else {
                                    assert(in_seen(seen_b, frontier0[j].0@));
                                    let t = choose|t: int|
                                        0 <= t < seen_b.len() && (#[trigger] seen_b[t])@
                                            == frontier0[j].0@;
                                    assert(seen@[t]@ == frontier0[j].0@);
                                }
                            }
                            if candidates@.len() == 0 {
                                assert(mid_closure_ok(m, frontier0, i + 1, next@, seen@)) by {
                                    assert forall|q: (int, int), dd: HexDirection|
                                        #![trigger in_seen(seen@, q), spec_neighbor(q, dd)]
                                        in_seen(seen@, q) && passable_at(
                                            m,
                                            spec_neighbor(q, dd),
                                        ) implies in_seen(seen@, spec_neighbor(q, dd))
                                        || in_frontier_from(
                                        frontier0,
                                        i + 1,
                                        spec_neighbor(q, dd),
                                    ) || in_frontier(next@, spec_neighbor(q, dd)) by {
                                        let n = spec_neighbor(q, dd);
                                        let tq = choose|tq: int|
                                            0 <= tq < seen@.len() && (#[trigger] seen@[tq])@ == q;
                                        if tq < seen_b.len() {
                                            assert(in_seen(seen_b, q));
                                            assert(in_seen(seen_b, n) || in_frontier_from(
                                                frontier0,
                                                i as int,
                                                n,
                                            ) || in_frontier(next@, n));
                                            if in_seen(seen_b, n) {
                                                let t = choose|t: int|
                                                    0 <= t < seen_b.len() && (#[trigger] seen_b[t])@
                                                        == n;
                                                assert(seen@[t]@ == n);
                                            } else if in_frontier_from(frontier0, i as int, n)
                                                && !in_frontier_from(frontier0, i + 1, n) {
                                                let j = choose|j: int|
                                                    i <= j < frontier0.len() && (
                                                    #[trigger] frontier0[j]).0@ == n;
                                                assert(j == i);
                                                assert(n == curr@);
                                                assert(seen@[seen@.len() - 1]@ == n);
                                            }
                                        } else {
                                            assert(q == curr@);
                                            let t = dd.spec_rank();
                                            assert(neighbors@[t].0.spec_rank() == t);
                                            assert(neighbors@[t].0 == dd);
                                            assert(passable_at(
                                                m,
                                                spec_neighbor(curr@, neighbors@[t].0),
                                            ));
                                            if in_seen(seen_b, n) {
                                                let tt = choose|tt: int|
                                                    0 <= tt < seen_b.len() && (
                                                    #[trigger] seen_b[tt])@ == n;
                                                assert(seen@[tt]@ == n);
                                            }
                                        }
                                    }
                                };
                                assert(!in_seen(seen0, curr@)) by {
                                    if in_seen(seen0, curr@) {
                                        let tx = choose|tx: int|
                                            0 <= tx < seen0.len() && (#[trigger] seen0[tx])@
                                                == curr@;
                                        assert(seen_b[tx]@ == curr@);
                                        assert(in_seen(seen_b, curr@));
                                    }
                                };
                                assert(covered_min(m, frontier0, i + 1, next@, seen0, seen@)) by {
                                    assert forall|j: int, dd: HexDirection|
                                        #![trigger frontier0[j], spec_neighbor(frontier0[j].0@, dd)]
                                        0 <= j < i + 1 && !in_seen(seen0, frontier0[j].0@)
                                            && !exit_at(m, frontier0[j].0@) && passable_at(
                                            m,
                                            spec_neighbor(frontier0[j].0@, dd),
                                        ) && !in_seen(
                                            seen@,
                                            spec_neighbor(frontier0[j].0@, dd),
                                        ) implies exists|tt: int|
                                        0 <= tt < next@.len() && (#[trigger] next@[tt]).0@
                                            == spec_neighbor(frontier0[j].0@, dd) && spec_lex_le(
                                            dirs_of(next@[tt].1@),
                                            dirs_of(frontier0[j].1@).push(dd),
                                        ) by {
                                        let n = spec_neighbor(frontier0[j].0@, dd);
                                        assert(!in_seen(seen_b, n)) by {
                                            if in_seen(seen_b, n) {
                                                let tx = choose|tx: int|
                                                    0 <= tx < seen_b.len() && (
                                                    #[trigger] seen_b[tx])@ == n;
                                                assert(seen@[tx]@ == n);
                                            }
                                        };
                                        if j < i {
                                        } else {
                                            assert(frontier0[i as int].0@ == curr@);
                                            let tr = dd.spec_rank();
                                            assert(neighbors@[tr].0.spec_rank() == tr);
                                            assert(neighbors@[tr].0 == dd);
                                            assert(passable_at(
                                                m,
                                                spec_neighbor(curr@, neighbors@[tr].0),
                                            ));
                                            assert(frontier0[i as int].1@ == h);
                                        }
                                    }
                                };
                                assert(next_min(m, s, frontier0, i + 1, next@, seen@, k + 1)) by {
                                    assert forall|j: int, ds: Seq<HexDirection>|
                                        #![trigger next@[j], walk_from_seen(m, s, seen@, ds, k + 1)]
                                        0 <= j < next@.len() && !in_seen(seen@, next@[j].0@)
                                            && !in_frontier_from(frontier0, i + 1, next@[j].0@)
                                            && walk_from_seen(m, s, seen@, ds, k + 1) && route_end(
                                            s,
                                            ds,
                                        ) == next@[j].0@ implies spec_lex_le(
                                        dirs_of(next@[j].1@),
                                        ds,
                                    ) by {
                                        let pos = next@[j].0@;
                                        assert(!in_seen(seen_b, pos)) by {
                                            if in_seen(seen_b, pos) {
                                                let tx = choose|tx: int|
                                                    0 <= tx < seen_b.len() && (
                                                    #[trigger] seen_b[tx])@ == pos;
                                                assert(seen@[tx]@ == pos);
                                            }
                                        };
                                        assert(pos != curr@) by {
                                            assert(seen@[seen@.len() - 1]@ == curr@);
                                        };
                                        assert(!in_frontier_from(frontier0, i as int, pos)) by {
                                            if in_frontier_from(frontier0, i as int, pos) {
                                                let jj = choose|jj: int|
                                                    i <= jj < frontier0.len() && (
                                                    #[trigger] frontier0[jj]).0@ == pos;
                                                assert(jj == i);
                                                assert(frontier0[i as int].0@ == curr@);
                                            }
                                        };
                                        assert(ds.take(k + 1) =~= ds);
                                        lemma_route_end_take(s, ds, k);
                                        let u = route_end(s, ds.take(k));
                                        assert(pos == spec_neighbor(u, ds[k as int]));
                                        assert(in_seen(seen@, u));
                                        let tpar = choose|tp: int|
                                            0 <= tp < seen@.len() && (#[trigger] seen@[tp])@ == u;
                                        if tpar < seen_b.len() {
                                            assert(seen_b[tpar] == seen@[tpar]);
                                            assert(in_seen(seen_b, u));
                                            assert(walk_from_seen(m, s, seen_b, ds, k + 1));
                                            assert(spec_lex_le(dirs_of(next@[j].1@), ds));
                                        } else {
                                            assert(seen@[tpar] == curr);
                                            assert(u == curr@);
                                            let dd = ds[k as int];
                                            let wpre = ds.take(k);
                                            lemma_route_passable_take(m, s, ds, k);
                                            lemma_route_clear_take(m, s, ds, k);
                                            if k >= 1 {
                                                let q = route_end(s, ds.take(k - 1));
                                                assert(wpre.take(k - 1) =~= ds.take(k - 1));
                                                lemma_route_passable_take(m, s, ds, k - 1);
                                                lemma_route_clear_take(m, s, ds, k - 1);
                                                assert(!exit_at(m, q)) by {
                                                    if k - 1 == 0 {
                                                        assert(route_end(s, ds.take(0)) == s);
                                                    }
                                                };
                                                assert(in_seen(seen0, q));
                                            }
                                            assert(walk_from_seen(m, s, seen0, wpre, k));
                                            assert(entries_min(m, s, frontier0, seen0, k));
                                            assert(frontier0[i as int].0@ == curr@);
                                            assert(frontier0[i as int].1@ == h);
                                            assert(!in_seen(seen0, frontier0[i as int].0@));
                                            assert(route_end(s, wpre) == curr@);
                                            assert(spec_lex_le(dirs_of(h), wpre));
                                            let tr = dd.spec_rank();
                                            assert(neighbors@[tr].0.spec_rank() == tr);
                                            assert(neighbors@[tr].0 == dd);
                                            assert(passable_at(
                                                m,
                                                spec_neighbor(curr@, neighbors@[tr].0),
                                            ));
                                            assert(!in_seen(
                                                seen_b,
                                                spec_neighbor(curr@, neighbors@[tr].0),
                                            ));
                                            let tt = choose|tt: int|
                                                0 <= tt < next@.len() && (#[trigger] next@[tt]).0@
                                                    == spec_neighbor(curr@, neighbors@[tr].0)
                                                    && spec_lex_le(
                                                    dirs_of(next@[tt].1@),
                                                    dirs_of(h).push(neighbors@[tr].0),
                                                );
                                            assert(tt == j) by {
                                                if tt != j {
                                                    assert(next@[tt].0@ == next@[j].0@);
                                                }
                                            };
                                            assert(ds =~= wpre.push(dd));
                                            lemma_lex_append(dirs_of(h), wpre, dd, dd);
                                            assert(spec_lex_le(dirs_of(h).push(dd), ds));
                                            lemma_lex_le_trans(
                                                dirs_of(next@[j].1@),
                                                dirs_of(h).push(dd),
                                                ds,
                                            );
                                        }
                                    }
                                };
                            }
                            assert forall|t: int| seen0.len() <= t < seen@.len() implies
                                #[trigger] seen_src_at(frontier0, i + 1, seen@, t) by {
                                if t < seen@.len() - 1 {
                                    assert(seen@[t] == seen_b[t]);
                                    assert(seen_src_at(frontier0, i as int, seen_b, t));
                                    let j = choose|j: int|
                                        0 <= j < i && (#[trigger] frontier0[j]).0 == seen_b[t];
                                    assert(frontier0[j].0 == seen@[t]);
                                } else {
                                    assert(seen@[t] == curr);
                                    assert(frontier0[i as int].0 == curr);
                                }
                            }
                            assert(cand_recorded(m, frontier0, i + 1, candidates@)) by {
                                assert forall|j: int|
                                    0 <= j < i + 1 && exit_at(m, (#[trigger] frontier0[j]).0@)
                                        implies exists|t: int|
                                        0 <= t < candidates@.len() && (#[trigger] candidates@[t])@
                                            == frontier0[j].1@ by {
                                    assert(j < i) by {
                                        assert(frontier0[i as int].0@ == curr@);
                                    };
                                    let t = choose|t: int|
                                        0 <= t < candidates@.len() && (#[trigger] candidates@[t])@
                                            == frontier0[j].1@;
                                }
                            };
                        }
                        i = i + 1;
                    }
                }
            }
            proof {
                lemma_seen_card(m, s, seen@);
                if candidates@.len() >= 1 {
                    lemma_reached_grows(m, s, seen0, seen@, k);
                    assert(candidates_min(m, s, candidates@, seen@, k)) by {
                        assert forall|ds: Seq<HexDirection>|
                            #![trigger walk_from_seen(m, s, seen@, ds, k)]
                            walk_from_seen(m, s, seen@, ds, k) && exit_at(
                                m,
                                route_end(s, ds),
                            ) implies exists|t: int|
                            0 <= t < candidates@.len() && spec_lex_le(
                                dirs_of((#[trigger] candidates@[t])@),
                                ds,
                            ) by {
                            let e = route_end(s, ds);
                            if k == 0 {
                                assert(ds.len() == 0);
                                assert(e == s);
                                assert(false);
                            } else {
                                let q = route_end(s, ds.take(k - 1));
                                lemma_route_passable_take(m, s, ds, k - 1);
                                lemma_route_clear_take(m, s, ds, k - 1);
                                assert(!exit_at(m, q)) by {
                                    if k - 1 == 0 {
                                        assert(route_end(s, ds.take(0)) == s);
                                    }
                                };
                                assert(in_seen(seen0, q));
                                lemma_route_end_take(s, ds, k - 1);
                                assert(ds.take(k) =~= ds);
                                assert(e == spec_neighbor(q, ds[k - 1]));
                                assert(passable_at(m, e)) by {
                                    assert(m[e].spec_exit());
                                };
                                assert(in_seen(seen0, e) || in_frontier(frontier0, e));
                                if in_seen(seen0, e) {
                                    let tx = choose|tx: int|
                                        0 <= tx < seen0.len() && (#[trigger] seen0[tx])@ == e;
                                    assert(!exit_at(m, seen0[tx]@));
                                    assert(false);
                                } else {
                                    let je = choose|je: int|
                                        0 <= je < frontier0.len() && (#[trigger] frontier0[je]).0@
                                            == e;
                                    let tc = choose|tc: int|
                                        0 <= tc < candidates@.len() && (#[trigger] candidates@[
                                            tc
                                        ])@ == frontier0[je].1@;
                                    assert(!in_seen(seen0, e));
                                    assert(walk_from_seen(m, s, seen0, ds, k));
                                    assert(spec_lex_le(dirs_of(frontier0[je].1@), ds));
                                }
                            }
                        }
                    };
                }
                if candidates@.len() == 0 {
                    assert(closure_ok(m, next@, seen@)) by {
                        assert forall|p: (int, int), d: HexDirection|
                            #![trigger in_seen(seen@, p), spec_neighbor(p, d)]
                            in_seen(seen@, p) && passable_at(m, spec_neighbor(p, d)) implies
                            in_seen(seen@, spec_neighbor(p, d)) || in_frontier(
                            next@,
                            spec_neighbor(p, d),
                        ) by {
                            assert(!in_frontier_from(frontier0, frontier0.len() as int, spec_neighbor(p, d)));
                        }
                    };
                    assert(reached_ok(m, s, seen@, k + 1)) by {
                        assert forall|ds: Seq<HexDirection>|
                            #![trigger route_passable(m, s, ds)]
                            route_passable(m, s, ds) && route_clear(m, s, ds) && ds.len() < k + 1
                                && !exit_at(m, route_end(s, ds)) implies in_seen(
                            seen@,
                            route_end(s, ds),
                        ) by {
                            if ds.len() < k {
                                assert(in_seen(seen0, route_end(s, ds)));
                                let t = choose|t: int|
                                    0 <= t < seen0.len() && (#[trigger] seen0[t])@ == route_end(
                                        s,
                                        ds,
                                    );
                                assert(seen@[t]@ == route_end(s, ds));
                            } else {
                                lemma_level_step(m, s, frontier0, seen0, seen@, ds, k);
                            }
                        }
                    };
                    assert(no_clear_escape_below(m, s, k + 1)) by {
                        assert forall|ds: Seq<HexDirection>| ds.len() < k + 1 implies
                            !#[trigger] clear_escape_route(m, s, ds) by {
                            if ds.len() == k && clear_escape_route(m, s, ds) {
                                lemma_exit_found(m, s, frontier0, seen0, candidates@, seen@, ds, k);
                            }
                        }
                    };
                }
            }
            frontier = next;
            proof {
                k = k + 1;
            }
        }
        if candidates.len() == 0 {
            proof {
                assert(k >= 1);
                assert(route_passable(m, s, Seq::<HexDirection>::empty()));
                assert(route_end(s, Seq::<HexDirection>::empty()) == s);
                assert(in_seen(seen@, s));
                assert forall|ds: Seq<HexDirection>| !#[trigger] escape_route(m, s, ds) by {
                    if escape_route(m, s, ds) {
                        lemma_escape_has_clear(m, s, ds);
                        let cs = choose|cs: Seq<HexDirection>|
                            #[trigger] clear_escape_route(m, s, cs) && cs.len() <= ds.len();
                        lemma_closed_world(m, s, frontier@, seen@, cs);
                    }
                }
                assert(enclosed(m, s));
            }
            None
        } else {
            proof {
                lemma_no_clear_escape_below(m, s, k - 1);
            }
            let mut best: usize = 0;
            let mut ci: usize = 1;
            while ci < candidates.len()
                invariant
                    best < candidates@.len(),
                    1 <= ci,
                    forall|t: int|
                        0 <= t < ci && t < candidates@.len() ==> spec_lex_le(
                            dirs_of(candidates@[best as int]@),
                            dirs_of((#[trigger] candidates@[t])@),
                        ),
                decreases candidates@.len() - ci,
            {
                let ghost old_best = best as int;
                if route_lt(&candidates[ci], &candidates[best]) {
                    best = ci;
                    proof {
                        assert forall|t: int|
                            0 <= t < ci + 1 && t < candidates@.len() implies spec_lex_le(
                            dirs_of(candidates@[best as int]@),
                            dirs_of((#[trigger] candidates@[t])@),
                        ) by {
                            if t < ci {
                                lemma_lex_le_trans(
                                    dirs_of(candidates@[ci as int]@),
                                    dirs_of(candidates@[old_best]@),
                                    dirs_of(candidates@[t]@),
                                );
                            }
                        }
                    }
                } else {
                    proof {
                        let a = dirs_of(candidates@[ci as int]@);
                        let b = dirs_of(candidates@[best as int]@);
                        if !spec_lex_lt(b, a) {
                            lemma_lex_connex(a, b);
                        }
                        assert(spec_lex_le(b, a));
                    }
                }
                ci = ci + 1;
            }
            let ghost ch = candidates@[best as int]@;
            proof {
                assert(hist_ok(m, s, ch));
                assert(ch.len() == k - 1);
                assert(exit_at(m, route_end(s, dirs_of(ch))));
                assert(escape_route(m, s, dirs_of(ch)));
                if ch.len() == 0 {
                    assert(dirs_of(ch).len() == 0);
                    assert(route_end(s, dirs_of(ch)) == s);
                    assert(false);
                }
                assert(shortest_escape(m, s, dirs_of(ch)));
                assert(chosen_escape(m, s, dirs_of(ch))) by {
                    assert forall|ds2: Seq<HexDirection>|
                        #[trigger] escape_route(m, s, ds2) && ds2.len() == dirs_of(ch).len()
                            implies spec_lex_le(dirs_of(ch), ds2) by {
                        assert(ds2.len() == k - 1);
                        assert(no_escape_below(m, s, ds2.len() as int));
                        lemma_shortest_is_clear(m, s, ds2);
                        lemma_route_passable_take(m, s, ds2, k - 2);
                        lemma_route_clear_take(m, s, ds2, k - 2);
                        assert(!exit_at(m, route_end(s, ds2.take(k - 2)))) by {
                            if k - 2 == 0 {
                                assert(route_end(s, ds2.take(0)) == s);
                            }
                        };
                        assert(in_seen(seen@, route_end(s, ds2.take(k - 2))));
                        assert(walk_from_seen(m, s, seen@, ds2, k - 1));
                        let tcc = choose|tcc: int|
                            0 <= tcc < candidates@.len() && spec_lex_le(
                                dirs_of((#[trigger] candidates@[tcc])@),
                                ds2,
                            );
                        assert(spec_lex_le(dirs_of(ch), dirs_of(candidates@[tcc]@)));
                        lemma_lex_le_trans(dirs_of(ch), dirs_of(candidates@[tcc]@), ds2);
                    }
                };
                assert(dirs_of(ch).take(0).len() == 0);
                assert(ch[0].1@ == s);
                assert(dirs_of(ch)[0] == ch[0].0);
            }
            let d0 = candidates[best][0].0;
            let from0 = candidates[best][0].1;
            let newp = from0.get_neighbor(d0);
            self.position = newp;
            proof {
                assert(newp@ == spec_neighbor(s, dirs_of(ch)[0]));
                assert(dirs_of(ch).len() >= 1);
                if enclosed(m, s) {
                    assert(!escape_route(m, s, dirs_of(ch)));
                }
            }
            Some(newp)
        }
    }
}

/// The loaded board shows the classic rectangular layout: every grid
/// cell carries its classic tile, and nothing else is on the board.
pub open spec fn classic_layout(
    m: Map<(int, int), ClassicTile>,
    rows: int,
    cols: int,
    bl: Seq<(int, int)>,
) -> bool {
    &&& forall|a: int, b: int|
        0 <= a < rows && 0 <= b < cols ==> m.dom().contains((a, b)) && m[(a, b)]
            == #[trigger] crate::maps::classic_tile_at(rows, cols, bl, a, b)
    &&& forall|p: (int, int)| #[trigger] m.dom().contains(p) ==> 0 <= p.0 < rows && 0 <= p.1 < cols
}

/// Every position of the mapping lies inside the game's coordinate
/// range.
pub open spec fn board_in_range(m: Map<(int, int), ClassicTile>) -> bool {
    forall|p: (int, int)| #[trigger] m.dom().contains(p) ==> in_coord_limit(p)
}

/// Two game instances agree on everything a caller can observe.
pub open spec fn state_eq(a: GameInstance, b: GameInstance) -> bool {
    &&& a.spec_board() == b.spec_board()
    &&& a.spec_pig() == b.spec_pig()
    &&& a.spec_free_blocks() == b.spec_free_blocks()
}

/// An instant of the game: a board, a pig, and the count of free
/// placements left before the pig starts to move.
pub struct GameInstance {
    board: Board,
    pig: ClassicPig,
    free_blocks: usize,
}

impl GameInstance {
    /// The mapping from positions to tiles.
    pub closed spec fn spec_board(&self) -> Map<(int, int), ClassicTile> {
        self.board@
    }

    /// The pig's position.
    pub closed spec fn spec_pig(&self) -> (int, int) {
        self.pig.position@
    }

    /// How many free placements are left before the pig starts to move.
    pub closed spec fn spec_free_blocks(&self) -> int {
        self.free_blocks as int
    }

    /// The board's keys in insertion order, which the bounding box is
    /// computed over.
    pub closed spec fn spec_keys(&self) -> Seq<(int, int)> {
        self.board.key_seq()
    }

    /// The instance is well formed: the board is, and the pig stands on
    /// a tile of the board.
    pub closed spec fn wf(&self) -> bool {
        &&& self.board.wf()
        &&& self.board@.dom().contains(self.pig.position@)
        &&& board_in_range(self.board@)
    }

    /// Builds a match from a map generator's tile listing, a start
    /// position and a free-placement budget. Refused when the start is
    /// not a tile of the board, when it is already an exit, or when a
    /// position of the board lies outside the game's coordinate range.
    pub fn new(tiles: Vec<(HexPosn, ClassicTile)>, start: HexPosn, free_blocks: usize) -> (g:
        Option<GameInstance>)
        ensures
            ({
                let m = crate::board::entries_map(
                    tiles@.take(
                        if tiles@.len() <= crate::board::MAX_BOARD_SIZE as int {
                            tiles@.len() as int
                        } else {
                            crate::board::MAX_BOARD_SIZE as int
                        },
                    ),
                );
                &&& (g is None <==> (!m.dom().contains(start@) || m[start@].spec_exit()
                    || !board_in_range(m)))
                &&& g matches Some(gi) ==> gi.wf() && gi.spec_board() == m && gi.spec_pig()
                    == start@ && !exit_at(gi.spec_board(), gi.spec_pig())
                    && gi.spec_free_blocks() == free_blocks as int
            }),
    {
        let n = if tiles.len() <= crate::board::MAX_BOARD_SIZE {
            tiles.len()
        } else {
            crate::board::MAX_BOARD_SIZE
        };
        let ghost consumed = tiles@.take(n as int);
        proof {
            assert(consumed =~= tiles@.take(
                if tiles@.len() <= crate::board::MAX_BOARD_SIZE as int {
                    tiles@.len() as int
                } else {
                    crate::board::MAX_BOARD_SIZE as int
                },
            ));
        }
        let mut i: usize = 0;
        while i < n
            invariant
                i <= n,
                n <= tiles@.len(),
                n as int == (if tiles@.len() <= crate::board::MAX_BOARD_SIZE as int {
                    tiles@.len() as int
                } else {
                    crate::board::MAX_BOARD_SIZE as int
                }),
                consumed == tiles@.take(n as int),
                forall|j: int| 0 <= j < i ==> in_coord_limit((#[trigger] consumed[j]).0@),
            decreases n - i,
        {
            let (p, _) = tiles[i];
            if p.r < -crate::posn::COORD_LIMIT || p.r > crate::posn::COORD_LIMIT
                || p.c < -crate::posn::COORD_LIMIT || p.c > crate::posn::COORD_LIMIT {
                proof {
                    assert(consumed[i as int].0@ == tiles@[i as int].0@);
                    assert(!in_coord_limit(consumed[i as int].0@));
                    crate::board::lemma_entry_key_in_dom(consumed, i as int);
                    assert(crate::board::entries_map(consumed).dom().contains(
                        consumed[i as int].0@,
                    ));
                    assert(consumed =~= tiles@.take(
                        if tiles@.len() <= crate::board::MAX_BOARD_SIZE as int {
                            tiles@.len() as int
                        } else {
                            crate::board::MAX_BOARD_SIZE as int
                        },
                    ));
                    assert(!board_in_range(crate::board::entries_map(consumed)));
                }
                return None;
            }
            proof {
                assert(consumed[i as int] == tiles@[i as int]);
            }
            i = i + 1;
        }
        proof {
            assert forall|p: (int, int)|
                #[trigger] crate::board::entries_map(consumed).dom().contains(p) implies
                in_coord_limit(p) by {
                crate::board::lemma_entries_map_dom_key(consumed, p);
                let j = choose|j: int| 0 <= j < consumed.len() && (#[trigger] consumed[j].0)@ == p;
            }
            assert(board_in_range(crate::board::entries_map(consumed)));
        }
        let board = Board::new(tiles);
        match board.get_tile(start) {
            Option::Some(t) => {
                if t.is_exit() {
                    None
                } else {
                    Some(
                        GameInstance {
                            board,
                            pig: ClassicPig { position: start },
                            free_blocks,
                        },
                    )
                }
            },
            Option::None => None,
        }
    }

    /// The classic variant: an 11 by 5 rectangular map with a handful of
    /// random blocks, the pig at row 5, column 2, and 4 free placements.
    pub fn classic() -> (g: GameInstance)
        ensures
            g.wf(),
            g.spec_free_blocks() == 4,
            g.spec_pig() == (5int, 2int),
            !exit_at(g.spec_board(), g.spec_pig()),
            exists|bl: Seq<(int, int)>|
                #[trigger] classic_layout(g.spec_board(), 11, 5, bl) && 3 <= bl.len() < 10 && (
                forall|t: int| 0 <= t < bl.len() ==> 0 <= (#[trigger] bl[t]).0 < 11 && 0 <= bl[t].1
                    < 5),
            crate::posn::spec_bounds(g.spec_keys()) == ((0int, 0int), (10int, 4int)),
    {
        let map = crate::maps::ClassicMap::new(11, 5);
        let tiles = map.tiles();
        let board = Board::new(tiles);
        let pig = ClassicPig::new();
        let g = GameInstance { board, pig, free_blocks: 4 };
        proof {
            let tl = tiles@;
            let bl = map.spec_blocks();
            let m = g.spec_board();
            assert(tl.take(tl.len() as int) =~= tl);
            assert(m == crate::board::entries_map(tl));
            assert forall|a: int, b: int| 0 <= a < 11 && 0 <= b < 5 implies m.dom().contains(
                (a, b),
            ) && m[(a, b)] == #[trigger] crate::maps::classic_tile_at(11, 5, bl, a, b) by {
                let idx = crate::maps::cell_index(a, b, 5);
                assert(0 <= idx < 55);
                assert(tl[idx].0@ == (a, b));
                assert(tl[idx].1 == crate::maps::classic_tile_at(11, 5, bl, a, b));
                assert(in_coord_limit((a, b)));
                assert forall|j: int| 0 <= j < tl.len() && j != idx implies (#[trigger] tl[j].0)@
                    != tl[idx].0@ by {
                    assert(crate::maps::keyed_cell(tl, 11, 5, j));
                    let (a2, b2) = choose|a2: int, b2: int|
                        0 <= a2 < 11 && 0 <= b2 < 5 && j == #[trigger] crate::maps::cell_index(
                            a2,
                            b2,
                            5,
                        ) && tl[j].0@ == (a2, b2);
                    if tl[j].0@ == (a, b) {
                        assert(a2 == a && b2 == b);
                        assert(j == idx);
                    }
                }
                crate::board::lemma_entries_map_get(tl, idx);
            }
            assert forall|p: (int, int)| #[trigger] m.dom().contains(p) implies 0 <= p.0 < 11 && 0
                <= p.1 < 5 by {
                crate::board::lemma_entries_map_dom_key(tl, p);
                let j = choose|j: int| 0 <= j < tl.len() && (#[trigger] tl[j].0)@ == p;
                assert(crate::maps::keyed_cell(tl, 11, 5, j));
                let (a2, b2) = choose|a2: int, b2: int|
                    0 <= a2 < 11 && 0 <= b2 < 5 && j == #[trigger] crate::maps::cell_index(
                        a2,
                        b2,
                        5,
                    ) && tl[j].0@ == (a2, b2);
            }
            assert(classic_layout(m, 11, 5, bl));
            assert forall|p: (int, int)| #[trigger] m.dom().contains(p) implies in_coord_limit(
                p,
            ) by {
                assert(0 <= p.0 < 11 && 0 <= p.1 < 5);
            }
            assert(board_in_range(m));
            assert(crate::maps::classic_tile_at(11, 5, bl, 5, 2) == ClassicTile::Free);
            assert(m[(5int, 2int)] == ClassicTile::Free);
            assert forall|t: int| 0 <= t < bl.len() implies 0 <= (#[trigger] bl[t]).0 < 11 && 0
                <= bl[t].1 < 5 by {
                assert(0 <= bl[t].0 < map.spec_rows());
                assert(0 <= bl[t].1 < map.spec_cols());
            }
            g.board.lemma_bounds_of_dom();
            let bx = crate::posn::spec_bounds(g.board.key_seq());
            assert(bx == crate::posn::spec_bounds(g.spec_keys()));
            assert(g.board@ == m);
            assert(m[(0int, 0int)] == crate::maps::classic_tile_at(11, 5, bl, 0, 0));
            assert(m[(10int, 0int)] == crate::maps::classic_tile_at(11, 5, bl, 10, 0));
            assert(m[(0int, 4int)] == crate::maps::classic_tile_at(11, 5, bl, 0, 4));
            assert(g.board@.dom().contains((0int, 0int)));
            assert(g.board@.dom().contains((10int, 0int)));
            assert(g.board@.dom().contains((0int, 4int)));
            assert(exists|q: (int, int)| #[trigger] g.board@.dom().contains(q));
            assert(exists|q: (int, int)| #[trigger] g.board@.dom().contains(q) && q.0 == bx.0.0);
            assert(exists|q: (int, int)| #[trigger] g.board@.dom().contains(q) && q.1 == bx.0.1);
            assert(exists|q: (int, int)| #[trigger] g.board@.dom().contains(q) && q.0 == bx.1.0);
            assert(exists|q: (int, int)| #[trigger] g.board@.dom().contains(q) && q.1 == bx.1.1);
            let q1 = choose|q: (int, int)| #[trigger] g.board@.dom().contains(q) && q.0 == bx.0.0;
            let q2 = choose|q: (int, int)| #[trigger] g.board@.dom().contains(q) && q.1 == bx.0.1;
            let q3 = choose|q: (int, int)| #[trigger] g.board@.dom().contains(q) && q.0 == bx.1.0;
            let q4 = choose|q: (int, int)| #[trigger] g.board@.dom().contains(q) && q.1 == bx.1.1;
            assert(bx.0.0 <= 0 && bx.0.1 <= 0 && bx.1.0 >= 10 && bx.1.1 >= 4);
            assert(bx.0.0 == 0);
            assert(bx.0.1 == 0);
            assert(bx.1.0 == 10);
            assert(bx.1.1 == 4);
            assert(bx == ((0int, 0int), (10int, 4int)));
        }
        g
    }

    /// The size of the smallest bounding box of the board's positions:
    /// rows and columns, inclusive on both ends. The box contains every
    /// position of the board, and each of its four corner coordinates is
    /// attained by one, so for a full grid the result is the grid's size.
    pub fn get_dimensions(&self) -> (d: (isize, isize))
        requires
            self.wf(),
        ensures
            ({
                let b = crate::posn::spec_bounds(self.spec_keys());
                d.0 as int == b.1.0 - b.0.0 + 1 && d.1 as int == b.1.1 - b.0.1 + 1
            }),
            d.0 >= 1,
            d.1 >= 1,
            forall|p: (int, int)|
                #[trigger] self.spec_board().dom().contains(p) ==> ({
                    let b = crate::posn::spec_bounds(self.spec_keys());
                    b.0.0 <= p.0 <= b.1.0 && b.0.1 <= p.1 <= b.1.1
                }),
            (exists|q: (int, int)| #[trigger] self.spec_board().dom().contains(q)) ==> ({
                let b = crate::posn::spec_bounds(self.spec_keys());
                &&& exists|q: (int, int)|
                    #[trigger] self.spec_board().dom().contains(q) && q.0 == b.0.0
                &&& exists|q: (int, int)|
                    #[trigger] self.spec_board().dom().contains(q) && q.1 == b.0.1
                &&& exists|q: (int, int)|
                    #[trigger] self.spec_board().dom().contains(q) && q.0 == b.1.0
                &&& exists|q: (int, int)|
                    #[trigger] self.spec_board().dom().contains(q) && q.1 == b.1.1
            }),
    {
        let (bp, ep) = self.board.get_dimensions();
        (ep.r - bp.r + 1, ep.c - bp.c + 1)
    }

    /// The tile at a position, or `None` when the position is not part
    /// of the board.
    pub fn tile_at(&self, p: HexPosn) -> (r: Option<ClassicTile>)
        requires
            self.wf(),
        ensures
            r == if self.spec_board().dom().contains(p@) {
                Some(self.spec_board()[p@])
            } else {
                None::<ClassicTile>
            },
    {
        self.board.get_tile(p)
    }

    /// The pig's position, as needed for rendering.
    pub fn pig_pos(&self) -> (p: HexPosn)
        ensures
            p@ == self.spec_pig(),
    {
        self.pig.position()
    }

    /// One turn: places a block at `p`, and — once no free placements
    /// are left — lets the pig take its move on the updated board.
    /// `Ok(None)` is an ongoing game, `Ok(Some(true))` a player win (the
    /// pig is enclosed), `Ok(Some(false))` a pig win (the pig reached an
    /// exit, after which no further turn may be taken).
    pub fn block(&mut self, p: HexPosn) -> (r: Result<Option<bool>, PlaceError>)
        requires
            old(self).wf(),
            !exit_at(old(self).spec_board(), old(self).spec_pig()),
        ensures
            final(self).wf(),
            final(self).spec_keys() == old(self).spec_keys(),
            final(self).spec_free_blocks() >= 0,
            p@ == old(self).spec_pig() ==> r == Err::<Option<bool>, PlaceError>(
                PlaceError::PigInTheWay,
            ) && state_eq(*final(self), *old(self)),
            p@ != old(self).spec_pig() && !old(self).spec_board().dom().contains(p@) ==> r
                == Err::<Option<bool>, PlaceError>(PlaceError::NotOnBoard) && state_eq(
                *final(self),
                *old(self),
            ),
            p@ != old(self).spec_pig() && old(self).spec_board().dom().contains(p@) && !old(
                self,
            ).spec_board()[p@].spec_passable() ==> r == Err::<Option<bool>, PlaceError>(
                PlaceError::AlreadyBlocked,
            ) && state_eq(*final(self), *old(self)),
            p@ != old(self).spec_pig() && old(self).spec_board().dom().contains(p@) && old(
                self,
            ).spec_board()[p@].spec_passable() ==> {
                &&& final(self).spec_board() == old(self).spec_board().insert(
                    p@,
                    ClassicTile::Block,
                )
                &&& old(self).spec_free_blocks() > 0 ==> r == Ok::<Option<bool>, PlaceError>(None)
                    && final(self).spec_pig() == old(self).spec_pig() && final(self).spec_free_blocks() == old(self).spec_free_blocks() - 1
                &&& old(self).spec_free_blocks() == 0 ==> final(self).spec_free_blocks() == 0 && {
                    let m2 = old(self).spec_board().insert(p@, ClassicTile::Block);
                    let s = old(self).spec_pig();
                    &&& enclosed(m2, s) ==> r == Ok::<Option<bool>, PlaceError>(Some(true))
                        && final(self).spec_pig() == s
                    &&& !enclosed(m2, s) ==> (exists|ds: Seq<HexDirection>|
                        #[trigger] chosen_escape(m2, s, ds) && ds.len() >= 1 && final(self).spec_pig() == spec_neighbor(s, ds[0])) && (exit_at(
                        m2,
                        final(self).spec_pig(),
                    ) ==> r == Ok::<Option<bool>, PlaceError>(Some(false))) && (!exit_at(
                        m2,
                        final(self).spec_pig(),
                    ) ==> r == Ok::<Option<bool>, PlaceError>(None))
                }
            },
    {
        let pig_pos = self.pig.position();
        if pig_pos == p {
            Err(PlaceError::PigInTheWay)
        } else {
            let placed = self.board.place(p, ClassicTile::Block);
            match placed {
                Err(e) => Err(e),
                Ok(()) => {
                    proof {
                        assert(self.board@.dom() =~= old(self).spec_board().dom());
                        assert(!exit_at(self.board@, self.pig.position@));
                    }
                    if self.free_blocks > 0 {
                        self.free_blocks = self.free_blocks - 1;
                        Ok(None)
                    } else {
                        let ghost m2 = self.board@;
                        let ghost s = self.pig.position@;
                        proof {
                            assert forall|q: (int, int)| m2.dom().contains(q) implies can_step(
                                q,
                            ) by {
                                assert(old(self).spec_board().dom().contains(q));
                                assert(in_coord_limit(q));
                            }
                            assert(can_step(s));
                        }
                        let moved = self.pig.move_pig(&self.board);
                        match moved {
                            Option::None => Ok(Some(true)),
                            Option::Some(_q) => {
                                proof {
                                    let ds = choose|ds: Seq<HexDirection>|
                                        #[trigger] shortest_escape(m2, s, ds) && ds.len() >= 1
                                            && self.pig.position@ == spec_neighbor(s, ds[0]);
                                    lemma_route_passable_take(m2, s, ds, 1);
                                    lemma_route_end_take(s, ds, 0);
                                    assert(route_end(s, ds.take(0)) == s);
                                    assert(passable_at(m2, route_end(s, ds.take(1))));
                                    assert(route_end(s, ds.take(1)) == spec_neighbor(s, ds[0]));
                                    assert(m2.dom().contains(self.pig.position@));
                                }
                                let t = self.board.get_tile(self.pig.position());
                                let over = match &t {
                                    Option::Some(tt) => tt.is_exit(),
                                    Option::None => false,
                                };
                                if over {
                                    Ok(Some(false))
                                } else {
                                    Ok(None)
                                }
                            },
                        }
                    }
                }
            }
        }
    }
}

/// At the end of a level every non-exit endpoint of a clear walk of
/// exactly `k` steps has been visited: its predecessor was visited a
/// level earlier, so the endpoint was either visited already or waited in
/// this level's frontier and has now been processed.
proof fn lemma_level_step(
    m: Map<(int, int), ClassicTile>,
    s: (int, int),
    frontier0: Seq<(HexPosn, Vec<(HexDirection, HexPosn)>)>,
    seen0: Seq<HexPosn>,
    seen: Seq<HexPosn>,
    ds: Seq<HexDirection>,
    k: int,
)
    requires
        !exit_at(m, s),
        0 <= k,
        k == 0 ==> frontier0.len() > 0 && seen0.len() == 0,
        frontier_ok(m, s, frontier0, k),
        seen0.len() <= seen.len(),
        forall|t: int| 0 <= t < seen0.len() ==> seen[t] == (#[trigger] seen0[t]),
        closure_ok(m, frontier0, seen0),
        reached_ok(m, s, seen0, k),
        forall|j: int|
            0 <= j < frontier0.len() && !exit_at(m, (#[trigger] frontier0[j]).0@) ==> in_seen(
                seen,
                frontier0[j].0@,
            ),
        route_passable(m, s, ds),
        route_clear(m, s, ds),
        ds.len() == k,
        !exit_at(m, route_end(s, ds)),
    ensures
        in_seen(seen, route_end(s, ds)),
{
    if k == 0 {
        assert(route_end(s, ds) == s);
        assert(frontier0[0].1@.len() == 0);
        assert(dirs_of(frontier0[0].1@).len() == 0);
        assert(frontier0[0].0@ == route_end(s, dirs_of(frontier0[0].1@)));
        assert(frontier0[0].0@ == s);
        assert(in_seen(seen, s));
    } else {
        let pre = ds.take(k - 1);
        lemma_route_passable_take(m, s, ds, k - 1);
        lemma_route_clear_take(m, s, ds, k - 1);
        assert(!exit_at(m, route_end(s, pre))) by {
            if k - 1 == 0 {
                assert(route_end(s, pre) == s);
            }
        };
        let q = route_end(s, pre);
        assert(in_seen(seen0, q));
        lemma_route_end_take(s, ds, k - 1);
        assert(ds.take(k) =~= ds);
        let e = route_end(s, ds);
        assert(e == spec_neighbor(q, ds[k - 1]));
        assert(passable_at(m, e));
        assert(in_seen(seen0, e) || in_frontier(frontier0, e));
        if in_seen(seen0, e) {
            let t = choose|t: int| 0 <= t < seen0.len() && (#[trigger] seen0[t])@ == e;
            assert(seen[t]@ == e);
        } else {
            let j = choose|j: int| 0 <= j < frontier0.len() && (#[trigger] frontier0[j]).0@ == e;
            assert(in_seen(seen, e));
        }
    }
}

/// If a clear escape route of exactly `k` steps existed, its exit waited
/// in this level's frontier, so a candidate was recorded while the level
/// was drained.
proof fn lemma_exit_found(
    m: Map<(int, int), ClassicTile>,
    s: (int, int),
    frontier0: Seq<(HexPosn, Vec<(HexDirection, HexPosn)>)>,
    seen0: Seq<HexPosn>,
    candidates: Seq<Vec<(HexDirection, HexPosn)>>,
    seen: Seq<HexPosn>,
    ds: Seq<HexDirection>,
    k: int,
)
    requires
        !exit_at(m, s),
        0 <= k,
        closure_ok(m, frontier0, seen0),
        reached_ok(m, s, seen0, k),
        seen_ok(m, s, seen0),
        forall|j: int|
            0 <= j < frontier0.len() && exit_at(m, (#[trigger] frontier0[j]).0@) ==>
                candidates.len() >= 1,
        clear_escape_route(m, s, ds),
        ds.len() == k,
    ensures
        candidates.len() >= 1,
{
    let e = route_end(s, ds);
    if k == 0 {
        assert(e == s);
    } else {
        let pre = ds.take(k - 1);
        lemma_route_passable_take(m, s, ds, k - 1);
        lemma_route_clear_take(m, s, ds, k - 1);
        assert(!exit_at(m, route_end(s, pre))) by {
            if k - 1 == 0 {
                assert(route_end(s, pre) == s);
            }
        };
        let q = route_end(s, pre);
        assert(in_seen(seen0, q));
        lemma_route_end_take(s, ds, k - 1);
        assert(ds.take(k) =~= ds);
        assert(e == spec_neighbor(q, ds[k - 1]));
        assert(passable_at(m, e)) by {
            assert(m[e].spec_exit());
        };
        assert(in_seen(seen0, e) || in_frontier(frontier0, e));
        if in_seen(seen0, e) {
            let t = choose|t: int| 0 <= t < seen0.len() && (#[trigger] seen0[t])@ == e;
            assert(!exit_at(m, seen0[t]@));
        } else {
            let j = choose|j: int| 0 <= j < frontier0.len() && (#[trigger] frontier0[j]).0@ == e;
        }
    }
}

/// When the frontier has run empty without a candidate, the visited set
/// is closed under passable steps, so no clear escape route can exist.
proof fn lemma_closed_world(
    m: Map<(int, int), ClassicTile>,
    s: (int, int),
    frontier: Seq<(HexPosn, Vec<(HexDirection, HexPosn)>)>,
    seen: Seq<HexPosn>,
    cs: Seq<HexDirection>,
)
    requires
        !exit_at(m, s),
        frontier.len() == 0,
        seen_ok(m, s, seen),
        closure_ok(m, frontier, seen),
        in_seen(seen, s),
    ensures
        !clear_escape_route(m, s, cs),
{
    if clear_escape_route(m, s, cs) {
        let e = route_end(s, cs);
        if cs.len() == 0 {
            assert(e == s);
        } else {
            let pre = cs.take(cs.len() - 1);
            lemma_route_passable_take(m, s, cs, cs.len() - 1);
            lemma_route_clear_take(m, s, cs, cs.len() - 1);
            assert(!exit_at(m, route_end(s, pre))) by {
                if cs.len() - 1 == 0 {
                    assert(route_end(s, pre) == s);
                }
            };
            lemma_reaches_seen(m, s, frontier, seen, pre);
            let q = route_end(s, pre);
            lemma_route_end_take(s, cs, cs.len() - 1);
            assert(cs.take(cs.len() as int) =~= cs);
            assert(e == spec_neighbor(q, cs[cs.len() - 1]));
            assert(passable_at(m, e));
            assert(in_seen(seen, e) || in_frontier(frontier, e));
            let t = choose|t: int| 0 <= t < seen.len() && (#[trigger] seen[t])@ == e;
            assert(!exit_at(m, seen[t]@));
        }
    }
}

/// With an empty frontier, every non-exit endpoint of a clear passable
/// walk from the start has been visited.
proof fn lemma_reaches_seen(
    m: Map<(int, int), ClassicTile>,
    s: (int, int),
    frontier: Seq<(HexPosn, Vec<(HexDirection, HexPosn)>)>,
    seen: Seq<HexPosn>,
    ds: Seq<HexDirection>,
)
    requires
        !exit_at(m, s),
        frontier.len() == 0,
        seen_ok(m, s, seen),
        closure_ok(m, frontier, seen),
        in_seen(seen, s),
        route_passable(m, s, ds),
        route_clear(m, s, ds),
        !exit_at(m, route_end(s, ds)),
    ensures
        in_seen(seen, route_end(s, ds)),
    decreases ds.len(),
{
    if ds.len() == 0 {
    } else {
        let pre = ds.drop_last();
        assert(ds.take(ds.len() - 1) =~= pre);
        lemma_route_clear_take(m, s, ds, ds.len() - 1);
        assert(!exit_at(m, route_end(s, pre))) by {
            if ds.len() - 1 == 0 {
                assert(route_end(s, pre) == s);
            } else {
                assert(!exit_at(m, route_end(s, ds.take(ds.len() - 1))));
            }
        };
        lemma_reaches_seen(m, s, frontier, seen, pre);
        let q = route_end(s, pre);
        assert(route_end(s, ds) == spec_neighbor(q, ds.last()));
        assert(passable_at(m, route_end(s, ds)));
        assert(in_seen(seen, route_end(s, ds)) || in_frontier(frontier, route_end(s, ds)));
    }
}

/// The visited positions all lie on the board or are the start, and are
/// distinct, so there are at most one more of them than the board has
/// tiles.
proof fn lemma_seen_card(m: Map<(int, int), ClassicTile>, s: (int, int), seen: Seq<HexPosn>)
    requires
        seen_ok(m, s, seen),
        m.dom().finite(),
    ensures
        seen.len() <= m.dom().len() + 1,
{
    let mapped = seen.map_values(|q: HexPosn| q@);
    mapped.unique_seq_to_set();
    assert forall|p: (int, int)| mapped.to_set().contains(p) implies m.dom().insert(s).contains(
        p,
    ) by {
        assert(mapped.contains(p));
        let t = choose|t: int| 0 <= t < mapped.len() && mapped[t] == p;
        assert(seen[t]@ == p);
        assert(seen[t]@ == s || passable_at(m, seen[t]@));
    };
    assert(mapped.to_set().subset_of(m.dom().insert(s)));
    vstd::set_lib::lemma_len_subset(mapped.to_set(), m.dom().insert(s));
    if m.dom().contains(s) {
        assert(m.dom().insert(s) =~= m.dom());
    } else {
        assert(m.dom().insert(s).len() == m.dom().len() + 1);
    }
}

} // verus!
