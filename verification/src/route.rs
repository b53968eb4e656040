//! The mathematical model of escape routes: walks across passable tiles
//! that end on an exit. The pig's pathfinding is specified against this
//! model.

use vstd::prelude::*;

use crate::board::ClassicTile;
use crate::posn::HexDirection;
use crate::posn::spec_neighbor;

verus! {

/// The position reached from `s` after following the directions of `ds`.
pub open spec fn route_end(s: (int, int), ds: Seq<HexDirection>) -> (int, int)
    decreases ds.len(),
{
    if ds.len() == 0 {
        s
    } else {
        spec_neighbor(route_end(s, ds.drop_last()), ds.last())
    }
}

/// There is a tile at `p` and the pig can stand on it.
pub open spec fn passable_at(m: Map<(int, int), ClassicTile>, p: (int, int)) -> bool {
    m.dom().contains(p) && m[p].spec_passable()
}

/// There is a tile at `p` and the pig escapes from it.
pub open spec fn exit_at(m: Map<(int, int), ClassicTile>, p: (int, int)) -> bool {
    m.dom().contains(p) && m[p].spec_exit()
}

/// Every position the walk reaches after leaving `s` is a passable tile of
/// the board.
pub open spec fn route_passable(
    m: Map<(int, int), ClassicTile>,
    s: (int, int),
    ds: Seq<HexDirection>,
) -> bool
    decreases ds.len(),
{
    if ds.len() == 0 {
        true
    } else {
        route_passable(m, s, ds.drop_last()) && passable_at(m, route_end(s, ds))
    }
}

/// No position strictly inside the walk is an exit; only the endpoint may
/// be one.
pub open spec fn route_clear(
    m: Map<(int, int), ClassicTile>,
    s: (int, int),
    ds: Seq<HexDirection>,
) -> bool {
    forall|i: int| 0 < i < ds.len() ==> !exit_at(m, #[trigger] route_end(s, ds.take(i)))
}

/// A walk from `s` across passable tiles that ends on an exit.
pub open spec fn escape_route(
    m: Map<(int, int), ClassicTile>,
    s: (int, int),
    ds: Seq<HexDirection>,
) -> bool {
    route_passable(m, s, ds) && exit_at(m, route_end(s, ds))
}

/// An escape route that reaches its exit without crossing another exit.
pub open spec fn clear_escape_route(
    m: Map<(int, int), ClassicTile>,
    s: (int, int),
    ds: Seq<HexDirection>,
) -> bool {
    escape_route(m, s, ds) && route_clear(m, s, ds)
}

/// No escape route from `s` is shorter than `n` steps.
pub open spec fn no_escape_below(m: Map<(int, int), ClassicTile>, s: (int, int), n: int) -> bool {
    forall|ds: Seq<HexDirection>| ds.len() < n ==> !#[trigger] escape_route(m, s, ds)
}

/// No clear escape route from `s` is shorter than `n` steps.
pub open spec fn no_clear_escape_below(
    m: Map<(int, int), ClassicTile>,
    s: (int, int),
    n: int,
) -> bool {
    forall|ds: Seq<HexDirection>| ds.len() < n ==> !#[trigger] clear_escape_route(m, s, ds)
}

/// The pig is enclosed: no escape route leaves `s` at all.
pub open spec fn enclosed(m: Map<(int, int), ClassicTile>, s: (int, int)) -> bool {
    forall|ds: Seq<HexDirection>| !#[trigger] escape_route(m, s, ds)
}

/// An escape route that no strictly shorter escape route undercuts.
pub open spec fn shortest_escape(
    m: Map<(int, int), ClassicTile>,
    s: (int, int),
    ds: Seq<HexDirection>,
) -> bool {
    escape_route(m, s, ds) && no_escape_below(m, s, ds.len() as int)
}

/// The exit `e` can be reached from `s`.
pub open spec fn reachable_exit(
    m: Map<(int, int), ClassicTile>,
    s: (int, int),
    e: (int, int),
) -> bool {
    exists|ds: Seq<HexDirection>| #[trigger] escape_route(m, s, ds) && route_end(s, ds) == e
}

/// Extending a walk by one step moves its endpoint to the neighbor taken.
pub proof fn lemma_route_end_push(s: (int, int), ds: Seq<HexDirection>, d: HexDirection)
    ensures
        route_end(s, ds.push(d)) == spec_neighbor(route_end(s, ds), d),
{
    assert(ds.push(d).drop_last() =~= ds);
}

/// A prefix of a walk ends where its last kept step leads.
pub proof fn lemma_route_end_take(s: (int, int), ds: Seq<HexDirection>, i: int)
    requires
        0 <= i < ds.len(),
    ensures
        route_end(s, ds.take(i + 1)) == spec_neighbor(route_end(s, ds.take(i)), ds[i]),
{
    assert(ds.take(i + 1).drop_last() =~= ds.take(i));
    assert(ds.take(i + 1).last() == ds[i]);
}

/// A prefix of a passable walk is a passable walk.
pub proof fn lemma_route_passable_take(
    m: Map<(int, int), ClassicTile>,
    s: (int, int),
    ds: Seq<HexDirection>,
    i: int,
)
    requires
        route_passable(m, s, ds),
        0 <= i <= ds.len(),
    ensures
        route_passable(m, s, ds.take(i)),
    decreases ds.len(),
{
    if i == ds.len() {
        assert(ds.take(i) =~= ds);
    } else {
        assert(ds.drop_last().take(i) =~= ds.take(i));
        lemma_route_passable_take(m, s, ds.drop_last(), i);
    }
}

/// A prefix of a clear walk is a clear walk.
pub proof fn lemma_route_clear_take(
    m: Map<(int, int), ClassicTile>,
    s: (int, int),
    ds: Seq<HexDirection>,
    i: int,
)
    requires
        route_clear(m, s, ds),
        0 <= i <= ds.len(),
    ensures
        route_clear(m, s, ds.take(i)),
{
    assert forall|j: int| 0 < j < ds.take(i).len() implies !exit_at(
        m,
        #[trigger] route_end(s, ds.take(i).take(j)),
    ) by {
        assert(ds.take(i).take(j) =~= ds.take(j));
    }
}

/// Wherever some escape route exists, a clear one exists that is no
/// longer: cutting an escape route at the first exit it crosses leaves a
/// clear escape route.
pub proof fn lemma_escape_has_clear(
    m: Map<(int, int), ClassicTile>,
    s: (int, int),
    ds: Seq<HexDirection>,
)
    requires
        escape_route(m, s, ds),
    ensures
        exists|cs: Seq<HexDirection>| #[trigger] clear_escape_route(m, s, cs) && cs.len()
            <= ds.len(),
    decreases ds.len(),
{
    if route_clear(m, s, ds) {
        assert(clear_escape_route(m, s, ds) && ds.len() <= ds.len());
    } else {
        let i = choose|i: int| 0 < i < ds.len() && exit_at(m, #[trigger] route_end(s, ds.take(i)));
        lemma_route_passable_take(m, s, ds, i);
        assert(escape_route(m, s, ds.take(i)));
        lemma_escape_has_clear(m, s, ds.take(i));
        let cs = choose|cs: Seq<HexDirection>| #[trigger] clear_escape_route(m, s, cs) && cs.len()
            <= ds.take(i).len();
        assert(clear_escape_route(m, s, cs) && cs.len() <= ds.len());
    }
}

/// Wherever no clear escape route shorter than `n` exists, no escape
/// route shorter than `n` exists at all.
pub proof fn lemma_no_clear_escape_below(m: Map<(int, int), ClassicTile>, s: (int, int), n: int)
    requires
        no_clear_escape_below(m, s, n),
    ensures
        no_escape_below(m, s, n),
{
    assert forall|ds: Seq<HexDirection>| ds.len() < n implies !#[trigger] escape_route(
        m,
        s,
        ds,
    ) by {
        if escape_route(m, s, ds) {
            lemma_escape_has_clear(m, s, ds);
        }
    }
}

/// If exactly one exit is reachable from `s`, then every escape route
/// from `s` — whatever tie-break selected it — ends at that exit.
pub proof fn lemma_single_exit_route(
    m: Map<(int, int), ClassicTile>,
    s: (int, int),
    e: (int, int),
    ds: Seq<HexDirection>,
)
    requires
        escape_route(m, s, ds),
        reachable_exit(m, s, e),
        forall|e2: (int, int)| #[trigger] reachable_exit(m, s, e2) ==> e2 == e,
    ensures
        route_end(s, ds) == e,
{
    assert(reachable_exit(m, s, route_end(s, ds)));
}

} // verus!
