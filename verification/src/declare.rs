//! What a list of registered migrations declares: which identities are
//! registered, which migration depends on which, and whether the
//! declarations can be built into an acyclic graph.
//!
//! Migrations are numbered by their place in the list. Migration `b`
//! declares a dependency on migration `a` where it names the identity of `a`
//! among its dependencies; the graph then gets an edge from `a` to `b`.

use crate::migration::Migration;
use crate::reach::{acyclic, included, is_walk, linked, reaches, walk_between};
use vstd::prelude::*;

verus! {

/// A migration with this identity is in the list.
pub open spec fn registered<I, M: Migration<I>>(units: Seq<M>, id: I) -> bool {
    exists|u: usize| u < units.len() && (#[trigger] units[u as int]).ident() == id
}

/// The number of the migration with this identity.
pub open spec fn index_of<I, M: Migration<I>>(units: Seq<M>, id: I) -> usize {
    choose|u: usize| u < units.len() && (#[trigger] units[u as int]).ident() == id
}

/// No two migrations of the list have the same identity.
pub open spec fn distinct_ids<I, M: Migration<I>>(units: Seq<M>) -> bool {
    forall|u: int, v: int|
        0 <= u < v < units.len() ==> (#[trigger] units[u]).ident() != (#[trigger] units[v]).ident()
}

/// Migration `b` names migration `a` among its dependencies.
pub open spec fn declares<I, M: Migration<I>>(units: Seq<M>, a: usize, b: usize) -> bool {
    &&& a < units.len()
    &&& b < units.len()
    &&& units[b as int].depends_on().contains(units[a as int].ident())
}

/// Every identity that a migration names as a dependency is registered.
pub open spec fn resolvable<I, M: Migration<I>>(units: Seq<M>) -> bool {
    forall|u: int, d: I|
        0 <= u < units.len() && #[trigger] units[u].depends_on().contains(d) ==> registered(
            units,
            d,
        )
}

/// `p` is a chain of migrations in which each is a declared dependency of
/// the next.
pub open spec fn declared_walk<I, M: Migration<I>>(units: Seq<M>, p: Seq<usize>) -> bool {
    &&& p.len() > 0
    &&& forall|k: int| 0 <= k < p.len() - 1 ==> #[trigger] declares(units, p[k], p[k + 1])
}

/// Some migration depends on itself through one or more declared
/// dependencies.
pub open spec fn cyclic<I, M: Migration<I>>(units: Seq<M>) -> bool {
    exists|p: Seq<usize>| #[trigger] declared_walk(units, p) && p.len() > 1 && p[0] == p[p.len() - 1]
}

/// Every edge is a declared dependency.
pub open spec fn all_declared<I, M: Migration<I>>(units: Seq<M>, edges: Seq<(usize, usize)>) -> bool {
    forall|k: int| 0 <= k < edges.len() ==> declares(units, (#[trigger] edges[k]).0, edges[k].1)
}

/// Every declared dependency is an edge.
pub open spec fn complete<I, M: Migration<I>>(units: Seq<M>, edges: Seq<(usize, usize)>) -> bool {
    forall|a: usize, b: usize| #[trigger] declares(units, a, b) ==> edges.contains((a, b))
}

/// A registered identity is that of the migration under its number.
pub proof fn lemma_index_of<I, M: Migration<I>>(units: Seq<M>, id: I)
    requires
        registered(units, id),
    ensures
        index_of(units, id) < units.len(),
        units[index_of(units, id) as int].ident() == id,
{
}

/// With distinct identities, the number found for a migration's identity is
/// that migration's number.
pub proof fn lemma_index_of_unit<I, M: Migration<I>>(units: Seq<M>, u: usize)
    requires
        distinct_ids(units),
        u < units.len(),
    ensures
        registered(units, units[u as int].ident()),
        index_of(units, units[u as int].ident()) == u,
{
    let id = units[u as int].ident();
    assert(units[u as int].ident() == id);
    let v = index_of(units, id);
    if v < u {
        assert(units[v as int].ident() != units[u as int].ident());
    }
    if u < v {
        assert(units[u as int].ident() != units[v as int].ident());
    }
}

/// A walk along edges that are all declared is a chain of declared
/// dependencies.
pub proof fn lemma_walk_declared<I, M: Migration<I>>(
    units: Seq<M>,
    edges: Seq<(usize, usize)>,
    p: Seq<usize>,
)
    requires
        all_declared(units, edges),
        is_walk(edges, p),
    ensures
        declared_walk(units, p),
{
    assert forall|k: int| 0 <= k < p.len() - 1 implies #[trigger] declares(units, p[k], p[k + 1]) by {
        assert(linked(edges, p, k));
        let at = choose|at: int| 0 <= at < edges.len() && edges[at] == (p[k], p[k + 1]);
        assert(declares(units, edges[at].0, edges[at].1));
    }
}

/// A chain of declared dependencies is a walk along the edges, once every
/// declared dependency is an edge.
pub proof fn lemma_declared_walk<I, M: Migration<I>>(
    units: Seq<M>,
    edges: Seq<(usize, usize)>,
    p: Seq<usize>,
)
    requires
        complete(units, edges),
        declared_walk(units, p),
    ensures
        is_walk(edges, p),
{
    assert forall|k: int| 0 <= k < p.len() - 1 implies #[trigger] linked(edges, p, k) by {
        assert(declares(units, p[k], p[k + 1]));
    }
}

/// Once every declared dependency is an edge of an acyclic graph, the
/// declarations hold no cycle.
pub proof fn lemma_complete_not_cyclic<I, M: Migration<I>>(
    units: Seq<M>,
    edges: Seq<(usize, usize)>,
)
    requires
        acyclic(edges),
        complete(units, edges),
    ensures
        !cyclic(units),
{
    if cyclic(units) {
        let p = choose|p: Seq<usize>| #[trigger]
            declared_walk(units, p) && p.len() > 1 && p[0] == p[p.len() - 1];
        lemma_declared_walk(units, edges, p);
    }
}

/// A declared dependency of `b` on `a`, where `a` already depends on `b`
/// through declared edges, is a cycle in the declarations.
pub proof fn lemma_return_is_cyclic<I, M: Migration<I>>(
    units: Seq<M>,
    edges: Seq<(usize, usize)>,
    a: usize,
    b: usize,
)
    requires
        all_declared(units, edges),
        declares(units, a, b),
        reaches(edges, b, a),
    ensures
        cyclic(units),
{
    let p = choose|p: Seq<usize>| walk_between(edges, p, b, a);
    let q = p.push(b);
    lemma_walk_declared(units, edges, p);
    assert forall|k: int| 0 <= k < q.len() - 1 implies #[trigger] declares(units, q[k], q[k + 1]) by {
        if k < p.len() - 1 {
            assert(declares(units, p[k], p[k + 1]));
        }
    }
    assert(declared_walk(units, q) && q.len() > 1 && q[0] == q[q.len() - 1]);
}

/// Adding an edge for a declared dependency that was not an edge before
/// keeps every edge declared and present once, and keeps what was there.
pub proof fn lemma_edge_added<I, M: Migration<I>>(
    units: Seq<M>,
    built: Seq<(usize, usize)>,
    a: usize,
    b: usize,
)
    requires
        all_declared(units, built),
        built.no_duplicates(),
        declares(units, a, b),
        !built.contains((a, b)),
    ensures
        all_declared(units, built.push((a, b))),
        built.push((a, b)).no_duplicates(),
        included(built, built.push((a, b))),
{
    let edges = built.push((a, b));
    assert forall|k: int| 0 <= k < edges.len() implies declares(
        units,
        (#[trigger] edges[k]).0,
        edges[k].1,
    ) by {
        if k < built.len() {
            assert(edges[k] == built[k]);
        }
    }
    assert forall|i: int, j: int| 0 <= i < edges.len() && 0 <= j < edges.len() && i != j implies edges[i]
        != edges[j] by {
        if i < built.len() && j < built.len() {
            assert(built[i] != built[j]);
        } else if i < built.len() {
            assert(built[i] == edges[i]);
        } else if j < built.len() {
            assert(built[j] == edges[j]);
        }
    }
    assert forall|e: (usize, usize)| built.contains(e) implies edges.contains(e) by {
        let k = choose|k: int| 0 <= k < built.len() && built[k] == e;
        assert(edges[k] == e);
    }
}

/// One more migration at the end of the list changes nothing for the
/// migrations and the edges that were there.
pub proof fn lemma_unit_added<I, M: Migration<I>>(
    units: Seq<M>,
    edges: Seq<(usize, usize)>,
    unit: M,
)
    requires
        all_declared(units, edges),
        distinct_ids(units),
        !registered(units, unit.ident()),
        units.len() < usize::MAX,
    ensures
        all_declared(units.push(unit), edges),
        distinct_ids(units.push(unit)),
        forall|id: I|
            registered(units.push(unit), id) <==> registered(units, id) || id == unit.ident(),
{
    let more = units.push(unit);
    assert forall|k: int| 0 <= k < edges.len() implies declares(
        more,
        (#[trigger] edges[k]).0,
        edges[k].1,
    ) by {
        assert(declares(units, edges[k].0, edges[k].1));
    }
    assert forall|u: int, v: int| 0 <= u < v < more.len() implies (#[trigger] more[u]).ident() != (
    #[trigger] more[v]).ident() by {
        if v < units.len() {
            assert(units[u].ident() != units[v].ident());
        } else {
            let w = u as usize;
            assert(units[w as int].ident() == more[u].ident());
        }
    }
    assert forall|id: I| registered(more, id) <==> registered(units, id) || id == unit.ident() by {
        if registered(more, id) {
            let u = choose|u: usize| u < more.len() && (#[trigger] more[u as int]).ident() == id;
            if u < units.len() {
                assert(units[u as int].ident() == id);
            }
        }
        if registered(units, id) {
            let u = choose|u: usize| u < units.len() && (#[trigger] units[u as int]).ident() == id;
            assert(more[u as int].ident() == id);
        }
        if id == unit.ident() {
            let u = units.len() as usize;
            assert(more[u as int].ident() == id);
        }
    }
}

} // verus!
