//! How the edges divide among the workers: each edge belongs to the worker
//! that owns its source, and to no other.

use crate::graphmap::{edges_from, Graph};
use crate::operator::edges_upto;
use crate::sorting::{with_key, with_key_push, Edge};
use crate::transpose::by_destination;
use vstd::arithmetic::div_mod::lemma_fundamental_div_mod;
use vstd::multiset::Multiset;
use vstd::prelude::*;
use vstd::seq_lib::to_multiset_build;

verus! {

/// The edges of `s` whose source worker `w` of `peers` owns, in order.
pub open spec fn owned(s: Seq<Edge>, peers: int, w: int) -> Seq<Edge>
    decreases s.len(),
{
    if s.len() == 0 {
        s
    } else {
        let rest = owned(s.drop_last(), peers, w);
        if s.last().0 as int % peers == w {
            rest.push(s.last())
        } else {
            rest
        }
    }
}

/// The edges that end at `d` in the groups of the first `n` workers.
pub open spec fn fan_in(s: Seq<Edge>, peers: int, d: u32, n: int) -> Multiset<Edge>
    decreases n,
{
    if n <= 0 {
        Multiset::empty()
    } else {
        fan_in(s, peers, d, n - 1).add(
            with_key(owned(s, peers, n - 1), by_destination(), d).to_multiset(),
        )
    }
}

proof fn fan_in_push(s: Seq<Edge>, e: Edge, peers: int, d: u32, n: int)
    requires
        peers > 0,
    ensures
        fan_in(s.push(e), peers, d, n) == if e.1 == d && e.0 as int % peers < n {
            fan_in(s, peers, d, n).insert(e)
        } else {
            fan_in(s, peers, d, n)
        },
    decreases n,
{
    if n > 0 {
        fan_in_push(s, e, peers, d, n - 1);
        assert(s.push(e).drop_last() =~= s);
        let mine = owned(s, peers, n - 1);
        with_key_push(mine, e, by_destination(), d);
        to_multiset_build(with_key(mine, by_destination(), d), e);
        let goal = if e.1 == d && e.0 as int % peers < n {
            fan_in(s, peers, d, n).insert(e)
        } else {
            fan_in(s, peers, d, n)
        };
        assert(fan_in(s.push(e), peers, d, n) =~= goal);
    }
}

proof fn fan_in_of_nothing(peers: int, d: u32, n: int)
    ensures
        fan_in(Seq::<Edge>::empty(), peers, d, n) == Multiset::<Edge>::empty(),
    decreases n,
{
    if n > 0 {
        fan_in_of_nothing(peers, d, n - 1);
        let none = Seq::<Edge>::empty();
        assert(with_key(owned(none, peers, n - 1), by_destination(), d) =~= none);
        none.to_multiset_ensures();
        assert(fan_in(none, peers, d, n) =~= Multiset::<Edge>::empty());
    }
}

/// However many workers share the edges, a destination gets one term for
/// each edge that ends at it: the groups that the workers hold for it,
/// taken together, are the edges of the whole graph that end there.
pub proof fn partition_invariance(s: Seq<Edge>, peers: int, d: u32)
    requires
        peers > 0,
    ensures
        fan_in(s, peers, d, peers) == with_key(s, by_destination(), d).to_multiset(),
        fan_in(s, 1, d, 1) == fan_in(s, peers, d, peers),
{
    all_workers_cover(s, peers, d);
    all_workers_cover(s, 1, d);
}

proof fn all_workers_cover(s: Seq<Edge>, peers: int, d: u32)
    requires
        peers > 0,
    ensures
        fan_in(s, peers, d, peers) == with_key(s, by_destination(), d).to_multiset(),
    decreases s.len(),
{
    if s.len() == 0 {
        fan_in_of_nothing(peers, d, peers);
        assert(s =~= Seq::<Edge>::empty());
        s.to_multiset_ensures();
        assert(with_key(s, by_destination(), d).to_multiset() =~= Multiset::<Edge>::empty());
    } else {
        let t = s.drop_last();
        let e = s.last();
        assert(t.push(e) =~= s);
        all_workers_cover(t, peers, d);
        fan_in_push(t, e, peers, d, peers);
        with_key_push(t, e, by_destination(), d);
        to_multiset_build(with_key(t, by_destination(), d), e);
    }
}

/// The worker that owns a node and the local index it keeps it at give the
/// node back.
pub proof fn local_index_names_the_node(node: u32, peers: int)
    requires
        peers > 0,
    ensures
        (node as int / peers) * peers + node as int % peers == node,
        0 <= node as int % peers < peers,
{
    lemma_fundamental_div_mod(node as int, peers);
    assert(peers * (node as int / peers) == (node as int / peers) * peers) by (nonlinear_arith);
}

proof fn owned_add(a: Seq<Edge>, b: Seq<Edge>, peers: int, w: int)
    ensures
        owned(a + b, peers, w) == owned(a, peers, w) + owned(b, peers, w),
    decreases b.len(),
{
    if b.len() == 0 {
        assert(a + b =~= a);
        assert(owned(a, peers, w) + owned(b, peers, w) =~= owned(a, peers, w));
    } else {
        let e = b.last();
        assert((a + b).drop_last() =~= a + b.drop_last());
        owned_add(a, b.drop_last(), peers, w);
        let x = owned(a, peers, w);
        let y = owned(b.drop_last(), peers, w);
        assert((x + y).push(e) =~= x + y.push(e));
    }
}

/// The edges that leave one node belong to one worker, all of them.
proof fn owned_edges_from(node: int, list: Seq<u32>, peers: int, w: int)
    requires
        peers > 0,
        0 <= node <= u32::MAX,
    ensures
        owned(edges_from(node, list), peers, w) == if node % peers == w {
            edges_from(node, list)
        } else {
            Seq::empty()
        },
    decreases list.len(),
{
    let all = edges_from(node, list);
    if list.len() > 0 {
        owned_edges_from(node, list.drop_last(), peers, w);
        assert(all.drop_last() =~= edges_from(node, list.drop_last()));
        assert(all.last().0 == node);
        assert(all.drop_last().push(all.last()) =~= all);
    } else {
        assert(all =~= Seq::<Edge>::empty());
    }
}

/// The edges that a worker introduces are the edges of the graph that it
/// owns: what one worker alone would introduce, cut down to the sources
/// with `source % peers == w`.
pub proof fn workers_share_the_graph<G: Graph>(graph: &G, peers: int, w: int, n: int)
    requires
        peers > 0,
        0 <= n <= 0x1_0000_0000,
    ensures
        edges_upto(graph, peers, w, n) == owned(edges_upto(graph, 1, 0, n), peers, w),
    decreases n,
{
    if n > 0 {
        workers_share_the_graph(graph, peers, w, n - 1);
        let here = edges_from(n - 1, graph.adjacent(n - 1));
        owned_add(edges_upto(graph, 1, 0, n - 1), here, peers, w);
        owned_edges_from(n - 1, graph.adjacent(n - 1), peers, w);
    }
}

} // verus!
