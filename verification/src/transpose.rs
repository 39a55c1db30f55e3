//! The local transpose: from a worker's edges to the out-degrees of its
//! sources and the edges regrouped by destination.

use crate::encode::max_id;
use crate::sorting::{
    flat, flat_prefix, flat_take, keyed_by, radix_sort_32, sorted_by_key, sorted_is_ordered,
    sorted_is_permutation, sorted_is_stable, with_key, with_key_bound, with_key_prefix,
    with_key_push, Edge,
};
use vstd::arithmetic::div_mod::lemma_div_is_ordered;
use vstd::pervasive::unreached;
use vstd::prelude::*;

verus! {

/// The key that the transpose sorts by: an edge's destination.
pub open spec fn by_destination() -> spec_fn(Edge) -> u32 {
    |e: Edge| e.1
}

/// How many edges of `s` start at a node whose local index is `i`.
pub open spec fn out_degree(s: Seq<Edge>, peers: int, i: int) -> int
    decreases s.len(),
{
    if s.len() == 0 {
        0
    } else {
        out_degree(s.drop_last(), peers, i) + if s.last().0 as int / peers == i {
            1int
        } else {
            0int
        }
    }
}

/// How many edges of `s` end at `d`.
pub open spec fn in_degree(s: Seq<Edge>, d: u32) -> int {
    with_key(s, by_destination(), d).len() as int
}

/// One more than the largest local index of a source of `s`; 0 without edges.
spec fn source_reach(s: Seq<Edge>, peers: int) -> int
    decreases s.len(),
{
    if s.len() == 0 {
        0
    } else {
        let before = source_reach(s.drop_last(), peers);
        let here = s.last().0 as int / peers + 1;
        if before < here {
            here
        } else {
            before
        }
    }
}

/// The length of the degree vector: one slot more than `nodes / peers`, and
/// no less than it takes to hold the local index `id / peers` of every id
/// that occurs in `s`, as a source or as a destination.
pub open spec fn degree_len(s: Seq<Edge>, peers: int, nodes: int) -> int {
    let base = 1 + nodes / peers;
    let top = max_id(s) / peers + 1;
    if base >= top {
        base
    } else {
        top
    }
}

/// No counter overflows: no local source has more than `u32::MAX` edges out,
/// and no destination more than `u32::MAX` edges in.
pub open spec fn counts_fit(s: Seq<Edge>, peers: int) -> bool {
    &&& forall|i: int| #[trigger] out_degree(s, peers, i) <= u32::MAX
    &&& forall|d: u32| #[trigger] in_degree(s, d) <= u32::MAX
}

/// The sum of the counts of a list of `(destination, count)` groups.
pub open spec fn total(rev: Seq<(u32, u32)>) -> int
    decreases rev.len(),
{
    if rev.len() == 0 {
        0
    } else {
        total(rev.drop_last()) + rev.last().1 as int
    }
}

/// `rev` has a group for destination `d`.
pub open spec fn has_group(rev: Seq<(u32, u32)>, d: u32) -> bool {
    exists|g: int| 0 <= g < rev.len() && (#[trigger] rev[g]).0 == d
}

/// `rev` lists the destinations of `s`, each once and in increasing order,
/// with the number of edges that end there.
pub open spec fn is_reverse_index(rev: Seq<(u32, u32)>, s: Seq<Edge>) -> bool {
    &&& forall|a: int, b: int| 0 <= a < b < rev.len() ==> (#[trigger] rev[a]).0 < (#[trigger] rev[b]).0
    &&& forall|g: int|
        0 <= g < rev.len() ==> (#[trigger] rev[g]).1 >= 1 && rev[g].1 as int == in_degree(
            s,
            rev[g].0,
        )
    &&& forall|t: int| 0 <= t < s.len() ==> has_group(rev, (#[trigger] s[t]).1)
}

/// The local index of the source of each edge of `s`, in the order of `s`.
pub open spec fn local_sources(s: Seq<Edge>, peers: int) -> Seq<u32> {
    Seq::new(s.len(), |t: int| (s[t].0 as int / peers) as u32)
}

/// Where the sources of group `g` start in `trn`: after those of the groups
/// before it.
pub open spec fn group_start(rev: Seq<(u32, u32)>, g: int) -> int {
    total(rev.take(g))
}

/// The part of `trn` that belongs to group `g`.
pub open spec fn group_sources(rev: Seq<(u32, u32)>, trn: Seq<u32>, g: int) -> Seq<u32> {
    trn.subrange(group_start(rev, g), group_start(rev, g) + rev[g].1)
}

/// Each group's part of `trn` holds the local sources of the edges of `s`
/// that end at the group's destination, in the order they have in `s`.
pub open spec fn groups_list_sources(
    rev: Seq<(u32, u32)>,
    trn: Seq<u32>,
    s: Seq<Edge>,
    peers: int,
) -> bool {
    forall|g: int|
        0 <= g < rev.len() ==> #[trigger] group_sources(rev, trn, g) == local_sources(
            with_key(s, by_destination(), rev[g].0),
            peers,
        )
}

/// The groups lie one after the other in `trn`, within the total.
pub proof fn group_ranges(rev: Seq<(u32, u32)>, g: int)
    requires
        0 <= g < rev.len(),
    ensures
        0 <= group_start(rev, g),
        group_start(rev, g + 1) == group_start(rev, g) + rev[g].1,
        group_start(rev, g + 1) <= total(rev),
        group_start(rev, rev.len() as int) == total(rev),
    decreases rev.len() - g,
{
    assert(rev.take(g + 1).drop_last() =~= rev.take(g));
    assert(rev.take(rev.len() as int) =~= rev);
    total_nonnegative(rev.take(g));
    if g + 1 < rev.len() {
        group_ranges(rev, g + 1);
    }
}

proof fn total_nonnegative(rev: Seq<(u32, u32)>)
    ensures
        total(rev) >= 0,
    decreases rev.len(),
{
    if rev.len() > 0 {
        total_nonnegative(rev.drop_last());
    }
}

/// No slot beyond the reach of the sources counts an edge, and no slot counts
/// more edges than there are.
proof fn out_degree_bounds(s: Seq<Edge>, peers: int, i: int)
    ensures
        0 <= out_degree(s, peers, i) <= s.len(),
        i >= source_reach(s, peers) ==> out_degree(s, peers, i) == 0,
    decreases s.len(),
{
    if s.len() > 0 {
        out_degree_bounds(s.drop_last(), peers, i);
    }
}

/// A prefix counts no more edges in a slot than the whole.
proof fn out_degree_prefix(s: Seq<Edge>, n: int, peers: int, i: int)
    requires
        0 <= n <= s.len(),
    ensures
        out_degree(s.take(n), peers, i) <= out_degree(s, peers, i),
    decreases s.len(),
{
    if n == s.len() {
        assert(s.take(n) =~= s);
    } else {
        out_degree_prefix(s.drop_last(), n, peers, i);
        assert(s.drop_last().take(n) =~= s.take(n));
    }
}

/// The slots that hold every id hold every source.
proof fn reach_within_ids(s: Seq<Edge>, peers: int)
    requires
        peers > 0,
    ensures
        0 <= source_reach(s, peers) <= max_id(s) / peers + 1,
        0 <= max_id(s),
    decreases s.len(),
{
    if s.len() > 0 {
        let r = s.drop_last();
        reach_within_ids(r, peers);
        lemma_div_is_ordered(max_id(r), max_id(s), peers);
        lemma_div_is_ordered(s.last().0 as int, max_id(s), peers);
        lemma_div_is_ordered(0, s.last().0 as int, peers);
    } else {
        assert(0int / peers == 0) by (nonlinear_arith)
            requires
                peers > 0,
        ;
    }
}

/// Every source lies within the reach of the sources.
proof fn source_within_reach(s: Seq<Edge>, peers: int, t: int)
    requires
        0 <= t < s.len(),
        peers > 0,
    ensures
        0 <= s[t].0 as int / peers < source_reach(s, peers),
    decreases s.len(),
{
    if t < s.len() - 1 {
        source_within_reach(s.drop_last(), peers, t);
    }
}

/// What one more edge at the end does to the groups of a sequence in order
/// of destination: it joins the last group or opens a new one.
proof fn reverse_index_step(rev: Seq<(u32, u32)>, q: Seq<Edge>, e: Edge) -> (next: Seq<(u32, u32)>)
    requires
        is_reverse_index(rev, q),
        total(rev) == q.len(),
        q.len() > 0 ==> rev.len() > 0 && rev.last().0 == q.last().1,
        forall|t: int| 0 <= t < q.len() ==> (#[trigger] q[t]).1 <= e.1,
        rev.len() > 0 && rev.last().0 == e.1 ==> rev.last().1 < u32::MAX,
    ensures
        next == if rev.len() == 0 || rev.last().0 < e.1 {
            rev.push((e.1, 1u32))
        } else {
            rev.update(rev.len() - 1, (rev.last().0, (rev.last().1 + 1) as u32))
        },
        is_reverse_index(next, q.push(e)),
        total(next) == q.len() + 1,
        next.len() > 0 && next.last().0 == e.1,
{
    let key = by_destination();
    let q1 = q.push(e);
    if rev.len() > 0 && q.len() > 0 {
        assert(q[q.len() - 1].1 <= e.1);
    }
    if rev.len() == 0 || rev.last().0 < e.1 {
        let next = rev.push((e.1, 1u32));
        assert(next.drop_last() =~= rev);
        assert forall|t: int| 0 <= t < q.len() implies key(#[trigger] q[t]) != e.1 by {
            assert(has_group(rev, q[t].1));
            let g = choose|g: int| 0 <= g < rev.len() && (#[trigger] rev[g]).0 == q[t].1;
            if g < rev.len() - 1 {
                assert(rev[g].0 < rev[rev.len() - 1].0);
            }
        }
        with_key_bound(q, key, e.1);
        assert forall|g: int| 0 <= g < next.len() implies (#[trigger] next[g]).1 >= 1 && next[g].1 as int
            == in_degree(q1, next[g].0) by {
            with_key_push(q, e, key, next[g].0);
            if g < rev.len() {
                assert(next[g] == rev[g]);
                if g < rev.len() - 1 {
                    assert(rev[g].0 < rev[rev.len() - 1].0);
                }
            }
        }
        assert forall|t: int| 0 <= t < q1.len() implies has_group(next, (#[trigger] q1[t]).1) by {
            if t < q.len() {
                assert(has_group(rev, q[t].1));
                let g = choose|g: int| 0 <= g < rev.len() && (#[trigger] rev[g]).0 == q[t].1;
                assert(next[g] == rev[g]);
            } else {
                assert(next[next.len() - 1].0 == q1[t].1);
            }
        }
        assert forall|a: int, b: int| 0 <= a < b < next.len() implies (#[trigger] next[a]).0 < (#[trigger] next[b]).0 by {
            if b < rev.len() {
                assert(next[a] == rev[a] && next[b] == rev[b]);
            } else if a < rev.len() - 1 {
                assert(rev[a].0 < rev[rev.len() - 1].0);
            }
        }
        next
    } else {
        let last = rev.len() - 1;
        let next = rev.update(last, (rev.last().0, (rev.last().1 + 1) as u32));
        assert(q.len() > 0);
        assert(q[q.len() - 1].1 <= e.1);
        assert(rev.last().0 == e.1);
        assert(next.drop_last() =~= rev.drop_last());
        assert forall|g: int| 0 <= g < next.len() implies (#[trigger] next[g]).1 >= 1 && next[g].1 as int
            == in_degree(q1, next[g].0) by {
            with_key_push(q, e, key, next[g].0);
            if g < last {
                assert(next[g] == rev[g]);
                assert(rev[g].0 < rev[last].0);
            }
        }
        assert forall|t: int| 0 <= t < q1.len() implies has_group(next, (#[trigger] q1[t]).1) by {
            if t < q.len() {
                assert(has_group(rev, q[t].1));
                let g = choose|g: int| 0 <= g < rev.len() && (#[trigger] rev[g]).0 == q[t].1;
                assert(next[g].0 == rev[g].0);
            } else {
                assert(next[last].0 == q1[t].1);
            }
        }
        assert forall|a: int, b: int| 0 <= a < b < next.len() implies (#[trigger] next[a]).0 < (#[trigger] next[b]).0 by {
            assert(next[a].0 == rev[a].0 && next[b].0 == rev[b].0);
        }
        next
    }
}

/// What one more edge at the end does to the groups' parts of `trn`: its
/// local source joins the last group's.
proof fn group_sources_step(
    rev: Seq<(u32, u32)>,
    trn: Seq<u32>,
    q: Seq<Edge>,
    e: Edge,
    peers: int,
    next: Seq<(u32, u32)>,
)
    requires
        peers > 0,
        is_reverse_index(rev, q),
        total(rev) == q.len(),
        trn.len() == q.len(),
        q.len() > 0 ==> rev.len() > 0 && rev.last().0 == q.last().1,
        forall|t: int| 0 <= t < q.len() ==> (#[trigger] q[t]).1 <= e.1,
        rev.len() > 0 && rev.last().0 == e.1 ==> rev.last().1 < u32::MAX,
        groups_list_sources(rev, trn, q, peers),
        next == if rev.len() == 0 || rev.last().0 < e.1 {
            rev.push((e.1, 1u32))
        } else {
            rev.update(rev.len() - 1, (rev.last().0, (rev.last().1 + 1) as u32))
        },
    ensures
        groups_list_sources(next, trn.push((e.0 as int / peers) as u32), q.push(e), peers),
{
    let key = by_destination();
    let x = (e.0 as int / peers) as u32;
    let trn1 = trn.push(x);
    let q1 = q.push(e);
    let fresh = rev.len() == 0 || rev.last().0 < e.1;
    let last = next.len() - 1;
    if !fresh {
        assert(q[q.len() - 1].1 <= e.1);
        with_key_bound(q, key, rev.last().0);
    }
    assert forall|g: int| 0 <= g < next.len() implies #[trigger] group_sources(next, trn1, g)
        == local_sources(with_key(q1, key, next[g].0), peers) by {
        with_key_push(q, e, key, next[g].0);
        assert(next.take(g) =~= rev.take(g));
        if g < last {
            group_ranges(rev, g);
            assert(next[g] == rev[g]);
            if g < rev.len() - 1 {
                assert(rev[g].0 < rev[rev.len() - 1].0);
            }
            assert(rev[g].0 != e.1);
            assert(group_sources(next, trn1, g) =~= group_sources(rev, trn, g));
        } else if fresh {
            assert(rev.take(rev.len() as int) =~= rev);
            assert forall|t: int| 0 <= t < q.len() implies key(#[trigger] q[t]) != e.1 by {
                assert(has_group(rev, q[t].1));
                let h = choose|h: int| 0 <= h < rev.len() && (#[trigger] rev[h]).0 == q[t].1;
                if h < rev.len() - 1 {
                    assert(rev[h].0 < rev[rev.len() - 1].0);
                }
            }
            with_key_bound(q, key, e.1);
            assert(with_key(q1, key, e.1) =~= seq![e]);
            assert(group_sources(next, trn1, g) =~= seq![x]);
            assert(local_sources(seq![e], peers) =~= seq![x]);
        } else {
            group_ranges(rev, g);
            let part = with_key(q, key, e.1);
            assert(group_sources(next, trn1, g) =~= group_sources(rev, trn, g).push(x));
            assert(local_sources(part.push(e), peers) =~= local_sources(part, peers).push(x));
        }
    }
}

/// `deg` counts the sources of `p`: it has `base` slots or as many as the
/// sources need, and each slot holds its out-degree.
spec fn counted(deg: Seq<u32>, p: Seq<Edge>, peers: int, base: int) -> bool {
    &&& deg.len() == if base < source_reach(p, peers) {
        source_reach(p, peers)
    } else {
        base
    }
    &&& forall|i: int| 0 <= i < deg.len() ==> (#[trigger] deg[i]) as int == out_degree(p, peers, i)
}

/// `rev` and `trn` are what the edges `q`, which are in order of destination,
/// regroup to.
spec fn grouped(rev: Seq<(u32, u32)>, trn: Seq<u32>, q: Seq<Edge>, peers: int) -> bool {
    &&& is_reverse_index(rev, q)
    &&& total(rev) == q.len()
    &&& q.len() > 0 ==> rev.len() > 0 && rev.last().0 == q.last().1
    &&& trn == local_sources(q, peers)
    &&& groups_list_sources(rev, trn, q, peers)
}

/// What `transpose` makes of the edges `s`.
pub open spec fn is_transpose(
    s: Seq<Edge>,
    peers: int,
    nodes: int,
    deg: Seq<u32>,
    rev: Seq<(u32, u32)>,
    trn: Seq<u32>,
) -> bool {
    &&& deg.len() == degree_len(s, peers, nodes)
    &&& forall|i: int| 0 <= i < deg.len() ==> (#[trigger] deg[i]) as int == out_degree(s, peers, i)
    &&& is_reverse_index(rev, s)
    &&& total(rev) == s.len()
    &&& trn.len() == s.len()
    &&& trn == local_sources(sorted_by_key(s, by_destination()), peers)
    &&& groups_list_sources(rev, trn, s, peers)
    &&& forall|t: int| 0 <= t < trn.len() ==> #[trigger] trn[t] < deg.len()
}

/// What `transpose` returns is within its counters.
pub proof fn transposed_counts_fit(
    s: Seq<Edge>,
    peers: int,
    nodes: int,
    deg: Seq<u32>,
    rev: Seq<(u32, u32)>,
    trn: Seq<u32>,
)
    requires
        peers > 0,
        is_transpose(s, peers, nodes, deg, rev, trn),
    ensures
        counts_fit(s, peers),
{
    reach_within_ids(s, peers);
    assert forall|i: int| #[trigger] out_degree(s, peers, i) <= u32::MAX by {
        out_degree_bounds(s, peers, i);
        if 0 <= i < deg.len() {
            assert(deg[i] as int == out_degree(s, peers, i));
        } else if i < 0 {
            out_degree_below(s, peers, i);
        }
    }
    assert forall|d: u32| #[trigger] in_degree(s, d) <= u32::MAX by {
        if has_group(rev, d) {
            let g = choose|g: int| 0 <= g < rev.len() && (#[trigger] rev[g]).0 == d;
            assert(rev[g].1 as int == in_degree(s, d));
        } else {
            assert forall|t: int| 0 <= t < s.len() implies by_destination()(#[trigger] s[t])
                != d by {
                assert(has_group(rev, s[t].1));
            }
            with_key_bound(s, by_destination(), d);
        }
    }
}

/// No source has a local index below 0.
proof fn out_degree_below(s: Seq<Edge>, peers: int, i: int)
    requires
        peers > 0,
        i < 0,
    ensures
        out_degree(s, peers, i) == 0,
    decreases s.len(),
{
    if s.len() > 0 {
        out_degree_below(s.drop_last(), peers, i);
        lemma_div_is_ordered(0, s.last().0 as int, peers);
        assert(0int / peers == 0) by (nonlinear_arith)
            requires
                peers > 0,
        ;
    }
}

/// The sum of the slots of a degree vector.
pub open spec fn degree_sum(deg: Seq<u32>) -> int
    decreases deg.len(),
{
    if deg.len() == 0 {
        0
    } else {
        degree_sum(deg.drop_last()) + deg.last() as int
    }
}

/// How many edges of `s` the slots `0 .. n` count.
spec fn counted_upto(s: Seq<Edge>, peers: int, n: int) -> int
    decreases n,
{
    if n <= 0 {
        0
    } else {
        counted_upto(s, peers, n - 1) + out_degree(s, peers, n - 1)
    }
}

proof fn counted_push(s: Seq<Edge>, e: Edge, peers: int, n: int)
    ensures
        counted_upto(s.push(e), peers, n) == counted_upto(s, peers, n) + if 0 <= e.0 as int
            / peers < n {
            1int
        } else {
            0int
        },
    decreases n,
{
    if n > 0 {
        counted_push(s, e, peers, n - 1);
        assert(s.push(e).drop_last() =~= s);
    }
}

proof fn counted_all(s: Seq<Edge>, peers: int, n: int)
    requires
        peers > 0,
        n >= source_reach(s, peers),
    ensures
        counted_upto(s, peers, n) == s.len(),
    decreases s.len(),
{
    if s.len() == 0 {
        counted_none(peers, n);
        assert(s =~= Seq::<Edge>::empty());
    } else {
        let r = s.drop_last();
        let e = s.last();
        assert(r.push(e) =~= s);
        counted_all(r, peers, n);
        counted_push(r, e, peers, n);
        source_within_reach(s, peers, s.len() - 1);
    }
}

proof fn counted_none(peers: int, n: int)
    ensures
        counted_upto(Seq::<Edge>::empty(), peers, n) == 0,
    decreases n,
{
    if n > 0 {
        counted_none(peers, n - 1);
    }
}

proof fn sum_is_counted(deg: Seq<u32>, s: Seq<Edge>, peers: int, n: int)
    requires
        0 <= n <= deg.len(),
        forall|i: int| 0 <= i < deg.len() ==> (#[trigger] deg[i]) as int == out_degree(s, peers, i),
    ensures
        degree_sum(deg.take(n)) == counted_upto(s, peers, n),
    decreases n,
{
    if n > 0 {
        sum_is_counted(deg, s, peers, n - 1);
        assert(deg.take(n).drop_last() =~= deg.take(n - 1));
        assert(deg.take(n).last() == deg[n - 1]);
    }
}

/// Every edge is counted once among the out-degrees: the slots of `deg` add
/// up to the number of edges.
pub proof fn degrees_count_every_edge(
    s: Seq<Edge>,
    peers: int,
    nodes: int,
    deg: Seq<u32>,
    rev: Seq<(u32, u32)>,
    trn: Seq<u32>,
)
    requires
        peers > 0,
        is_transpose(s, peers, nodes, deg, rev, trn),
    ensures
        degree_sum(deg) == s.len(),
{
    reach_within_ids(s, peers);
    sum_is_counted(deg, s, peers, deg.len() as int);
    assert(deg.take(deg.len() as int) =~= deg);
    counted_all(s, peers, deg.len() as int);
}

/// The edges of `s` that do not end at `d`, in order.
spec fn without(s: Seq<Edge>, d: u32) -> Seq<Edge>
    decreases s.len(),
{
    if s.len() == 0 {
        s
    } else {
        let rest = without(s.drop_last(), d);
        if s.last().1 == d {
            rest
        } else {
            rest.push(s.last())
        }
    }
}

/// Taking out the edges to `d` takes out as many as end there, leaves the
/// edges to every other destination, and brings in none.
proof fn without_counts(s: Seq<Edge>, d: u32)
    ensures
        without(s, d).len() + in_degree(s, d) == s.len(),
        forall|c: u32| c != d ==> #[trigger] in_degree(without(s, d), c) == in_degree(s, c),
        forall|t: int|
            0 <= t < without(s, d).len() ==> (#[trigger] without(s, d)[t]).1 != d && s.contains(
                without(s, d)[t],
            ),
    decreases s.len(),
{
    let key = by_destination();
    if s.len() > 0 {
        let r = s.drop_last();
        let e = s.last();
        assert(r.push(e) =~= s);
        without_counts(r, d);
        with_key_push(r, e, key, d);
        assert forall|c: u32| c != d implies #[trigger] in_degree(without(s, d), c) == in_degree(
            s,
            c,
        ) by {
            assert(in_degree(without(r, d), c) == in_degree(r, c));
            with_key_push(r, e, key, c);
            if e.1 != d {
                with_key_push(without(r, d), e, key, c);
            }
        }
        assert forall|t: int| 0 <= t < without(s, d).len() implies (#[trigger] without(s, d)[t]).1
            != d && s.contains(without(s, d)[t]) by {
            if t < without(r, d).len() {
                let x = without(r, d)[t];
                assert(r.contains(x));
                let u = choose|u: int| 0 <= u < r.len() && r[u] == x;
                assert(s[u] == x);
            } else {
                assert(s[s.len() - 1] == e);
            }
        }
    }
}

/// A list of groups that names every destination of `s` once, with the
/// number of edges that end there, counts every edge once: the counts add up
/// to the number of edges, whatever that number is.
pub proof fn groups_count_every_edge(rev: Seq<(u32, u32)>, s: Seq<Edge>)
    requires
        is_reverse_index(rev, s),
    ensures
        total(rev) == s.len(),
    decreases rev.len(),
{
    if rev.len() == 0 {
        if s.len() > 0 {
            assert(has_group(rev, s[0].1));
        }
    } else {
        let last = rev.len() - 1;
        let d = rev[last].0;
        let front = rev.drop_last();
        let rest = without(s, d);
        without_counts(s, d);
        assert forall|g: int| 0 <= g < front.len() implies (#[trigger] front[g]).1 >= 1
            && front[g].1 as int == in_degree(rest, front[g].0) by {
            assert(front[g] == rev[g]);
            assert(rev[g].0 < rev[last].0);
            assert(in_degree(rest, rev[g].0) == in_degree(s, rev[g].0));
        }
        assert forall|t: int| 0 <= t < rest.len() implies has_group(front, (#[trigger] rest[t]).1) by {
            let x = rest[t];
            assert(s.contains(x));
            let u = choose|u: int| 0 <= u < s.len() && s[u] == x;
            assert(has_group(rev, s[u].1));
            let g = choose|g: int| 0 <= g < rev.len() && (#[trigger] rev[g]).0 == x.1;
            assert(front[g] == rev[g]);
        }
        assert forall|a: int, b: int| 0 <= a < b < front.len() implies (#[trigger] front[a]).0 < (
        #[trigger] front[b]).0 by {
            assert(front[a] == rev[a] && front[b] == rev[b]);
        }
        groups_count_every_edge(front, rest);
    }
}

/// Regroups a worker's edges by destination, if the counts fit their 32-bit
/// counters; `None` if a local source has more than `u32::MAX` edges out or
/// a destination more than `u32::MAX` edges in. See `transpose` for what is
/// returned.
pub fn try_transpose(edges: Vec<Vec<Edge>>, peers: usize, nodes: usize) -> (r: Option<
    (Vec<u32>, Vec<(u32, u32)>, Vec<u32>),
>)
    requires
        peers > 0,
        nodes / peers < usize::MAX,
    ensures
        r is Some <==> counts_fit(flat(edges@), peers as int),
        r matches Some(t) ==> is_transpose(
            flat(edges@),
            peers as int,
            nodes as int,
            t.0@,
            t.1@,
            t.2@,
        ),
{
    let ghost s = flat(edges@);
    let mut batches = edges;
    let base: usize = 1 + nodes / peers;
    let mut deg: Vec<u32> = Vec::new();
    while deg.len() < base
        invariant
            deg@.len() <= base,
            forall|i: int| 0 <= i < deg@.len() ==> #[trigger] deg@[i] == 0,
        decreases base - deg@.len(),
    {
        deg.push(0);
    }
    let mut max: u32 = 0;
    let mut i: usize = 0;
    proof {
        assert(batches@.take(0) =~= Seq::<Vec<Edge>>::empty());
    }
    while i < batches.len()
        invariant
            peers > 0,
            flat(batches@) == s,
            s == flat(edges@),
            i <= batches@.len(),
            counted(deg@, flat(batches@.take(i as int)), peers as int, base as int),
            max as int == max_id(flat(batches@.take(i as int))),
        decreases batches@.len() - i,
    {
        let mut j: usize = 0;
        proof {
            flat_take(batches@, i as int, 0);
        }
        while j < batches[i].len()
            invariant
                peers > 0,
                flat(batches@) == s,
                s == flat(edges@),
            s == flat(edges@),
                i < batches@.len(),
                j <= batches@[i as int]@.len(),
                counted(
                    deg@,
                    flat(batches@.take(i as int)) + batches@[i as int]@.take(j as int),
                    peers as int,
                    base as int,
                ),
                max as int == max_id(
                    flat(batches@.take(i as int)) + batches@[i as int]@.take(j as int),
                ),
            decreases batches@[i as int]@.len() - j,
        {
            let e: Edge = batches[i][j];
            let li: usize = e.0 as usize / peers;
            let ghost p = flat(batches@.take(i as int)) + batches@[i as int]@.take(j as int);
            let ghost d0 = deg@;
            while deg.len() <= li
                invariant
                    d0.len() <= deg@.len(),
                    deg@.len() <= d0.len() || deg@.len() <= li + 1,
                    forall|x: int| 0 <= x < d0.len() ==> #[trigger] deg@[x] == d0[x],
                    forall|x: int| d0.len() <= x < deg@.len() ==> #[trigger] deg@[x] == 0,
                decreases li + 1 - deg@.len(),
            {
                deg.push(0);
            }
            proof {
                flat_prefix(batches@, i as int, j as int + 1);
                flat_take(batches@, i as int, j as int);
                out_degree_bounds(p, peers as int, li as int);
                assert(p.push(e).drop_last() =~= p);
                out_degree_prefix(s, p.len() as int + 1, peers as int, li as int);
            }
            let ghost d1 = deg@;
            if deg[li] == u32::MAX {
                assert(out_degree(s, peers as int, li as int) > u32::MAX);
                return None;
            }
            deg[li] = deg[li] + 1;
            if max < e.0 {
                max = e.0;
            }
            if max < e.1 {
                max = e.1;
            }
            proof {
                assert forall|x: int| 0 <= x < deg@.len() implies (#[trigger] deg@[x]) as int
                    == out_degree(p.push(e), peers as int, x) by {
                    out_degree_bounds(p, peers as int, x);
                    if x != li {
                        assert(deg@[x] == d1[x]);
                    }
                    if x < d0.len() {
                        assert(d1[x] == d0[x]);
                    }
                }
            }
            j += 1;
        }
        proof {
            flat_take(batches@, i as int, j as int);
        }
        i += 1;
    }
    proof {
        assert(batches@.take(i as int) =~= batches@);
    }
    let by_dst = |e: &Edge| -> (k: u32)
        ensures
            k == e.1,
        { e.1 };
    let mut scratch: Vec<Vec<Edge>> = Vec::new();
    proof {
        assert(keyed_by(&by_dst, by_destination()));
    }
    radix_sort_32(&mut batches, &mut scratch, &by_dst);
    let ghost sorted = flat(batches@);
    proof {
        assert(sorted == sorted_by_key(s, by_destination()));
        sorted_is_ordered(s, by_destination());
        sorted_is_permutation(s, by_destination());
        assert(batches@.take(0) =~= Seq::<Vec<Edge>>::empty());
        assert(local_sources(Seq::<Edge>::empty(), peers as int) =~= Seq::<u32>::empty());
    }
    let mut rev: Vec<(u32, u32)> = Vec::new();
    let mut trn: Vec<u32> = Vec::new();
    i = 0;
    while i < batches.len()
        invariant
            peers > 0,
            flat(batches@) == sorted,
            sorted == sorted_by_key(s, by_destination()),
            s == flat(edges@),
            forall|a: int, b: int|
                0 <= a <= b < sorted.len() ==> (#[trigger] sorted[a]).1 <= (#[trigger] sorted[b]).1,
            i <= batches@.len(),
            grouped(rev@, trn@, flat(batches@.take(i as int)), peers as int),
        decreases batches@.len() - i,
    {
        let mut j: usize = 0;
        proof {
            flat_take(batches@, i as int, 0);
        }
        while j < batches[i].len()
            invariant
                peers > 0,
                flat(batches@) == sorted,
                sorted == sorted_by_key(s, by_destination()),
                s == flat(edges@),
            s == flat(edges@),
                forall|a: int, b: int|
                    0 <= a <= b < sorted.len() ==> (#[trigger] sorted[a]).1 <= (
                    #[trigger] sorted[b]).1,
                i < batches@.len(),
                j <= batches@[i as int]@.len(),
                grouped(
                    rev@,
                    trn@,
                    flat(batches@.take(i as int)) + batches@[i as int]@.take(j as int),
                    peers as int,
                ),
            decreases batches@[i as int]@.len() - j,
        {
            let e: Edge = batches[i][j];
            let ghost q = flat(batches@.take(i as int)) + batches@[i as int]@.take(j as int);
            proof {
                flat_prefix(batches@, i as int, j as int);
                flat_prefix(batches@, i as int, j as int + 1);
                flat_take(batches@, i as int, j as int);
                assert(q.push(e) == sorted.take(q.len() as int + 1));
                assert(sorted[q.len() as int] == q.push(e)[q.len() as int]);
                assert forall|t: int| 0 <= t < q.len() implies (#[trigger] q[t]).1 <= e.1 by {
                    assert(q[t] == sorted.take(q.len() as int)[t]);
                    assert(sorted[t].1 <= sorted[q.len() as int].1);
                }
                if q.len() > 0 {
                    assert(q[q.len() - 1].1 <= e.1);
                }
            }
            let n: usize = rev.len();
            if n == 0 || rev[n - 1].0 < e.1 {
                proof {
                    let next = reverse_index_step(rev@, q, e);
                    group_sources_step(rev@, trn@, q, e, peers as int, next);
                }
                rev.push((e.1, 1));
            } else {
                let group: (u32, u32) = rev[n - 1];
                if group.1 == u32::MAX {
                    proof {
                        with_key_push(q, e, by_destination(), e.1);
                        with_key_prefix(sorted, q.len() as int + 1, by_destination(), e.1);
                        sorted_is_stable(s, by_destination(), e.1);
                        assert(in_degree(s, e.1) > u32::MAX);
                    }
                    return None;
                }
                proof {
                    let next = reverse_index_step(rev@, q, e);
                    group_sources_step(rev@, trn@, q, e, peers as int, next);
                }
                rev[n - 1] = (group.0, group.1 + 1);
            }
            proof {
                assert(local_sources(q.push(e), peers as int) =~= local_sources(
                    q,
                    peers as int,
                ).push((e.0 as int / peers as int) as u32));
            }
            trn.push((e.0 as usize / peers) as u32);
            j += 1;
        }
        proof {
            flat_take(batches@, i as int, j as int);
        }
        i += 1;
    }
    let top: usize = max as usize / peers;
    let ghost d2 = deg@;
    while deg.len() <= top
        invariant
            d2.len() <= deg@.len(),
            deg@.len() <= d2.len() || deg@.len() <= top + 1,
            forall|x: int| 0 <= x < d2.len() ==> #[trigger] deg@[x] == d2[x],
            forall|x: int| d2.len() <= x < deg@.len() ==> #[trigger] deg@[x] == 0,
        decreases top + 1 - deg@.len(),
    {
        deg.push(0);
    }
    proof {
        assert(batches@.take(i as int) =~= batches@);
        reach_within_ids(s, peers as int);
        assert forall|x: int| 0 <= x < deg@.len() implies (#[trigger] deg@[x]) as int
            == out_degree(s, peers as int, x) by {
            out_degree_bounds(s, peers as int, x);
            if x < d2.len() {
                assert(deg@[x] == d2[x]);
            }
        }
        assert forall|g: int| 0 <= g < rev@.len() implies (#[trigger] rev@[g]).1 as int
            == in_degree(s, rev@[g].0) by {
            sorted_is_stable(s, by_destination(), rev@[g].0);
        }
        assert forall|g: int| 0 <= g < rev@.len() implies #[trigger] group_sources(rev@, trn@, g)
            == local_sources(with_key(s, by_destination(), rev@[g].0), peers as int) by {
            sorted_is_stable(s, by_destination(), rev@[g].0);
        }
        sorted_is_permutation(s, by_destination());
        s.to_multiset_ensures();
        sorted.to_multiset_ensures();
        assert forall|t: int| 0 <= t < s.len() implies has_group(rev@, (#[trigger] s[t]).1) by {
            assert(s.contains(s[t]));
            assert(s.to_multiset().count(s[t]) > 0);
            assert(sorted.to_multiset().count(s[t]) > 0);
            assert(sorted.contains(s[t]));
            let u = choose|u: int| 0 <= u < sorted.len() && sorted[u] == s[t];
            assert(has_group(rev@, sorted[u].1));
        }
        assert forall|t: int| 0 <= t < trn@.len() implies #[trigger] trn@[t] < deg@.len() by {
            assert(sorted.contains(sorted[t]));
            assert(sorted.to_multiset().count(sorted[t]) > 0);
            assert(s.contains(sorted[t]));
            let u = choose|u: int| 0 <= u < s.len() && s[u] == sorted[t];
            source_within_reach(s, peers as int, u);
        }
        transposed_counts_fit(s, peers as int, nodes as int, deg@, rev@, trn@);
    }
    Some((deg, rev, trn))
}

/// Regroups a worker's edges by destination. Returns the out-degree of each
/// local source (`deg`, indexed by `source / peers`), the destinations in
/// increasing order with the number of edges that end at each (`rev`), and
/// the local index `source / peers` of each edge's source, group after group
/// in the order of `rev` and within a group in the order the edges came
/// (`trn`). The counts are 32-bit: none may exceed `u32::MAX`.
pub fn transpose(edges: Vec<Vec<Edge>>, peers: usize, nodes: usize) -> (r: (
    Vec<u32>,
    Vec<(u32, u32)>,
    Vec<u32>,
))
    requires
        peers > 0,
        nodes / peers < usize::MAX,
        counts_fit(flat(edges@), peers as int),
    ensures
        is_transpose(flat(edges@), peers as int, nodes as int, r.0@, r.1@, r.2@),
{
    match try_transpose(edges, peers, nodes) {
        Some(r) => r,
        None => unreached(),
    }
}

} // verus!
