//! Read access to a graph: the stored offsets and targets arrays, and
//! adjacency lists held in memory.

use crate::encode::{
    count_upto, count_upto_bounds, max_id, offsets_of, sorted_by_source, targets_of,
};
use crate::sorting::Edge;
use crate::typedrw::{
    decode_u32s, decode_u64s, u32s_le, u32s_of_le, u32s_round_trip, u64s_le, u64s_of_le,
    u64s_round_trip,
};
use vstd::prelude::*;
use vstd::slice::slice_subrange;

verus! {

/// A directed graph on the nodes `0 .. nodes()`.
pub trait Graph {
    /// The number of nodes.
    spec fn node_count(&self) -> nat;

    /// The destinations of the edges that leave `node`; none for a node the
    /// graph does not have.
    spec fn adjacent(&self, node: int) -> Seq<u32>;

    fn nodes(&self) -> (n: usize)
        ensures
            n == self.node_count(),
    ;

    fn edges(&self, node: usize) -> (list: &[u32])
        ensures
            list@ == self.adjacent(node as int),
    ;
}

/// The adjacency of `node` in the stored format: the targets from the
/// previous node's offset up to its own. It is empty for a node beyond the
/// offsets, and where the offsets do not bound a range of the targets.
pub open spec fn adjacency(offsets: Seq<u64>, targets: Seq<u32>, node: int) -> Seq<u32> {
    if 0 <= node < offsets.len() {
        let start = if node == 0 {
            0
        } else {
            offsets[node - 1] as int
        };
        let limit = offsets[node] as int;
        if start <= limit <= targets.len() {
            targets.subrange(start, limit)
        } else {
            Seq::empty()
        }
    } else {
        Seq::empty()
    }
}

/// A graph in the stored format, read from the contents of its two files.
pub struct GraphMMap {
    nodes: Vec<u64>,
    edges: Vec<u32>,
}

impl GraphMMap {
    /// The offsets array.
    pub closed spec fn offsets(&self) -> Seq<u64> {
        self.nodes@
    }

    /// The targets array.
    pub closed spec fn targets(&self) -> Seq<u32> {
        self.edges@
    }

    /// Reads a graph from the bytes of its offsets file and of its targets
    /// file.
    pub fn new(offsets: &[u8], targets: &[u8]) -> (graph: GraphMMap)
        ensures
            graph.offsets() == u64s_of_le(offsets@),
            graph.targets() == u32s_of_le(targets@),
    {
        GraphMMap { nodes: decode_u64s(offsets), edges: decode_u32s(targets) }
    }
}

impl Graph for GraphMMap {
    open spec fn node_count(&self) -> nat {
        self.offsets().len()
    }

    open spec fn adjacent(&self, node: int) -> Seq<u32> {
        adjacency(self.offsets(), self.targets(), node)
    }

    fn nodes(&self) -> (n: usize) {
        self.nodes.len()
    }

    fn edges(&self, node: usize) -> (list: &[u32]) {
        let all: &[u32] = self.edges.as_slice();
        if node < self.nodes.len() {
            let start: u64 = if node == 0 {
                0
            } else {
                self.nodes[node - 1]
            };
            let limit: u64 = self.nodes[node];
            if start <= limit && limit <= all.len() as u64 {
                return slice_subrange(all, start as usize, limit as usize);
            }
        }
        let none: &[u32] = slice_subrange(all, 0, 0);
        assert(none@ =~= Seq::<u32>::empty());
        none
    }
}

/// A graph held in memory as one list of destinations for each node.
pub struct MemoryGraph(Vec<Vec<u32>>);

impl MemoryGraph {
    /// The adjacency lists, node by node.
    pub closed spec fn lists(&self) -> Seq<Vec<u32>> {
        self.0@
    }

    /// The graph whose node `i` has the edges to `lists[i]`.
    pub fn new(lists: Vec<Vec<u32>>) -> (graph: MemoryGraph)
        ensures
            graph.lists() == lists@,
    {
        MemoryGraph(lists)
    }
}

impl Graph for MemoryGraph {
    open spec fn node_count(&self) -> nat {
        self.lists().len()
    }

    open spec fn adjacent(&self, node: int) -> Seq<u32> {
        if 0 <= node < self.lists().len() {
            self.lists()[node]@
        } else {
            Seq::empty()
        }
    }

    fn nodes(&self) -> (n: usize) {
        self.0.len()
    }

    fn edges(&self, node: usize) -> (list: &[u32]) {
        if node < self.0.len() {
            self.0[node].as_slice()
        } else {
            let none: &[u32] = &[];
            assert(none@ =~= Seq::<u32>::empty());
            none
        }
    }
}

/// The edges that leave `node`, as pairs, for the destinations `list`.
pub open spec fn edges_from(node: int, list: Seq<u32>) -> Seq<Edge> {
    Seq::new(list.len(), |t: int| (node as u32, list[t]))
}

/// The edges of the first `n` nodes of a stored graph, read node by node.
pub open spec fn read_back(offsets: Seq<u64>, targets: Seq<u32>, n: int) -> Seq<Edge>
    decreases n,
{
    if n <= 0 {
        Seq::empty()
    } else {
        read_back(offsets, targets, n - 1) + edges_from(n - 1, adjacency(offsets, targets, n - 1))
    }
}

/// In a list in order of source, the edges with a source up to `i` are the
/// first `count_upto(s, i)`.
proof fn count_upto_boundary(s: Seq<Edge>, i: int)
    requires
        sorted_by_source(s),
    ensures
        forall|t: int| 0 <= t < s.len() ==> (t < count_upto(s, i) <==> (#[trigger] s[t]).0 <= i),
    decreases s.len(),
{
    if s.len() > 0 {
        let r = s.drop_last();
        assert forall|a: int, b: int| 0 <= a <= b < r.len() implies (#[trigger] r[a]).0 <= (
        #[trigger] r[b]).0 by {
            assert(r[a] == s[a] && r[b] == s[b]);
        }
        count_upto_boundary(r, i);
        count_upto_bounds(r, i);
        count_upto_bounds(s, i);
        assert forall|t: int| 0 <= t < s.len() implies (t < count_upto(s, i) <==> (#[trigger] s[t]).0
            <= i) by {
            if t < r.len() {
                assert(r[t] == s[t]);
                assert(s[t].0 <= s[s.len() - 1].0);
            }
        }
    }
}

proof fn read_back_prefix(s: Seq<Edge>, n: int)
    requires
        sorted_by_source(s),
        s.len() <= u64::MAX,
        0 <= n <= max_id(s) + 1,
    ensures
        0 <= count_upto(s, n - 1) <= s.len(),
        read_back(offsets_of(s), targets_of(s), n) == s.take(count_upto(s, n - 1)),
    decreases n,
{
    let offsets = offsets_of(s);
    let targets = targets_of(s);
    count_upto_bounds(s, n - 1);
    count_upto_boundary(s, n - 1);
    if n == 0 {
        if count_upto(s, -1) > 0 {
            assert(s[0].0 <= -1);
        }
        assert(s.take(0) =~= Seq::<Edge>::empty());
    } else {
        read_back_prefix(s, n - 1);
        count_upto_boundary(s, n - 2);
        count_upto_bounds(s, n - 2);
        let start = count_upto(s, n - 2);
        let limit = count_upto(s, n - 1);
        if start > limit {
            assert(s[limit].0 <= n - 2);
        }
        if n == 1 && start > 0 {
            assert(s[0].0 <= -1);
        }
        assert(offsets.len() == max_id(s) + 1);
        assert(offsets[n - 1] == count_upto(s, n - 1) as u64);
        assert(targets.len() == s.len());
        assert(adjacency(offsets, targets, n - 1) == targets.subrange(start, limit));
        let here = edges_from(n - 1, targets.subrange(start, limit));
        count_upto_bounds(s, 0);
        assert forall|t: int| 0 <= t < here.len() implies here[t] == s[start + t] by {
            assert(s[start + t].0 == n - 1);
        }
        assert(s.take(start) + here =~= s.take(limit));
    }
}

/// Edges in order of source, written in the graph format and read back node
/// by node, are the edges that were written: every node in increasing order,
/// and the destinations of each in the order they had.
pub proof fn encode_round_trip(s: Seq<Edge>)
    requires
        sorted_by_source(s),
        s.len() <= usize::MAX,
    ensures
        u64s_of_le(u64s_le(offsets_of(s))).len() == max_id(s) + 1,
        read_back(
            u64s_of_le(u64s_le(offsets_of(s))),
            u32s_of_le(u32s_le(targets_of(s))),
            max_id(s) + 1,
        ) == s,
{
    u64s_round_trip(offsets_of(s));
    u32s_round_trip(targets_of(s));
    count_upto_bounds(s, max_id(s));
    read_back_prefix(s, max_id(s) + 1);
    assert(s.take(s.len() as int) =~= s);
}

} // verus!
