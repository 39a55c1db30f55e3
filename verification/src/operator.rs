//! The bookkeeping of one worker's PageRank operator: which edges it feeds
//! in, what it buffers, when it transposes, and which ranks each destination
//! sums. The ranks themselves are the caller's.

use crate::graphmap::{edges_from, Graph};
use crate::sorting::{with_key, Edge, SegmentList};
use crate::transpose::{
    by_destination, counts_fit, group_ranges, group_sources, group_start, is_transpose,
    local_sources, total, try_transpose,
};
use vstd::prelude::*;
use vstd::slice::slice_subrange;

verus! {

/// The edges of the first `n` nodes of `graph` that worker `index` of `peers`
/// owns: those of the nodes `v` with `v % peers == index`, node by node.
pub open spec fn edges_upto<G: Graph>(graph: &G, peers: int, index: int, n: int) -> Seq<Edge>
    decreases n,
{
    if n <= 0 {
        Seq::empty()
    } else {
        edges_upto(graph, peers, index, n - 1) + if (n - 1) % peers == index {
            edges_from(n - 1, graph.adjacent(n - 1))
        } else {
            Seq::empty()
        }
    }
}

/// The edges that worker `index` of `peers` introduces into the computation:
/// the edges of the nodes it owns, in increasing order of node.
pub fn local_edges<G: Graph>(graph: &G, peers: usize, index: usize) -> (edges: Vec<Edge>)
    requires
        peers > 0,
        graph.node_count() <= 0x1_0000_0000,
    ensures
        edges@ == edges_upto(graph, peers as int, index as int, graph.node_count() as int),
{
    let mut edges: Vec<Edge> = Vec::new();
    let n: usize = graph.nodes();
    let mut node: usize = 0;
    while node < n
        invariant
            peers > 0,
            n == graph.node_count(),
            n <= 0x1_0000_0000,
            node <= n,
            edges@ == edges_upto(graph, peers as int, index as int, node as int),
        decreases n - node,
    {
        if node % peers == index {
            let list: &[u32] = graph.edges(node);
            let ghost before = edges@;
            let mut k: usize = 0;
            while k < list.len()
                invariant
                    node < 0x1_0000_0000,
                    k <= list@.len(),
                    edges@ == before + edges_from(node as int, list@).take(k as int),
                decreases list@.len() - k,
            {
                edges.push((node as u32, list[k]));
                proof {
                    let all = edges_from(node as int, list@);
                    assert(before + all.take(k + 1) =~= (before + all.take(k as int)).push(
                        all[k as int],
                    ));
                }
                k += 1;
            }
            assert(edges@ =~= before + edges_from(node as int, list@));
        } else {
            assert(edges@ + Seq::<Edge>::empty() =~= edges@);
        }
        node += 1;
    }
    edges
}

/// Whether what is sent at superstep `time` goes round again: it arrives one
/// superstep later, and only the supersteps `0 .. iterations` are run.
pub fn feeds_back(time: usize, iterations: usize) -> (b: bool)
    ensures
        b == (time + 1 < iterations),
{
    time < usize::MAX && time + 1 < iterations
}

/// Where an operator stands.
#[derive(Clone, Copy, Debug, PartialEq, Eq, Structural)]
pub enum Phase {
    /// Before the first notification: edges are still coming in.
    Collecting,
    /// The edges are transposed; supersteps are under way.
    Propagating,
    /// The configured number of supersteps is done.
    Done,
}

/// What the caller has to do on a notification.
#[derive(Clone, Copy, Debug, PartialEq, Eq, Structural)]
pub enum Action {
    /// Set every rank to the teleport constant, then propagate.
    Start,
    /// Propagate the accumulated ranks.
    Step,
    /// Nothing.
    Idle,
    /// Give up: the edges have more than `u32::MAX` going out of one local
    /// source, or into one destination.
    Fail,
}

/// One worker's operator state, without the ranks.
pub struct Operator {
    peers: usize,
    nodes: usize,
    iterations: usize,
    phase: Phase,
    steps: usize,
    pending: SegmentList,
    deg: Vec<u32>,
    rev: Vec<(u32, u32)>,
    trn: Vec<u32>,
    starts: Vec<usize>,
    edges: Ghost<Seq<Edge>>,
}

impl Operator {
    /// The number of workers.
    pub closed spec fn peers(&self) -> int {
        self.peers as int
    }

    /// The number of nodes of the graph.
    pub closed spec fn nodes(&self) -> int {
        self.nodes as int
    }

    /// The number of supersteps to run.
    pub closed spec fn iterations(&self) -> int {
        self.iterations as int
    }

    pub closed spec fn phase(&self) -> Phase {
        self.phase
    }

    /// The number of supersteps notified so far.
    pub closed spec fn steps(&self) -> int {
        self.steps as int
    }

    /// The edges received and not yet transposed, in arrival order.
    pub closed spec fn pending(&self) -> Seq<Edge> {
        self.pending@
    }

    /// The edges that were transposed at the first notification.
    pub closed spec fn edges(&self) -> Seq<Edge> {
        self.edges@
    }

    /// The out-degree of each local source.
    pub closed spec fn deg(&self) -> Seq<u32> {
        self.deg@
    }

    /// The destinations, in increasing order, with their numbers of edges.
    pub closed spec fn rev(&self) -> Seq<(u32, u32)> {
        self.rev@
    }

    /// The local sources, group after group.
    pub closed spec fn trn(&self) -> Seq<u32> {
        self.trn@
    }

    /// The state is consistent: the phase fits the count of supersteps, and
    /// once the edges are transposed the three arrays are their transpose.
    pub closed spec fn wf(&self) -> bool {
        &&& self.peers > 0
        &&& self.nodes / self.peers < usize::MAX
        &&& self.pending.wf()
        &&& self.phase == Phase::Collecting ==> {
            &&& self.steps == 0
            &&& self.edges@ == Seq::<Edge>::empty()
            &&& self.deg@ == Seq::<u32>::empty()
            &&& self.rev@ == Seq::<(u32, u32)>::empty()
            &&& self.trn@ == Seq::<u32>::empty()
        }
        &&& self.phase == Phase::Propagating ==> 1 <= self.steps < self.iterations
        &&& self.phase == Phase::Done ==> 1 <= self.steps && self.steps >= self.iterations
        &&& self.phase != Phase::Collecting ==> {
            &&& is_transpose(
                self.edges@,
                self.peers as int,
                self.nodes as int,
                self.deg@,
                self.rev@,
                self.trn@,
            )
            &&& self.starts@.len() == self.rev@.len()
            &&& forall|g: int|
                0 <= g < self.rev@.len() ==> (#[trigger] self.starts@[g]) as int == group_start(
                    self.rev@,
                    g,
                )
        }
    }

    /// What a consistent state says to the outside.
    pub proof fn wf_means(&self)
        requires
            self.wf(),
        ensures
            self.peers() > 0,
            self.phase() == Phase::Collecting ==> {
                &&& self.steps() == 0
                &&& self.edges() == Seq::<Edge>::empty()
                &&& self.deg() == Seq::<u32>::empty()
                &&& self.rev() == Seq::<(u32, u32)>::empty()
                &&& self.trn() == Seq::<u32>::empty()
            },
            self.phase() == Phase::Propagating ==> 1 <= self.steps() < self.iterations(),
            self.phase() == Phase::Done ==> 1 <= self.steps() && self.steps() >= self.iterations(),
            self.phase() != Phase::Collecting ==> is_transpose(
                self.edges(),
                self.peers(),
                self.nodes(),
                self.deg(),
                self.rev(),
                self.trn(),
            ),
    {
    }

    /// An operator for one of `peers` workers on a graph of `nodes` nodes,
    /// to run `iterations` supersteps. It starts out collecting edges.
    pub fn new(peers: usize, nodes: usize, iterations: usize) -> (op: Operator)
        requires
            peers > 0,
            nodes / peers < usize::MAX,
        ensures
            op.wf(),
            op.peers() == peers,
            op.nodes() == nodes,
            op.iterations() == iterations,
            op.phase() == Phase::Collecting,
            op.steps() == 0,
            op.pending() == Seq::<Edge>::empty(),
            op.edges() == Seq::<Edge>::empty(),
            op.deg() == Seq::<u32>::empty(),
            op.rev() == Seq::<(u32, u32)>::empty(),
            op.trn() == Seq::<u32>::empty(),
    {
        Operator {
            peers,
            nodes,
            iterations,
            phase: Phase::Collecting,
            steps: 0,
            pending: SegmentList::new(1024),
            deg: Vec::new(),
            rev: Vec::new(),
            trn: Vec::new(),
            starts: Vec::new(),
            edges: Ghost(Seq::empty()),
        }
    }

    /// Edge intake: buffers a batch of edges behind those already there.
    pub fn receive_edges(&mut self, batch: &[Edge])
        requires
            old(self).wf(),
        ensures
            final(self).wf(),
            final(self).pending() == old(self).pending() + batch@,
            final(self).peers() == old(self).peers(),
            final(self).nodes() == old(self).nodes(),
            final(self).iterations() == old(self).iterations(),
            final(self).phase() == old(self).phase(),
            final(self).steps() == old(self).steps(),
            final(self).edges() == old(self).edges(),
            final(self).deg() == old(self).deg(),
            final(self).rev() == old(self).rev(),
            final(self).trn() == old(self).trn(),
    {
        self.pending.push(batch);
    }

    /// A superstep is complete. At the first notification the buffered edges
    /// are transposed and the caller starts; at later ones it steps; once
    /// `iterations` supersteps have been notified the operator is done, and
    /// further notifications change nothing. Where the buffered edges do not
    /// fit the 32-bit counters they are dropped, and the caller gives up.
    pub fn notify(&mut self) -> (action: Action)
        requires
            old(self).wf(),
        ensures
            final(self).wf(),
            final(self).peers() == old(self).peers(),
            final(self).nodes() == old(self).nodes(),
            final(self).iterations() == old(self).iterations(),
            action == match old(self).phase() {
                Phase::Collecting => if counts_fit(old(self).pending(), old(self).peers()) {
                    Action::Start
                } else {
                    Action::Fail
                },
                Phase::Propagating => Action::Step,
                Phase::Done => Action::Idle,
            },
            final(self).steps() == if action == Action::Start || action == Action::Step {
                old(self).steps() + 1
            } else {
                old(self).steps()
            },
            final(self).phase() == if action == Action::Fail {
                Phase::Collecting
            } else if final(self).steps() >= final(self).iterations() {
                Phase::Done
            } else {
                Phase::Propagating
            },
            old(self).phase() == Phase::Collecting ==> {
                &&& final(self).pending() == Seq::<Edge>::empty()
                &&& action == Action::Start ==> final(self).edges() == old(self).pending()
            },
            old(self).phase() != Phase::Collecting ==> {
                &&& final(self).edges() == old(self).edges()
                &&& final(self).pending() == old(self).pending()
                &&& final(self).deg() == old(self).deg()
                &&& final(self).rev() == old(self).rev()
                &&& final(self).trn() == old(self).trn()
            },
            action != Action::Fail ==> is_transpose(
                final(self).edges(),
                final(self).peers(),
                final(self).nodes(),
                final(self).deg(),
                final(self).rev(),
                final(self).trn(),
            ),
    {
        match self.phase {
            Phase::Done => Action::Idle,
            Phase::Propagating => {
                self.steps = self.steps + 1;
                if self.steps >= self.iterations {
                    self.phase = Phase::Done;
                }
                Action::Step
            },
            Phase::Collecting => {
                let ghost received = self.pending@;
                let batches: Vec<Vec<Edge>> = self.pending.finalize();
                match try_transpose(batches, self.peers, self.nodes) {
                    None => Action::Fail,
                    Some((deg, rev, trn)) => {
                        let mut starts: Vec<usize> = Vec::new();
                        let sources: usize = trn.len();
                        let mut at: usize = 0;
                        let mut g: usize = 0;
                        proof {
                            assert(rev@.take(0) =~= Seq::<(u32, u32)>::empty());
                        }
                        while g < rev.len()
                            invariant
                                g <= rev@.len(),
                                starts@.len() == g,
                                at as int == group_start(rev@, g as int),
                                total(rev@) == sources,
                                forall|h: int|
                                    0 <= h < g ==> (#[trigger] starts@[h]) as int == group_start(
                                        rev@,
                                        h,
                                    ),
                            decreases rev@.len() - g,
                        {
                            proof {
                                group_ranges(rev@, g as int);
                            }
                            starts.push(at);
                            at = at + rev[g].1 as usize;
                            g += 1;
                        }
                        self.deg = deg;
                        self.rev = rev;
                        self.trn = trn;
                        self.starts = starts;
                        self.edges = Ghost(received);
                        self.steps = 1;
                        if self.steps >= self.iterations {
                            self.phase = Phase::Done;
                        } else {
                            self.phase = Phase::Propagating;
                        }
                        Action::Start
                    },
                }
            },
        }
    }

    /// The out-degrees of the local sources; one rank belongs to each.
    pub fn degrees(&self) -> (deg: &[u32])
        ensures
            deg@ == self.deg(),
    {
        self.deg.as_slice()
    }

    /// The number of destinations that this worker sends a sum to.
    pub fn groups(&self) -> (n: usize)
        ensures
            n == self.rev().len(),
    {
        self.rev.len()
    }

    /// The destination of group `g`, and the local indices of the ranks that
    /// are summed for it: one for each edge that ends there, in the order
    /// the edges came. Every index is within the degrees.
    pub fn group(&self, g: usize) -> (r: (u32, &[u32]))
        requires
            self.wf(),
            g < self.rev().len(),
        ensures
            r.0 == self.rev()[g as int].0,
            r.1@ == group_sources(self.rev(), self.trn(), g as int),
            r.1@ == local_sources(with_key(self.edges(), by_destination(), r.0), self.peers()),
            forall|t: int| 0 <= t < r.1@.len() ==> #[trigger] r.1@[t] < self.deg().len(),
    {
        proof {
            group_ranges(self.rev@, g as int);
        }
        let all: &[u32] = self.trn.as_slice();
        let len: usize = all.len();
        let start: usize = self.starts[g];
        let count: usize = self.rev[g].1 as usize;
        let sources: &[u32] = slice_subrange(all, start, start + count);
        proof {
            assert(sources@ == group_sources(self.rev@, self.trn@, g as int));
            assert forall|t: int| 0 <= t < sources@.len() implies #[trigger] sources@[t]
                < self.deg@.len() by {
                assert(sources@[t] == self.trn@[start + t]);
            }
        }
        (self.rev[g].0, sources)
    }

    /// The local index `node / peers` at which this worker keeps the rank of
    /// `node`, if its ranks reach that far.
    pub fn local_index(&self, node: u32) -> (slot: Option<usize>)
        requires
            self.wf(),
        ensures
            slot == if node as int / self.peers() < self.deg().len() {
                Some((node as int / self.peers()) as usize)
            } else {
                None
            },
    {
        let at: usize = node as usize / self.peers;
        if at < self.deg.len() {
            Some(at)
        } else {
            None
        }
    }
}

} // verus!
