//! Process-local aggregation: where the workers of one process keep the
//! partial ranks they sum before sending them on.

use vstd::arithmetic::div_mod::{lemma_fundamental_div_mod, lemma_mod_multiples_vanish};
use vstd::prelude::*;

verus! {

/// The indices that one worker of a process of `workers` workers computes
/// with when it aggregates for a graph of `nodes` nodes.
#[derive(Clone, Copy, Debug)]
pub struct Aggregation {
    workers: usize,
    nodes: usize,
    local_base: usize,
    local_index: usize,
}

/// The slot in which a worker of a process of `workers` keeps `node`.
pub open spec fn slot_for(node: int, workers: int) -> int {
    node / workers
}

/// The node that slot `slot` stands for at the worker with `local_index`.
pub open spec fn node_in(slot: int, workers: int, local_index: int) -> int {
    slot * workers + local_index
}

/// A node comes back from its slot as itself, at the worker it was routed
/// to: aggregation passes on ranks for the nodes it received them for.
pub proof fn slot_round_trip(node: int, workers: int)
    requires
        workers > 0,
        node >= 0,
    ensures
        node_in(slot_for(node, workers), workers, node % workers) == node,
{
    lemma_fundamental_div_mod(node, workers);
    assert(workers * (node / workers) == (node / workers) * workers) by (nonlinear_arith);
}

impl Aggregation {
    /// The number of workers in a process.
    pub closed spec fn workers(&self) -> int {
        self.workers as int
    }

    /// The number of nodes of the graph.
    pub closed spec fn nodes(&self) -> int {
        self.nodes as int
    }

    /// The index of the first worker of this worker's process.
    pub closed spec fn local_base(&self) -> int {
        self.local_base as int
    }

    /// This worker's index within its process.
    pub closed spec fn local_index(&self) -> int {
        self.local_index as int
    }

    /// The indices for worker `index`, in a process of `workers` workers.
    pub fn new(workers: usize, index: usize, nodes: usize) -> (a: Aggregation)
        requires
            workers > 0,
        ensures
            a.workers() == workers,
            a.nodes() == nodes,
            a.local_base() == workers * (index / workers),
            a.local_index() == index % workers,
            a.local_base() + a.local_index() == index,
    {
        proof {
            lemma_fundamental_div_mod(index as int, workers as int);
        }
        Aggregation {
            workers,
            nodes,
            local_base: index - index % workers,
            local_index: index % workers,
        }
    }

    /// The number of slots of the accumulator: `nodes / workers + 1`.
    pub fn slots(&self) -> (n: usize)
        requires
            self.workers() > 0,
            self.nodes() / self.workers() < usize::MAX,
        ensures
            n == self.nodes() / self.workers() + 1,
    {
        self.nodes / self.workers + 1
    }

    /// The worker that a rank for `node` is sent to: the worker of this
    /// process whose index within the process is `node % workers`.
    pub fn route(&self, node: u32) -> (worker: u64)
        requires
            self.workers() > 0,
            self.local_base() + self.workers() <= u64::MAX,
        ensures
            worker == self.local_base() + node as int % self.workers(),
    {
        self.local_base as u64 + (node as u64 % self.workers as u64)
    }

    /// The slot in which the rank for `node` is summed.
    pub fn slot_of(&self, node: u32) -> (slot: usize)
        requires
            self.workers() > 0,
        ensures
            slot == slot_for(node as int, self.workers()),
    {
        node as usize / self.workers
    }

    /// The node whose rank slot `slot` holds at this worker, or `None` where
    /// that is no 32-bit id.
    pub fn node_of(&self, slot: usize) -> (node: Option<u32>)
        ensures
            node == if node_in(slot as int, self.workers(), self.local_index()) <= u32::MAX {
                Some(node_in(slot as int, self.workers(), self.local_index()) as u32)
            } else {
                None
            },
    {
        assert(slot * self.workers <= usize::MAX * usize::MAX) by (nonlinear_arith)
            requires
                0 <= slot <= usize::MAX,
                0 <= self.workers <= usize::MAX,
        ;
        let id: u128 = slot as u128 * self.workers as u128 + self.local_index as u128;
        if id <= u32::MAX as u128 {
            Some(id as u32)
        } else {
            None
        }
    }
}

/// Routing keeps a rank within the process, at the worker whose slots stand
/// for nodes like it.
pub proof fn route_stays_local(local_base: int, workers: int, node: int)
    requires
        workers > 0,
        node >= 0,
        local_base >= 0,
        local_base % workers == 0,
    ensures
        local_base <= local_base + node % workers < local_base + workers,
        (local_base + node % workers) % workers == node % workers,
{
    lemma_fundamental_div_mod(local_base, workers);
    let q = local_base / workers;
    assert(local_base == workers * q);
    lemma_mod_multiples_vanish(q, node % workers, workers);
    assert(workers * q + node % workers == q * workers + node % workers) by (nonlinear_arith);
    vstd::arithmetic::div_mod::lemma_small_mod((node % workers) as nat, workers as nat);
}

} // verus!
