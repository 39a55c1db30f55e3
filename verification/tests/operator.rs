use pagerank::aggregate::Aggregation;
use pagerank::encode;
use pagerank::graphmap::{Graph, GraphMMap, MemoryGraph};
use pagerank::operator::{feeds_back, local_edges, Action, Operator};

/// One superstep of one worker: scales the ranks by their out-degrees, sums
/// them group by group, and resets them to the teleport constant.
fn superstep(op: &Operator, src: &mut Vec<f32>) -> Vec<(u32, f32)> {
    let deg = op.degrees();
    for s in 0..src.len() {
        src[s] = if deg[s] == 0 { 0.0 } else { 0.85 * src[s] / deg[s] as f32 };
    }
    let mut out = Vec::new();
    for g in 0..op.groups() {
        let (dst, sources) = op.group(g);
        let mut accum = 0.0;
        for &s in sources {
            accum += src[s as usize];
        }
        out.push((dst, accum));
    }
    for s in src.iter_mut() {
        *s = 0.15;
    }
    out
}

/// Runs `iterations` supersteps on `peers` workers and returns the rank of
/// every node after the last.
fn pagerank(graph: &MemoryGraph, peers: usize, iterations: usize) -> Vec<f32> {
    let nodes = graph.nodes();
    let mut ops: Vec<Operator> = Vec::new();
    let mut srcs: Vec<Vec<f32>> = Vec::new();
    for index in 0..peers {
        let mut op = Operator::new(peers, nodes, iterations);
        op.receive_edges(&local_edges(graph, peers, index));
        assert_eq!(op.notify(), Action::Start);
        srcs.push(vec![0.15; op.degrees().len()]);
        ops.push(op);
    }
    for step in 0..iterations {
        let mut sent = Vec::new();
        for index in 0..peers {
            if step > 0 {
                assert_eq!(ops[index].notify(), Action::Step);
            }
            sent.extend(superstep(&ops[index], &mut srcs[index]));
        }
        for (node, rank) in sent {
            let owner = node as usize % peers;
            let slot = ops[owner].local_index(node).unwrap();
            srcs[owner][slot] += rank;
        }
    }
    (0..nodes).map(|v| srcs[v % peers][v / peers]).collect()
}

fn cycle(n: u32) -> MemoryGraph {
    MemoryGraph::new((0..n).map(|v| vec![(v + 1) % n]).collect())
}

#[test]
fn operator_moves_through_its_phases() {
    let mut op = Operator::new(1, 4, 3);
    op.receive_edges(&[(0, 1), (0, 2)]);
    op.receive_edges(&[(0, 3)]);
    assert_eq!(op.notify(), Action::Start);
    assert_eq!(op.degrees(), &[3, 0, 0, 0, 0]);
    assert_eq!(op.groups(), 3);
    assert_eq!(op.group(0), (1, &[0u32][..]));
    assert_eq!(op.group(1), (2, &[0u32][..]));
    assert_eq!(op.group(2), (3, &[0u32][..]));
    assert_eq!(op.notify(), Action::Step);
    assert_eq!(op.notify(), Action::Step);
    assert_eq!(op.notify(), Action::Idle);
    assert_eq!(op.notify(), Action::Idle);
    assert_eq!(op.groups(), 3);
}

#[test]
fn operator_with_one_iteration_is_done_after_the_start() {
    let mut op = Operator::new(2, 10, 1);
    assert_eq!(op.notify(), Action::Start);
    assert_eq!(op.notify(), Action::Idle);
    let mut none = Operator::new(2, 10, 0);
    assert_eq!(none.notify(), Action::Start);
    assert_eq!(none.notify(), Action::Idle);
}

#[test]
fn operator_without_edges_has_empty_groups() {
    let mut op = Operator::new(2, 4, 20);
    op.receive_edges(&[]);
    assert_eq!(op.notify(), Action::Start);
    assert_eq!(op.degrees(), &[0, 0, 0]);
    assert_eq!(op.groups(), 0);
}

#[test]
fn groups_list_sources_in_arrival_order() {
    let mut op = Operator::new(2, 10, 20);
    op.receive_edges(&[(4, 9), (0, 2), (6, 9)]);
    op.receive_edges(&[(2, 2), (4, 2), (0, 9)]);
    op.notify();
    assert_eq!(op.groups(), 2);
    assert_eq!(op.group(0), (2, &[0u32, 1, 2][..]));
    assert_eq!(op.group(1), (9, &[2u32, 3, 0][..]));
}

#[test]
fn local_index_divides_by_peers() {
    let mut op = Operator::new(3, 10, 20);
    op.notify();
    assert_eq!(op.degrees().len(), 4);
    assert_eq!(op.local_index(0), Some(0));
    assert_eq!(op.local_index(7), Some(2));
    assert_eq!(op.local_index(11), Some(3));
    assert_eq!(op.local_index(12), None);
    assert_eq!(op.local_index(u32::MAX), None);
}

#[test]
fn local_edges_are_those_of_owned_nodes() {
    let graph = MemoryGraph::new(vec![vec![1, 2], vec![2], vec![0, 3], vec![], vec![4, 0]]);
    assert_eq!(
        local_edges(&graph, 1, 0),
        vec![(0, 1), (0, 2), (1, 2), (2, 0), (2, 3), (4, 4), (4, 0)]
    );
    assert_eq!(local_edges(&graph, 2, 0), vec![(0, 1), (0, 2), (2, 0), (2, 3), (4, 4), (4, 0)]);
    assert_eq!(local_edges(&graph, 2, 1), vec![(1, 2)]);
    assert_eq!(local_edges(&graph, 2, 5), vec![]);
}

#[test]
fn local_edges_of_a_stored_graph() {
    let (offsets, targets) = encode::write(&[(0, 1), (0, 2), (0, 3)]);
    let graph = GraphMMap::new(&offsets, &targets);
    assert_eq!(local_edges(&graph, 2, 0), vec![(0, 1), (0, 2), (0, 3)]);
    assert_eq!(local_edges(&graph, 2, 1), vec![]);
}

#[test]
fn star_split_between_two_workers() {
    let (offsets, targets) = encode::write(&[(0, 1), (0, 2), (0, 3)]);
    let graph = GraphMMap::new(&offsets, &targets);
    let mut first = Operator::new(2, graph.nodes(), 20);
    first.receive_edges(&local_edges(&graph, 2, 0));
    first.notify();
    assert_eq!(first.degrees(), &[3, 0, 0]);
    assert_eq!(first.groups(), 3);
    let mut second = Operator::new(2, graph.nodes(), 20);
    second.receive_edges(&local_edges(&graph, 2, 1));
    second.notify();
    assert_eq!(second.degrees(), &[0, 0, 0]);
    assert_eq!(second.groups(), 0);
}

#[test]
fn contributions_of_one_source_are_equal() {
    // every node has two edges out, every rank is 0.15
    let graph = MemoryGraph::new(vec![vec![1, 2], vec![2, 3], vec![3, 0], vec![0, 1]]);
    let mut op = Operator::new(1, 4, 20);
    op.receive_edges(&local_edges(&graph, 1, 0));
    op.notify();
    let mut src = vec![0.15f32; op.degrees().len()];
    let deg = op.degrees().to_vec();
    for s in 0..src.len() {
        src[s] = if deg[s] == 0 { 0.0 } else { 0.85 * src[s] / deg[s] as f32 };
    }
    let per_edge = 0.85f32 * 0.15 / 2.0;
    for g in 0..op.groups() {
        let (_dst, sources) = op.group(g);
        assert_eq!(sources.len(), 2);
        for &s in sources {
            assert_eq!(src[s as usize], per_edge);
        }
    }
}

#[test]
fn a_node_without_edges_contributes_nothing() {
    let graph = MemoryGraph::new(vec![vec![1], vec![]]);
    let mut op = Operator::new(1, 2, 20);
    op.receive_edges(&local_edges(&graph, 1, 0));
    op.notify();
    let mut src = vec![0.15f32; op.degrees().len()];
    let out = superstep(&op, &mut src);
    assert_eq!(out, vec![(1, 0.85 * 0.15)]);
    assert_eq!(src, vec![0.15, 0.15, 0.15]);
}

#[test]
fn ranks_on_a_cycle_approach_the_uniform_fixed_point() {
    let graph = cycle(5);
    let few = pagerank(&graph, 1, 5);
    let many = pagerank(&graph, 1, 60);
    for v in 0..5 {
        assert!((many[v] - 1.0).abs() < 1e-4);
        assert!((many[v] - 1.0).abs() <= (few[v] - 1.0).abs());
        assert!((many[v] - many[0]).abs() < 1e-6);
    }
}

#[test]
fn ranks_do_not_depend_on_the_number_of_workers() {
    let graph = MemoryGraph::new(vec![
        vec![1, 2, 3],
        vec![2],
        vec![0, 4],
        vec![4, 4, 0],
        vec![1],
        vec![0, 2],
    ]);
    let one = pagerank(&graph, 1, 20);
    for peers in 2..5 {
        let split = pagerank(&graph, peers, 20);
        for v in 0..one.len() {
            assert!((one[v] - split[v]).abs() < 1e-5);
        }
    }
}

#[test]
fn incoming_sums_do_not_depend_on_the_number_of_workers() {
    let graph = MemoryGraph::new(vec![vec![1, 2, 3], vec![2], vec![0, 3], vec![0, 1, 2]]);
    let mut single = Operator::new(1, 4, 20);
    single.receive_edges(&local_edges(&graph, 1, 0));
    single.notify();
    let mut src = vec![0.15f32; single.degrees().len()];
    let whole = superstep(&single, &mut src);
    let mut total = vec![0.0f32; 4];
    for index in 0..3 {
        let mut op = Operator::new(3, 4, 20);
        op.receive_edges(&local_edges(&graph, 3, index));
        op.notify();
        let mut src = vec![0.15f32; op.degrees().len()];
        for (dst, sum) in superstep(&op, &mut src) {
            total[dst as usize] += sum;
        }
    }
    for (dst, sum) in whole {
        assert!((total[dst as usize] - sum).abs() < 1e-6);
    }
}

#[test]
fn aggregation_slots_and_nodes() {
    // worker 5 is the second of the workers 4, 5, 6, 7 of its process
    let a = Aggregation::new(4, 5, 100);
    assert_eq!(a.slots(), 26);
    assert_eq!(a.slot_of(0), 0);
    assert_eq!(a.slot_of(41), 10);
    assert_eq!(a.node_of(10), Some(41));
    assert_eq!(a.node_of(0), Some(1));
    assert_eq!(a.route(41), 5);
    assert_eq!(a.route(40), 4);
    assert_eq!(a.route(43), 7);
    assert_eq!(a.route(u32::MAX), 7);
}

#[test]
fn aggregation_gives_back_the_nodes_routed_to_it() {
    for index in 0..6usize {
        let a = Aggregation::new(3, index, 1000);
        for node in 0..1000u32 {
            if a.route(node) == index as u64 {
                assert_eq!(a.node_of(a.slot_of(node)), Some(node));
                assert!(a.slot_of(node) < a.slots());
            }
        }
    }
}

#[test]
fn aggregation_node_out_of_range() {
    let a = Aggregation::new(2, 1, 10);
    assert_eq!(a.node_of((u32::MAX / 2) as usize), Some(u32::MAX));
    assert_eq!(a.node_of((u32::MAX / 2) as usize + 1), None);
    assert_eq!(a.node_of(usize::MAX), None);
}

#[test]
fn operator_is_empty_before_the_first_notification() {
    let mut op = Operator::new(2, 10, 20);
    op.receive_edges(&[(0, 1), (2, 3)]);
    assert!(op.degrees().is_empty());
    assert_eq!(op.groups(), 0);
    assert_eq!(op.local_index(0), None);
    assert_eq!(op.notify(), Action::Start);
    assert_eq!(op.degrees(), &[1, 1, 0, 0, 0, 0]);
    assert_eq!(op.groups(), 2);
    assert_eq!(op.local_index(0), Some(0));
}

#[test]
fn edges_after_the_start_are_buffered_and_not_used() {
    let mut op = Operator::new(1, 2, 5);
    op.receive_edges(&[(0, 1)]);
    assert_eq!(op.notify(), Action::Start);
    op.receive_edges(&[(1, 0)]);
    assert_eq!(op.notify(), Action::Step);
    assert_eq!(op.groups(), 1);
    assert_eq!(op.group(0), (1, &[0u32][..]));
}

#[test]
fn ranks_reach_the_destinations_beyond_the_nodes() {
    // node 9 is only a destination, and more than the graph says it has
    let mut op = Operator::new(1, 4, 20);
    op.receive_edges(&[(0, 9)]);
    assert_eq!(op.notify(), Action::Start);
    assert_eq!(op.degrees().len(), 10);
    assert_eq!(op.local_index(9), Some(9));
    assert_eq!(op.local_index(10), None);
}

#[test]
fn feedback_runs_for_the_iterations() {
    assert!(feeds_back(0, 20));
    assert!(feeds_back(18, 20));
    assert!(!feeds_back(19, 20));
    assert!(!feeds_back(20, 20));
    assert!(!feeds_back(0, 0));
    assert!(!feeds_back(0, 1));
    assert!(feeds_back(0, 2));
    assert!(!feeds_back(usize::MAX, usize::MAX));
    // as many supersteps are fed back as the operator steps after its start
    let iterations = 4;
    let mut op = Operator::new(1, 1, iterations);
    let mut time = 0;
    assert_eq!(op.notify(), Action::Start);
    while feeds_back(time, iterations) {
        assert_eq!(op.notify(), Action::Step);
        time += 1;
    }
    assert_eq!(op.notify(), Action::Idle);
}
