use pagerank::encode;
use pagerank::graphmap::{Graph, GraphMMap, MemoryGraph};
use pagerank::typedrw::{decode_u32s, decode_u64s, encode_u32s, encode_u64s};

#[test]
fn encode_and_graphmap() {
    let data: &[(u32, u32)] = &[(0u32, 1u32), (1, 2), (2, 3)];
    let (offsets, targets) = encode::write(data);
    let graph = GraphMMap::new(&offsets, &targets);
    assert_eq!(graph.nodes(), 4);
    let read: Vec<(u32, u32)> = (0..graph.nodes())
        .flat_map(|src| {
            graph.edges(src).into_iter().map(|d| (src as u32, *d)).collect::<Vec<(u32, u32)>>()
        })
        .collect();
    assert_eq!(read, data);
}

#[test]
fn adjacency_of_each_node() {
    let (offsets, targets) = encode::write(&[(0, 1), (1, 2), (2, 3)]);
    let graph = GraphMMap::new(&offsets, &targets);
    assert_eq!(graph.edges(0), &[1]);
    assert_eq!(graph.edges(1), &[2]);
    assert_eq!(graph.edges(2), &[3]);
    assert_eq!(graph.edges(3), &[] as &[u32]);
}

#[test]
fn adjacency_beyond_the_nodes_is_empty() {
    let (offsets, targets) = encode::write(&[(0, 1), (1, 2)]);
    let graph = GraphMMap::new(&offsets, &targets);
    assert_eq!(graph.nodes(), 3);
    assert!(graph.edges(3).is_empty());
    assert!(graph.edges(1_000_000).is_empty());
    assert!(graph.edges(usize::MAX).is_empty());
}

#[test]
fn offsets_are_running_totals() {
    // nodes 1 and 3 have no edges; node 5 is only a destination
    let (offsets, targets) =
        encode::offsets_and_targets(&[(0, 2), (0, 5), (2, 0), (2, 2), (2, 1), (4, 0)]);
    assert_eq!(offsets, vec![2, 2, 5, 5, 6, 6]);
    assert_eq!(targets, vec![2, 5, 0, 2, 1, 0]);
}

#[test]
fn offsets_of_no_edges() {
    let (offsets, targets) = encode::offsets_and_targets(&[]);
    assert_eq!(offsets, vec![0]);
    assert!(targets.is_empty());
    let (o, t) = encode::write(&[]);
    assert_eq!(o, vec![0u8; 8]);
    assert!(t.is_empty());
}

#[test]
fn files_are_little_endian() {
    let (offsets, targets) = encode::write(&[(0, 0x0102), (1, 1)]);
    assert_eq!(targets, vec![2, 1, 0, 0, 1, 0, 0, 0]);
    assert_eq!(offsets.len(), 8 * (0x0102 + 1));
    assert_eq!(
        &offsets[..24],
        &[1, 0, 0, 0, 0, 0, 0, 0, 2, 0, 0, 0, 0, 0, 0, 0, 2, 0, 0, 0, 0, 0, 0, 0]
    );
    let many: Vec<(u32, u32)> = (0..0x0001_0203).map(|t| (0, t % 7)).collect();
    let (offsets, _) = encode::write(&many);
    assert_eq!(&offsets[..8], &[3, 2, 1, 0, 0, 0, 0, 0]);
}

#[test]
fn duplicates_and_self_loops_survive_the_round_trip() {
    let data = vec![(0, 0), (0, 3), (0, 3), (2, 2), (2, 0)];
    let (offsets, targets) = encode::write(&data);
    let graph = GraphMMap::new(&offsets, &targets);
    let mut read = Vec::new();
    for src in 0..graph.nodes() {
        for d in graph.edges(src) {
            read.push((src as u32, *d));
        }
    }
    assert_eq!(read, data);
}

#[test]
fn malformed_offsets_give_empty_adjacency() {
    // the second offset runs past the targets, the third is below the second
    let offsets = encode_u64s(&[1, 9, 2]);
    let targets = encode_u32s(&[7, 8, 9]);
    let graph = GraphMMap::new(&offsets, &targets);
    assert_eq!(graph.nodes(), 3);
    assert_eq!(graph.edges(0), &[7]);
    assert!(graph.edges(1).is_empty());
    assert!(graph.edges(2).is_empty());
}

#[test]
fn integers_round_trip_through_bytes() {
    let a = vec![0u32, 1, 255, 256, 0xdead_beef, u32::MAX];
    assert_eq!(decode_u32s(&encode_u32s(&a)), a);
    let b = vec![0u64, 1, 0xffff_ffff, 0x1_0000_0000, 0x0123_4567_89ab_cdef, u64::MAX];
    assert_eq!(decode_u64s(&encode_u64s(&b)), b);
    assert_eq!(encode_u32s(&[0xdead_beef]), 0xdead_beefu32.to_le_bytes().to_vec());
    assert_eq!(encode_u64s(&[0x0123_4567_89ab_cdef]), 0x0123_4567_89ab_cdefu64.to_le_bytes().to_vec());
}

#[test]
fn trailing_bytes_are_ignored() {
    assert_eq!(decode_u32s(&[1, 0, 0, 0, 9, 9, 9]), vec![1]);
    assert_eq!(decode_u64s(&[2, 0, 0, 0, 0, 0, 0, 0, 9]), vec![2]);
    assert!(decode_u64s(&[1, 2, 3, 4, 5, 6, 7]).is_empty());
}

#[test]
fn memory_graph_lists() {
    let graph = MemoryGraph::new(vec![vec![1, 2], vec![], vec![0]]);
    assert_eq!(graph.nodes(), 3);
    assert_eq!(graph.edges(0), &[1, 2]);
    assert!(graph.edges(1).is_empty());
    assert_eq!(graph.edges(2), &[0]);
    assert!(graph.edges(3).is_empty());
}

#[test]
fn edges_out_of_order_are_written_as_they_come() {
    let (offsets, targets) = encode::offsets_and_targets(&[(1, 0), (0, 1)]);
    assert_eq!(targets, vec![0, 1]);
    // no edge comes before the first with a source beyond 0; both have one up to 1
    assert_eq!(offsets, vec![0, 2]);
    let (o, t) = encode::write(&[(1, 0), (0, 1)]);
    assert_eq!(t, vec![0, 0, 0, 0, 1, 0, 0, 0]);
    assert_eq!(o, vec![0, 0, 0, 0, 0, 0, 0, 0, 2, 0, 0, 0, 0, 0, 0, 0]);
}

#[test]
fn offsets_out_of_order_keep_their_length() {
    let pairs = [(3, 7), (0, 2), (5, 1), (2, 2), (5, 0)];
    let (offsets, targets) = encode::offsets_and_targets(&pairs);
    assert_eq!(targets, vec![7, 2, 1, 2, 0]);
    assert_eq!(offsets.len(), 8);
    assert_eq!(offsets, vec![0, 0, 0, 2, 2, 5, 5, 5]);
}
