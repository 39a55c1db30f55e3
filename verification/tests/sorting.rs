use pagerank::sorting::{radix_sort_32, SegmentList};

fn flatten(batches: &Vec<Vec<(u32, u32)>>) -> Vec<(u32, u32)> {
    batches.iter().flat_map(|b| b.iter().cloned()).collect()
}

#[test]
fn radix_sort_orders_by_destination() {
    let mut data = vec![vec![(0, 3), (1, 1), (2, 2)], vec![(3, 0), (4, 2)]];
    let mut scratch = Vec::new();
    radix_sort_32(&mut data, &mut scratch, &|e: &(u32, u32)| e.1);
    assert_eq!(flatten(&data), vec![(3, 0), (1, 1), (2, 2), (4, 2), (0, 3)]);
}

#[test]
fn radix_sort_is_stable() {
    let mut data = vec![vec![(5, 7), (1, 7), (9, 7), (0, 7), (3, 6), (2, 7)]];
    let mut scratch = vec![vec![(1, 1)]];
    radix_sort_32(&mut data, &mut scratch, &|e: &(u32, u32)| e.1);
    assert_eq!(flatten(&data), vec![(3, 6), (5, 7), (1, 7), (9, 7), (0, 7), (2, 7)]);
}

#[test]
fn radix_sort_looks_at_every_byte() {
    let keys: Vec<u32> =
        vec![0x0100_0000, 0x0001_0000, 0x0000_0100, 0x0000_0001, u32::MAX, 0, 0x8000_0000, 0x00ff_ffff, 0x0100_0001];
    let mut data = vec![keys.iter().enumerate().map(|(i, k)| (i as u32, *k)).collect::<Vec<_>>()];
    let mut scratch = Vec::new();
    radix_sort_32(&mut data, &mut scratch, &|e: &(u32, u32)| e.1);
    let sorted: Vec<u32> = flatten(&data).iter().map(|e| e.1).collect();
    let mut expected = keys.clone();
    expected.sort();
    assert_eq!(sorted, expected);
}

#[test]
fn radix_sort_by_source() {
    let mut data = vec![vec![(70000, 1), (3, 2)], vec![(70000, 0), (2, 9)]];
    let mut scratch = Vec::new();
    radix_sort_32(&mut data, &mut scratch, &|e: &(u32, u32)| e.0);
    assert_eq!(flatten(&data), vec![(2, 9), (3, 2), (70000, 1), (70000, 0)]);
}

#[test]
fn radix_sort_agrees_with_a_stable_sort() {
    let mut x: u32 = 12345;
    let mut edges = Vec::new();
    for i in 0..5000u32 {
        x = x.wrapping_mul(1664525).wrapping_add(1013904223);
        edges.push((i, x >> (i % 29)));
    }
    let mut data: Vec<Vec<(u32, u32)>> = edges.chunks(333).map(|c| c.to_vec()).collect();
    let mut scratch = Vec::new();
    radix_sort_32(&mut data, &mut scratch, &|e: &(u32, u32)| e.1);
    let mut expected = edges.clone();
    expected.sort_by_key(|e| e.1);
    assert_eq!(flatten(&data), expected);
}

#[test]
fn radix_sort_of_nothing() {
    let mut data: Vec<Vec<(u32, u32)>> = Vec::new();
    let mut scratch = Vec::new();
    radix_sort_32(&mut data, &mut scratch, &|e: &(u32, u32)| e.1);
    assert!(flatten(&data).is_empty());
}

#[test]
fn segment_list_keeps_arrival_order() {
    let mut list = SegmentList::new(4);
    list.push(&[(0, 1), (1, 2), (2, 3)]);
    list.push(&[]);
    list.push(&[(3, 4), (4, 5), (5, 6), (6, 7), (7, 8), (8, 9)]);
    let batches = list.finalize();
    assert_eq!(
        batches,
        vec![
            vec![(0, 1), (1, 2), (2, 3), (3, 4)],
            vec![(4, 5), (5, 6), (6, 7), (7, 8)],
            vec![(8, 9)],
        ]
    );
}

#[test]
fn segment_list_is_empty_after_finalize() {
    let mut list = SegmentList::new(2);
    list.push(&[(1, 1), (2, 2)]);
    assert_eq!(list.finalize(), vec![vec![(1, 1), (2, 2)]]);
    assert!(list.finalize().is_empty());
    list.push(&[(3, 3)]);
    assert_eq!(list.finalize(), vec![vec![(3, 3)]]);
}

#[test]
fn segment_list_of_nothing() {
    let mut list = SegmentList::new(1024);
    assert!(list.finalize().is_empty());
}

#[test]
fn segment_list_with_no_capacity_holds_one_edge_a_segment() {
    let mut list = SegmentList::new(0);
    list.push(&[(1, 2), (3, 4)]);
    assert_eq!(list.finalize(), vec![vec![(1, 2)], vec![(3, 4)]]);
}
