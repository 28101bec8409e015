use raytracer::schedule::{compute_chunk, split_evenly, Res};

#[test]
fn split_ten_into_three() {
    let (chunks, sizes) = split_evenly((0..10usize).collect::<Vec<_>>(), 3);
    assert_eq!(chunks, vec![vec![0, 1, 2, 3], vec![4, 5, 6, 7], vec![8, 9]]);
    assert_eq!(sizes, vec![4, 4, 2]);
}

#[test]
fn split_exact_division() {
    let (chunks, sizes) = split_evenly((0..6usize).collect::<Vec<_>>(), 3);
    assert_eq!(chunks, vec![vec![0, 1], vec![2, 3], vec![4, 5]]);
    assert_eq!(sizes, vec![2, 2, 2]);
}

#[test]
fn split_more_chunks_than_items() {
    let (chunks, sizes) = split_evenly(vec!['a', 'b', 'c'], 5);
    assert_eq!(chunks, vec![vec!['a'], vec!['b'], vec!['c']]);
    assert_eq!(sizes, vec![1, 1, 1]);
}

#[test]
fn split_into_zero_chunks_keeps_one() {
    let (chunks, sizes) = split_evenly(vec![1, 2, 3], 0);
    assert_eq!(chunks, vec![vec![1, 2, 3]]);
    assert_eq!(sizes, vec![3]);
}

#[test]
fn split_empty_gives_one_empty_chunk() {
    let (chunks, sizes) = split_evenly(Vec::<i32>::new(), 4);
    assert_eq!(chunks, vec![Vec::<i32>::new()]);
    assert_eq!(sizes, vec![0]);
}

#[test]
fn split_uneven_last_chunk() {
    let (chunks, sizes) = split_evenly((0..7usize).collect::<Vec<_>>(), 2);
    assert_eq!(sizes, vec![4, 3]);
    assert_eq!(chunks[1], vec![4, 5, 6]);
}

#[test]
fn place_into_writes_rows_from_start() {
    let mut image = vec![0u32; 6];
    let res = Res { buffers: vec![7, 8, 9], start: 2 };
    res.place_into(&mut image);
    assert_eq!(image, vec![0, 0, 7, 8, 9, 0]);
}

#[test]
fn place_into_empty_result_changes_nothing() {
    let mut image = vec![1u8, 2, 3];
    Res { buffers: Vec::new(), start: 3 }.place_into(&mut image);
    assert_eq!(image, vec![1, 2, 3]);
}

#[test]
fn compute_chunk_tags_first_row() {
    let res = compute_chunk(vec![4, 5, 6], |j| j * 10);
    assert_eq!(res.start, 4);
    assert_eq!(res.buffers, vec![40, 50, 60]);
}

#[test]
fn reassembly_in_reverse_order_matches_direct_rendering() {
    let height = 11usize;
    let render = |j: usize| vec![j as u64 * 3 + 1; 4];
    let direct: Vec<Vec<u64>> = (0..height).map(render).collect();
    let (chunks, _) = split_evenly((0..height).collect::<Vec<_>>(), 4);
    let mut results: Vec<Res<Vec<u64>>> = chunks.into_iter().map(|c| compute_chunk(c, render)).collect();
    results.reverse();
    let mut image = vec![Vec::new(); height];
    for res in results {
        res.place_into(&mut image);
    }
    assert_eq!(image, direct);
}

#[test]
fn reassembly_in_shuffled_order_matches_direct_rendering() {
    let height = 9usize;
    let render = |j: usize| (j * j) as i64;
    let (chunks, sizes) = split_evenly((0..height).collect::<Vec<_>>(), 3);
    assert_eq!(sizes, vec![3, 3, 3]);
    let mut results: Vec<Option<Res<i64>>> = chunks.into_iter().map(|c| Some(compute_chunk(c, render))).collect();
    let mut image = vec![-1i64; height];
    for k in [1usize, 2, 0] {
        results[k].take().unwrap().place_into(&mut image);
    }
    assert_eq!(image, (0..height).map(render).collect::<Vec<_>>());
}
