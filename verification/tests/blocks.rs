use rip_shuffle::blocked::blocks;

#[test]
fn split_slice_into_blocks() {
    let data: Vec<_> = (0..8).into_iter().collect();

    let blocks = blocks::split_slice_into_blocks(&data, 2);
    assert_eq!(blocks.len(), 2);
    assert_eq!(blocks.as_slice()[0].len(), 4);
    assert_eq!(blocks.as_slice()[1].len(), 4);
}

#[test]
fn split_slice_into_blocks_rounds_boundaries_down() {
    let data = vec![0u8; 10];
    let blocks = blocks::split_slice_into_blocks(&data, 4);
    let bounds: Vec<(usize, usize)> = blocks.iter().map(|b| (b.span.start, b.span.end)).collect();
    assert_eq!(bounds, vec![(0, 2), (2, 5), (5, 7), (7, 10)]);
    assert!(blocks.iter().all(|b| b.num_processed() == 0));

    let empty: Vec<u8> = Vec::new();
    let blocks = blocks::split_slice_into_blocks(&empty, 2);
    assert!(blocks.iter().all(|b| b.is_empty()));
}

fn compact_counts(n: [usize; 4]) {
    let mut data: Vec<usize> = vec![0; 12];
    let num_ones: usize = n.iter().sum();

    let mut blocks = blocks::split_slice_into_blocks(&data, 4);

    for (i, n) in n.into_iter().enumerate() {
        for _ in 0..n {
            data[blocks[i].first_unprocessed().unwrap()] = 1;
            blocks[i].process_element();
        }
    }

    let compact = blocks::compact_into_single_block(blocks, &mut data);

    assert_eq!(compact.len(), 12);
    assert_eq!(compact.num_processed(), num_ones);
    assert_eq!(compact.num_unprocessed(), 12 - num_ones);

    assert_eq!(compact.data(&data).iter().sum::<usize>(), num_ones);
    assert!(compact.data_processed(&data).iter().all(|x| *x == 1));
    assert!(compact.data_unprocessed(&data).iter().all(|x| *x == 0));
}

#[test]
fn compact_into_single_block() {
    for n0 in 0..3 {
        for n1 in 0..3 {
            for n2 in 0..3 {
                for n3 in 0..3 {
                    compact_counts([n0, n1, n2, n3]);
                }
            }
        }
    }
}

#[test]
fn split_slice_into_buckets() {
    let data: Vec<_> = (0..8).into_iter().collect();

    let buckets = blocks::split_slice_into_blocks(&data, 2);
    assert_eq!(buckets.len(), 2);
    assert_eq!(buckets.as_slice()[0].len(), 4);
    assert_eq!(buckets.as_slice()[1].len(), 4);
}

#[test]
fn compact_into_single_bucket() {
    for n0 in 0..3 {
        for n1 in 0..3 {
            for n2 in 0..3 {
                for n3 in 0..3 {
                    let mut data: Vec<usize> = vec![0; 12];
                    let num_ones = n0 + n1 + n2 + n3;

                    let mut buckets = blocks::split_slice_into_blocks(&data, 4);

                    for (i, n) in [n0, n1, n2, n3].into_iter().enumerate() {
                        for _ in 0..n {
                            buckets[i].process_element();
                        }
                        buckets[i].data_processed_mut(&mut data).fill(1);
                    }

                    let compact = blocks::compact_into_single_block(buckets, &mut data);

                    assert_eq!(compact.len(), 12);
                    assert_eq!(compact.num_processed(), num_ones);
                    assert_eq!(compact.num_unprocessed(), 12 - num_ones);

                    assert_eq!(compact.data(&data).iter().sum::<usize>(), num_ones);
                    assert!(compact.data_processed(&data).iter().all(|x| *x == 1));
                    assert!(compact.data_unprocessed(&data).iter().all(|x| *x == 0));
                }
            }
        }
    }
}

#[test]
fn bucket_merge_preserves_stash() {
    let mut data: Vec<usize> = vec![0; 12];
    let mut blocks = blocks::split_slice_into_blocks(&data, 4);
    let stash_sizes = [1usize, 2, 0, 3];
    for (i, stash) in stash_sizes.into_iter().enumerate() {
        let len = blocks[i].len();
        blocks[i].set_num_processed(len - stash);
        blocks[i].data_processed_mut(&mut data).fill(i + 1);
    }

    let single = blocks::compact_into_single_block(blocks, &mut data);

    assert_eq!(single.len(), 12);
    assert_eq!(single.num_unprocessed(), 6);
    assert!(single.data_unprocessed(&data).iter().all(|x| *x == 0));
    assert_eq!(single.num_processed(), 6);
    assert!(single.data_processed(&data).iter().all(|x| *x != 0));
    for (i, stash) in stash_sizes.into_iter().enumerate() {
        let count = data.iter().filter(|x| **x == i + 1).count();
        assert_eq!(count, 3 - stash);
    }
}

#[test]
fn split_each_bucket_in_half_gives_neighbouring_halves() {
    let data = vec![0u8; 14];
    let mut lefts = blocks::split_slice_into_blocks(&data, 2);
    let rights = blocks::split_each_bucket_in_half(&mut lefts);
    assert_eq!(rights.len(), 2);
    let spans = |b: &rip_shuffle::blocked::block::Block| (b.span.start, b.span.end);
    assert_eq!(spans(&lefts[0]), (0, 3));
    assert_eq!(spans(&rights[0]), (3, 7));
    assert_eq!(spans(&lefts[1]), (7, 10));
    assert_eq!(spans(&rights[1]), (10, 14));
}
