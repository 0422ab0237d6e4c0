use rand::{Rng, SeedableRng};
use rand_pcg::Pcg64;
use rip_shuffle::blocked::block::Block;
use rip_shuffle::blocked::blocks::split_slice_into_blocks;
use rip_shuffle::blocked::slicing::Span;
use rip_shuffle::scatter_shuffle::sequential;

const POWERS_OF_TWO: [usize; 8] = [1, 2, 4, 8, 16, 32, 64, 128];

#[test]
fn draw_unprocessed_distribution() {
    fn test_impl(num_buckets: usize, rng: &mut impl Rng) {
        let total_length = 10 * num_buckets;
        let data = vec![0; total_length];
        let mut buckets = split_slice_into_blocks(&data, num_buckets);
        for bucket in &mut buckets {
            bucket.set_num_processed(bucket.len());
        }

        let num_unprocessed = rng.gen_range(num_buckets..total_length);
        for _ in 0..num_unprocessed {
            loop {
                let idx = rng.gen_range(0..num_buckets);
                let bucket = &mut buckets[idx];
                if bucket.num_processed() > 0 {
                    bucket.set_num_processed(bucket.num_processed() - 1);
                    break;
                }
            }
        }

        let target_lengths = sequential::sample_final_bucket_size(rng, num_unprocessed, &buckets);

        assert_eq!(target_lengths.len(), num_buckets);
        assert!(buckets
            .iter()
            .zip(&target_lengths)
            .all(|(blk, &target)| target >= blk.num_processed()));

        assert_eq!(target_lengths.iter().sum::<usize>(), total_length);
    }

    let mut rng = Pcg64::seed_from_u64(12345);
    for num_buckets in POWERS_OF_TWO {
        test_impl(num_buckets, &mut rng);
    }
}

#[test]
fn draw_binomial_counts_balls_of_one_bin() {
    let mut rng = Pcg64::seed_from_u64(31);
    assert_eq!(sequential::draw_binomial(&mut rng, 1000, 1), 1000);
    assert_eq!(sequential::draw_binomial(&mut rng, 0, 5), 0);
    let hits = sequential::draw_binomial(&mut rng, 10_000, 4);
    assert!(hits > 2_200 && hits < 2_800);
}

fn generate_random_buckets(
    num_buckets: usize,
    rng: &mut impl Rng,
    storage: &mut Vec<usize>,
) -> Vec<Block> {
    let sizes: Vec<(usize, usize)> = (0..num_buckets)
        .into_iter()
        .map(|_| (rng.gen_range(0..30), rng.gen_range(0..10)))
        .collect();
    storage.clear();
    storage.resize(sizes.iter().map(|(a, b)| a + b).sum(), 0);

    let mut start = 0;
    let mut buckets = Vec::new();
    for sze in &sizes {
        let end = start + sze.0 + sze.1;
        buckets.push(Block::new_with_num_unprocessed(Span::new(start, end), sze.1));
        start = end;
    }

    buckets
}

fn mark_unprocessed_data(buckets: &[Block], data: &mut [usize]) {
    buckets
        .iter()
        .for_each(|blk| blk.data_processed_mut(data).fill(0));

    let mut idx = 0;
    for bucket in buckets {
        for value in bucket.data_unprocessed_mut(data).iter_mut() {
            *value = idx + 1;
            idx += 1;
        }
    }
}

fn assert_processed_are_zero(buckets: &[Block], data: &[usize]) {
    for (bucket_idx, bucket) in buckets.iter().enumerate() {
        for (idx, &dat) in bucket.data_processed(data).iter().enumerate() {
            assert_eq!(dat, 0, "bucket_idx={bucket_idx} i={idx}");
        }
    }
}

fn assert_unprocessed_are_non_zero(buckets: &[Block], data: &[usize]) {
    for (bucket_idx, bucket) in buckets.iter().enumerate() {
        for (idx, &dat) in bucket.data_unprocessed(data).iter().enumerate() {
            assert_ne!(dat, 0, "bucket_idx={bucket_idx} i={idx}");
        }
    }
}

fn merge_data(buckets: &[Block], data: &[usize]) -> Vec<usize> {
    buckets
        .iter()
        .flat_map(|blk| blk.data(data).iter().copied())
        .collect()
}

fn sort_dedup(data: &[usize]) -> Vec<usize> {
    let mut data: Vec<usize> = data.into();
    data.sort();
    data.dedup();
    data
}

fn invoke_with_random_buckets(func: fn(&mut [Block], &mut [usize], &[usize])) {
    let mut rng = Pcg64::seed_from_u64(12345);
    for num_buckets in POWERS_OF_TWO {
        let mut data = Vec::new();

        for _ in 0..10 {
            let mut buckets = generate_random_buckets(num_buckets, &mut rng, &mut data);
            let num_unprocessed = buckets.iter().map(|blk| blk.num_unprocessed()).sum();
            let target_lengths =
                sequential::sample_final_bucket_size(&mut rng, num_unprocessed, &buckets);

            func(&mut buckets, &mut data, &target_lengths);
        }
    }
}

#[test]
fn compact_ranges() {
    fn test_impl(buckets: &mut [Block], data: &mut [usize], _target_lengths: &[usize]) {
        let num_stash: usize = buckets.iter().map(|r| r.num_unprocessed()).sum();
        if num_stash > buckets.last().unwrap().len() {
            return;
        }

        mark_unprocessed_data(buckets, data);
        let marked = data.to_vec();

        let num_accepted = sequential::compact_ranges(buckets, data);
        assert_eq!(num_accepted, num_stash);

        assert_eq!(
            buckets.iter().map(|r| r.num_unprocessed()).sum::<usize>(),
            num_stash
        );

        let last = buckets.last().unwrap().data(data);
        assert!(last[last.len() - num_stash..].iter().all(|x| *x != 0));
        assert_eq!(
            last[last.len() - num_stash..].to_vec(),
            (1..=num_stash).collect::<Vec<usize>>()
        );

        let merged = merge_data(buckets, data);

        assert_eq!(
            sort_dedup(&merged),
            (0..=num_stash).into_iter().collect::<Vec<usize>>(),
            "num_stash = {num_stash}"
        );

        sequential::compact_ranges(buckets, data);
        assert_eq!(data.to_vec(), marked);
    }

    invoke_with_random_buckets(test_impl);
}

fn shrink_sweep_test_skeleton(
    buckets: &mut [Block],
    data: &mut [usize],
    target_lengths: &[usize],
    sweep: fn(&mut [Block], &[usize], &mut [usize]),
) {
    mark_unprocessed_data(buckets, data);

    assert_processed_are_zero(buckets, data);
    assert_unprocessed_are_non_zero(buckets, data);
    let unprocessed_before = sort_dedup(&merge_data(buckets, data));

    sweep(buckets, target_lengths, data);

    assert_processed_are_zero(buckets, data);
    assert_unprocessed_are_non_zero(buckets, data);
    let unprocessed_after = sort_dedup(&merge_data(buckets, data));

    assert_eq!(unprocessed_before, unprocessed_after,);
}

#[test]
fn move_buckets_to_fit_target_len() {
    fn sweep(buckets: &mut [Block], target_lengths: &[usize], data: &mut [usize]) {
        sequential::move_buckets_to_fit_target_len(buckets, target_lengths, data);
        for (bucket_idx, (bucket, &target)) in buckets.iter().zip(target_lengths).enumerate() {
            assert!(bucket.len() == target, "bucket_idx = {bucket_idx}");
        }
    }

    fn test_impl(buckets: &mut [Block], data: &mut [usize], target_lengths: &[usize]) {
        shrink_sweep_test_skeleton(buckets, data, target_lengths, sweep);
    }

    invoke_with_random_buckets(test_impl);
}

#[test]
fn shrink_sweep_to_left() {
    fn sweep(buckets: &mut [Block], target_lengths: &[usize], data: &mut [usize]) {
        sequential::shrink_sweep_to_left(buckets, target_lengths, data);
        for (bucket_idx, (bucket, &target)) in
            buckets.iter().zip(target_lengths).enumerate().skip(1)
        {
            assert!(bucket.len() <= target, "bucket_idx = {bucket_idx}");
        }
    }

    fn test_impl(buckets: &mut [Block], data: &mut [usize], target_lengths: &[usize]) {
        shrink_sweep_test_skeleton(buckets, data, target_lengths, sweep);
    }

    invoke_with_random_buckets(test_impl);
}

#[test]
fn shrink_sweep_to_right_stops_at_the_target_sums() {
    fn sweep(buckets: &mut [Block], target_lengths: &[usize], data: &mut [usize]) {
        let ends_before: Vec<usize> = buckets.iter().map(|b| b.span.end).collect();
        sequential::shrink_sweep_to_right(buckets, target_lengths, data);
        let mut sum = 0;
        for (idx, bucket) in buckets.iter().enumerate().take(buckets.len() - 1) {
            sum += target_lengths[idx];
            assert_eq!(bucket.span.end, ends_before[idx].min(sum));
        }
    }

    fn test_impl(buckets: &mut [Block], data: &mut [usize], target_lengths: &[usize]) {
        shrink_sweep_test_skeleton(buckets, data, target_lengths, sweep);
    }

    invoke_with_random_buckets(test_impl);
}

#[test]
fn move_buckets_to_fit_target_len_on_fixed_lengths() {
    let mut data: Vec<usize> = vec![1, 1, 0, 0, 0, 2, 0, 3, 3, 3];
    let mut buckets = vec![
        Block::new_with_num_unprocessed(Span::new(0, 5), 3),
        Block::new_with_num_unprocessed(Span::new(5, 7), 1),
        Block::new_with_num_unprocessed(Span::new(7, 10), 0),
    ];
    sequential::move_buckets_to_fit_target_len(&mut buckets, &[2, 4, 4], &mut data);
    let spans: Vec<(usize, usize, usize)> = buckets
        .iter()
        .map(|b| (b.span.start, b.span.end, b.num_processed()))
        .collect();
    assert_eq!(spans, vec![(0, 2, 2), (2, 6, 1), (6, 10, 3)]);
    assert_eq!(data, vec![1, 1, 2, 0, 0, 0, 3, 3, 3, 0]);
}

#[test]
fn count_unprocessed_adds_up_the_stashes() {
    let buckets = vec![
        Block::new_with_num_unprocessed(Span::new(0, 5), 3),
        Block::new_with_num_unprocessed(Span::new(5, 7), 1),
        Block::new_with_num_unprocessed(Span::new(7, 10), 0),
    ];
    assert_eq!(sequential::count_unprocessed(&buckets), 4);
}

#[test]
fn multinomial_hands_out_every_ball() {
    let mut rng = Pcg64::seed_from_u64(2024);
    for num_bins in [1usize, 2, 3, 8, 100] {
        for num_balls in [0usize, 1, 7, 1000] {
            let counts = sequential::multinomial(&mut rng, num_bins, num_balls);
            assert_eq!(counts.len(), num_bins);
            assert_eq!(counts.iter().sum::<usize>(), num_balls);
        }
    }
    let counts = sequential::multinomial(&mut rng, 4, 40_000);
    assert!(counts.iter().all(|&c| c > 9_000 && c < 11_000));
}

#[test]
fn target_lengths_add_to_the_processed_positions() {
    let buckets = vec![
        Block::new_with_num_unprocessed(Span::new(0, 5), 3),
        Block::new_with_num_unprocessed(Span::new(5, 7), 1),
        Block::new_with_num_unprocessed(Span::new(7, 10), 0),
    ];
    assert_eq!(sequential::target_lengths(&buckets, &[4, 0, 0]), vec![6, 1, 3]);
    assert_eq!(sequential::target_lengths(&buckets, &[1, 2, 1]), vec![3, 3, 4]);
}
