use rand::{Rng, SeedableRng};
use rand_pcg::Pcg64Mcg;
use rip_shuffle::blocked::blocks::{compact_into_single_block, split_slice_into_blocks};
use rip_shuffle::blocked::slicing::Span;
use rip_shuffle::fisher_yates;
use rip_shuffle::fisher_yates::noncontiguous::{is_partner, partner_by_count};
use rip_shuffle::merge_shuffle;
use rip_shuffle::rough_shuffle;
use rip_shuffle::scatter_shuffle::parallel::{par_scatter_shuffle, ParScatterShuffleImpl};
use rip_shuffle::scatter_shuffle::sequential::{seq_scatter_shuffle, SeqScatterShuffleImpl};
use rip_shuffle::scatter_shuffle::Configuration;

type Shuffle = fn(&mut Pcg64Mcg, &mut [usize]);

fn test_configuration() -> Configuration {
    Configuration {
        seq_base_case_size: 16,
        par_base_case_size: 20,
        max_number_of_subproblems: 4,
        disable_recursion: false,
    }
}

fn seq_scatter_4(rng: &mut Pcg64Mcg, data: &mut [usize]) {
    SeqScatterShuffleImpl::<Pcg64Mcg, usize, Configuration, 4>::new(test_configuration())
        .shuffle(rng, data)
}

fn seq_scatter_adaptive_16(rng: &mut Pcg64Mcg, data: &mut [usize]) {
    SeqScatterShuffleImpl::<Pcg64Mcg, usize, Configuration, 16>::new(test_configuration())
        .shuffle_adaptive(rng, data)
}

fn par_scatter_4(rng: &mut Pcg64Mcg, data: &mut [usize]) {
    ParScatterShuffleImpl::<Pcg64Mcg, usize, Configuration, 4>::new(test_configuration())
        .shuffle(rng, data)
}

fn seq_scatter_small(rng: &mut Pcg64Mcg, data: &mut [usize]) {
    let config = Configuration {
        seq_base_case_size: 1,
        par_base_case_size: 1,
        max_number_of_subproblems: 4,
        disable_recursion: false,
    };
    SeqScatterShuffleImpl::<Pcg64Mcg, usize, Configuration, 2>::new(config).shuffle(rng, data)
}

fn par_scatter_small(rng: &mut Pcg64Mcg, data: &mut [usize]) {
    let config = Configuration {
        seq_base_case_size: 1,
        par_base_case_size: 1,
        max_number_of_subproblems: 4,
        disable_recursion: false,
    };
    ParScatterShuffleImpl::<Pcg64Mcg, usize, Configuration, 2>::new(config).shuffle(rng, data)
}

fn split_adapter(rng: &mut Pcg64Mcg, data: &mut [usize]) {
    let mut ranges: Vec<Span> = Vec::new();
    let mut start = 0;
    while data.len() - start > 1 {
        let len = rng.gen_range(1..data.len() - start);
        ranges.push(Span::new(start, start + len));
        start += len;
    }
    ranges.push(Span::new(start, data.len()));

    fisher_yates::noncontiguous::noncontiguous_fisher_yates(rng, data, &ranges);
}

fn stepwise_merge_of_shuffled_halves(rng: &mut Pcg64Mcg, data: &mut [usize]) {
    let mid = data.len() / 2;
    fisher_yates::naive::fisher_yates(rng, &mut data[..mid]);
    fisher_yates::naive::fisher_yates(rng, &mut data[mid..]);
    let merged = merge_shuffle::safe_rough_random_merge(rng, data, mid);
    merge_shuffle::insertion_shuffle(rng, data, merged);
}

fn random_merge_of_shuffled_halves(rng: &mut Pcg64Mcg, data: &mut [usize]) {
    let mid = data.len() / 2;
    fisher_yates::naive::fisher_yates(rng, &mut data[..mid]);
    fisher_yates::naive::fisher_yates(rng, &mut data[mid..]);
    merge_shuffle::random_merge(rng, data, mid);
}

fn preserve_elements(shuffle: Shuffle) {
    let mut rng = Pcg64Mcg::seed_from_u64(1234);

    for n in 0..1000 {
        let mut data: Vec<_> = (0..n).into_iter().map(|x| 3 * x).collect();
        shuffle(&mut rng, &mut data);
        data.sort();

        for (idx, &val) in data.iter().enumerate() {
            assert_eq!(3 * idx, val, "n={}", n);
        }
    }
}

fn test_1_independence(shuffle: Shuffle) {
    let mut rng = Pcg64Mcg::seed_from_u64(12345);

    for n in [2, 3, 4, 5, 10, 13, 29, 33, 50] {
        let runs = 5 * n * ((n as f64).ln().ceil() as usize);

        let mut positions: Vec<Vec<usize>> = (0..n)
            .into_iter()
            .map(|_| Vec::with_capacity(runs))
            .collect();

        for run in 0..runs {
            let mut data: Vec<_> = (0usize..n).into_iter().collect();
            shuffle(&mut rng, &mut data);
            for (i, &x) in data.iter().enumerate() {
                assert_eq!(positions[x].len(), run);
                positions[x].push(i);
            }
        }

        for (x, ranks) in positions.iter_mut().enumerate() {
            ranks.sort();
            ranks.dedup();

            let missing: Vec<usize> = if ranks.len() == n {
                Vec::new()
            } else {
                (0..n).into_iter().filter(|x| !ranks.contains(x)).collect()
            };

            assert_eq!(
                ranks.len(),
                n,
                "x = {}, n = {}, missin = {:?}",
                x,
                n,
                missing
            );
        }
    }
}

fn test_2_independence(shuffle: Shuffle) {
    let mut rng = Pcg64Mcg::seed_from_u64(2345);

    for n in [5usize, 17, 23] {
        let num_items = (n as f64).powi(2);
        let runs = (3.0 * num_items * num_items.ln()).ceil() as usize;

        let mut positions: Vec<Vec<usize>> = (0..n * n)
            .into_iter()
            .map(|_| Vec::with_capacity(runs))
            .collect();

        for run in 0..runs {
            let mut data: Vec<_> = (0usize..n).into_iter().collect();
            shuffle(&mut rng, &mut data);
            for (i, &x) in data.iter().enumerate() {
                for (j, &y) in data.iter().enumerate() {
                    if i == j {
                        continue;
                    }
                    let pair = x + n * y;
                    let rank = i + n * j;
                    assert_eq!(positions[pair].len(), run);
                    positions[pair].push(rank);
                }
            }
        }

        for (pair, ranks) in positions.iter_mut().enumerate() {
            if pair % n == pair / n {
                assert!(ranks.is_empty());
                continue;
            }

            ranks.sort();
            ranks.dedup();

            assert_eq!(
                ranks.len(),
                n * n - n,
                "n = {}, pair = {:?}",
                n,
                (pair % n, pair / n)
            );
        }
    }
}

fn deterministic(shuffle: Shuffle) {
    for num in [2, 5, 10, 13, 29, 50] {
        let rng = Pcg64Mcg::seed_from_u64(1234 * num);

        let runs: Vec<Vec<_>> = (0..10)
            .map(|_| {
                let mut data: Vec<_> = (0..num as usize).into_iter().map(|x| 3 * x).collect();
                let mut rng = rng.clone();
                shuffle(&mut rng, &mut data);
                data
            })
            .collect();

        for i in 1..runs.len() {
            assert_eq!(runs[0], runs[i]);
        }
        let mut sorted = runs[0].clone();
        sorted.sort();
        if num >= 10 {
            assert_ne!(runs[0], sorted);
        }
    }
}

#[test]
fn fisher_yates_preserve_elements() {
    preserve_elements(fisher_yates::fisher_yates);
    preserve_elements(fisher_yates::naive::fisher_yates);
    preserve_elements(fisher_yates::with_prefetch::fisher_yates);
    preserve_elements(fisher_yates::with_prefetch::fisher_yates_u32);
    preserve_elements(fisher_yates::with_prefetch::fisher_yates_u64);
    preserve_elements(fisher_yates::with_prefetch_alt::fisher_yates_u32);
    preserve_elements(fisher_yates::with_unsafe_algos::fisher_yates_u32);
    preserve_elements(split_adapter);
}

#[test]
fn fisher_yates_deterministic() {
    deterministic(fisher_yates::fisher_yates);
    deterministic(fisher_yates::naive::fisher_yates);
    deterministic(fisher_yates::with_prefetch::fisher_yates_u32);
    deterministic(fisher_yates::with_prefetch::fisher_yates_u64);
    deterministic(fisher_yates::with_prefetch_alt::fisher_yates_u32);
    deterministic(fisher_yates::with_unsafe_algos::fisher_yates_u32);
    deterministic(split_adapter);
}

#[test]
fn naive_fisher_yates_independence() {
    test_1_independence(fisher_yates::naive::fisher_yates);
    test_2_independence(fisher_yates::naive::fisher_yates);
}

#[test]
fn prefetch_fisher_yates_u32_independence() {
    test_1_independence(fisher_yates::with_prefetch::fisher_yates_u32);
    test_2_independence(fisher_yates::with_prefetch::fisher_yates_u32);
}

#[test]
fn prefetch_fisher_yates_u64_independence() {
    test_1_independence(fisher_yates::with_prefetch::fisher_yates_u64);
    test_2_independence(fisher_yates::with_prefetch::fisher_yates_u64);
}

#[test]
fn unrolled_fisher_yates_independence() {
    test_1_independence(fisher_yates::with_prefetch_alt::fisher_yates_u32);
    test_2_independence(fisher_yates::with_prefetch_alt::fisher_yates_u32);
}

#[test]
fn paired_words_fisher_yates_independence() {
    test_1_independence(fisher_yates::with_unsafe_algos::fisher_yates_u32);
    test_2_independence(fisher_yates::with_unsafe_algos::fisher_yates_u32);
}

#[test]
fn noncontiguous_fisher_yates_independence() {
    test_1_independence(split_adapter);
    test_2_independence(split_adapter);
}

#[test]
fn noncontiguous_fisher_yates_leaves_the_gaps_alone() {
    let mut rng = Pcg64Mcg::seed_from_u64(8);
    let mut data: Vec<usize> = (0..30).collect();
    let ranges = [Span::new(2, 7), Span::new(7, 7), Span::new(12, 20), Span::new(29, 30)];
    fisher_yates::noncontiguous::noncontiguous_fisher_yates(&mut rng, &mut data, &ranges);
    for p in (0..2).chain(7..12).chain(20..29) {
        assert_eq!(data[p], p);
    }
    let mut inside: Vec<usize> = (2..7).chain(12..20).chain(29..30).map(|p| data[p]).collect();
    assert_ne!(inside, (2..7).chain(12..20).chain(29..30).collect::<Vec<usize>>());
    inside.sort();
    assert_eq!(inside, (2..7).chain(12..20).chain(29..30).collect::<Vec<usize>>());
    assert_eq!(fisher_yates::noncontiguous::longest_range(&ranges, 4), 8);
    assert_eq!(fisher_yates::noncontiguous::longest_range(&ranges, 2), 5);
}

#[test]
fn seq_scatter_shuffle_preserve_elements() {
    preserve_elements(seq_scatter_4);
    preserve_elements(seq_scatter_adaptive_16);
    preserve_elements(seq_scatter_shuffle);
}

#[test]
fn seq_scatter_shuffle_independence() {
    test_1_independence(seq_scatter_4);
    test_2_independence(seq_scatter_4);
}

#[test]
fn seq_scatter_shuffle_deterministic() {
    deterministic(seq_scatter_4);
    deterministic(seq_scatter_adaptive_16);
}

#[test]
fn seq_scatter_shuffle_on_a_long_input() {
    let mut rng = Pcg64Mcg::seed_from_u64(4711);
    let n = 1usize << 20;
    let mut data: Vec<usize> = (0..n).collect();
    seq_scatter_shuffle(&mut rng, &mut data);
    let displaced = data.iter().enumerate().filter(|(i, x)| *i != **x).count();
    assert!(displaced > n - 100);
    data.sort();
    assert!(data.iter().enumerate().all(|(i, &x)| i == x));
}

#[test]
fn par_scatter_shuffle_preserve_elements() {
    preserve_elements(par_scatter_4);
    preserve_elements(par_scatter_shuffle);
}

#[test]
fn par_scatter_shuffle_independence() {
    test_1_independence(par_scatter_4);
    test_2_independence(par_scatter_4);
}

#[test]
fn par_scatter_shuffle_deterministic() {
    deterministic(par_scatter_4);
}

#[test]
fn par_scatter_shuffle_on_a_long_input() {
    let mut rng = Pcg64Mcg::seed_from_u64(4712);
    let n = (1usize << 21) + 17;
    let mut data: Vec<usize> = (0..n).collect();
    par_scatter_shuffle(&mut rng, &mut data);
    let displaced = data.iter().enumerate().filter(|(i, x)| *i != **x).count();
    assert!(displaced > n - 100);
    data.sort();
    assert!(data.iter().enumerate().all(|(i, &x)| i == x));
}

#[test]
fn parallel_equals_sequential_in_distribution() {
    const N: usize = 16;
    const RUNS: usize = 4096;
    let pool = rayon::ThreadPoolBuilder::new().num_threads(4).build().unwrap();
    let mut rng = Pcg64Mcg::seed_from_u64(7);
    let mut histogram = vec![vec![0usize; N]; N];
    let config = Configuration {
        seq_base_case_size: 2,
        par_base_case_size: 4,
        max_number_of_subproblems: 4,
        disable_recursion: false,
    };
    let algo = ParScatterShuffleImpl::<Pcg64Mcg, usize, Configuration, 4>::new(config);
    pool.install(|| {
        for _ in 0..RUNS {
            let mut data: Vec<usize> = (0..N).collect();
            algo.shuffle(&mut rng, &mut data);
            for (position, &value) in data.iter().enumerate() {
                histogram[value][position] += 1;
            }
        }
    });
    let expected = (RUNS / N) as f64;
    let tolerance = 3.0 * expected.sqrt();
    let chi_square: f64 = histogram
        .iter()
        .flatten()
        .map(|&count| (count as f64 - expected).powi(2) / expected)
        .sum();
    // 225 degrees of freedom
    assert!(chi_square < 300.0);
    for value in 0..N {
        for position in 0..N {
            let count = histogram[value][position] as f64;
            assert!(
                (count - expected).abs() <= tolerance,
                "value {value} at position {position}: {count}"
            );
        }
    }
}

#[test]
fn batched_merge_walks_far_on_long_halves() {
    let mut rng = Pcg64Mcg::seed_from_u64(17);
    let n = 10_000usize;
    let mut data: Vec<usize> = (0..n).collect();
    let merged = merge_shuffle::batched_rough_random_merge(&mut rng, &mut data, n / 2);
    assert!(merged > n * 9 / 10 && merged <= n);
    // the elements of the second half are merged in their order
    let from_left: Vec<usize> = data[..merged].iter().copied().filter(|x| *x < n / 2).collect();
    let from_right: Vec<usize> = data[..merged].iter().copied().filter(|x| *x >= n / 2).collect();
    assert!(from_right.windows(2).all(|w| w[0] < w[1]));
    assert!(from_left.len() > n / 4 && from_right.len() > n / 4);
    data.sort();
    assert!(data.iter().enumerate().all(|(i, &x)| i == x));
}

#[test]
fn stashed_rough_shuffle_preserve_elements() {
    let mut rng = Pcg64Mcg::seed_from_u64(0x9654_3723_3489);
    for n in 1..300 {
        let mut data: Vec<usize> = (0..n).into_iter().collect();
        let mut buckets = split_slice_into_blocks(&data, 8);
        let spans: Vec<(usize, usize)> =
            buckets.iter().map(|b| (b.span.start, b.span.end)).collect();
        rough_shuffle::stashed::rough_shuffle::<_, _, 3>(&mut rng, &mut buckets, &mut data);
        assert_eq!(
            spans,
            buckets
                .iter()
                .map(|b| (b.span.start, b.span.end))
                .collect::<Vec<(usize, usize)>>()
        );
        assert!(buckets.iter().all(|b| b.num_processed() <= b.len()));
        if n >= 64 {
            assert!(buckets.iter().map(|b| b.num_processed()).sum::<usize>() > 0);
        }
        data.sort();
        assert!(data.iter().enumerate().all(|(i, &x)| i == x));
    }
}

#[test]
fn merge_shuffle_preserve_elements() {
    preserve_elements(stepwise_merge_of_shuffled_halves);
    preserve_elements(merge_shuffle::seq_merge_shuffle);
    preserve_elements(merge_shuffle::par_merge_shuffle);
    preserve_elements(random_merge_of_shuffled_halves);
}

/// The chi-square statistic of the orders that `shuffle` gives to `n`
/// elements in `runs` runs, against all orders being equally likely, and the
/// number of orders.
fn chi_square_of_orders(shuffle: Shuffle, n: usize, runs: usize, seed: u64) -> (f64, usize) {
    let mut rng = Pcg64Mcg::seed_from_u64(seed);
    let num_orders: usize = (1..=n).product();
    let mut counts = std::collections::HashMap::new();
    for _ in 0..runs {
        let mut data: Vec<usize> = (0..n).collect();
        shuffle(&mut rng, &mut data);
        *counts.entry(data).or_insert(0usize) += 1;
    }
    let expected = runs as f64 / num_orders as f64;
    let seen: f64 = counts
        .values()
        .map(|&c| (c as f64 - expected).powi(2) / expected)
        .sum();
    let unseen = (num_orders - counts.len()) as f64 * expected;
    (seen + unseen, num_orders)
}

#[test]
fn all_orders_are_equally_likely() {
    let shuffles: [(&str, Shuffle); 10] = [
        ("stepwise_merge", stepwise_merge_of_shuffled_halves),
        ("naive", fisher_yates::naive::fisher_yates),
        ("prefetch_u32", fisher_yates::with_prefetch::fisher_yates_u32),
        ("prefetch_u64", fisher_yates::with_prefetch::fisher_yates_u64),
        ("unrolled", fisher_yates::with_prefetch_alt::fisher_yates_u32),
        ("paired", fisher_yates::with_unsafe_algos::fisher_yates_u32),
        ("noncontiguous", split_adapter),
        ("seq_scatter", seq_scatter_small),
        ("par_scatter", par_scatter_small),
        ("random_merge", random_merge_of_shuffled_halves),
    ];
    let mut report = String::new();
    let mut worst: f64 = 0.0;
    for (name, shuffle) in shuffles {
        for n in [3usize, 4, 5] {
            let (chi_square, num_orders) = chi_square_of_orders(shuffle, n, 60_000, 99);
            // the statistic has mean `num_orders - 1` and variance twice that
            let freedom = (num_orders - 1) as f64;
            let excess = (chi_square - freedom) / (2.0 * freedom).sqrt();
            report += &format!("{name} n={n}: {chi_square:.1} ({excess:.1}); ");
            worst = worst.max(excess);
        }
    }
    assert!(worst < 5.0, "{report}");
}

#[test]
fn random_merge_independence() {
    test_1_independence(random_merge_of_shuffled_halves);
    test_2_independence(random_merge_of_shuffled_halves);
}

#[test]
fn merge_shuffle_on_a_long_input() {
    let n = (1usize << 19) + 5;
    for parallel in [false, true] {
        let mut rng = Pcg64Mcg::seed_from_u64(4713);
        let mut data: Vec<usize> = (0..n).collect();
        if parallel {
            merge_shuffle::par_merge_shuffle(&mut rng, &mut data);
        } else {
            merge_shuffle::seq_merge_shuffle(&mut rng, &mut data);
        }
        let displaced = data.iter().enumerate().filter(|(i, x)| *i != **x).count();
        assert!(displaced > n - 100);
        data.sort();
        assert!(data.iter().enumerate().all(|(i, &x)| i == x));
    }
}

#[test]
fn safe_rough_random_merge_ends_inside_the_slice() {
    let mut rng = Pcg64Mcg::seed_from_u64(3);
    for n in 0..50usize {
        for mid in 0..=n {
            let mut data: Vec<usize> = (0..n).collect();
            let merged = merge_shuffle::safe_rough_random_merge(&mut rng, &mut data, mid);
            assert!(merged <= n);
            data.sort();
            assert_eq!(data, (0..n).collect::<Vec<usize>>());
        }
    }
}

fn rough_shuffle_preserves(num_buckets: usize) {
    let mut rng = Pcg64Mcg::seed_from_u64(0x9654_3723_3489);
    for n in 1..500 {
        let mut data: Vec<usize> = (0..n).into_iter().collect();

        {
            let mut buckets = split_slice_into_blocks(&data, num_buckets);
            let spans: Vec<(usize, usize)> =
                buckets.iter().map(|b| (b.span.start, b.span.end)).collect();

            rough_shuffle::rough_shuffle(&mut rng, &mut buckets, &mut data);

            assert!(buckets.iter().any(|b| b.is_fully_processed()));
            assert!(buckets.iter().all(|b| b.num_processed() <= b.len()));
            assert_eq!(
                spans,
                buckets
                    .iter()
                    .map(|b| (b.span.start, b.span.end))
                    .collect::<Vec<(usize, usize)>>()
            );

            if rng.gen_bool(0.25) {
                let num_processed: usize = buckets.iter().map(|b| b.num_processed()).sum();
                let single = compact_into_single_block(buckets, &mut data);
                assert_eq!(single.len(), n);
                assert_eq!(single.num_processed(), num_processed);
            }
        }

        data.sort();

        assert!(data.iter().enumerate().all(|(i, &x)| i == x));
    }
}

#[test]
fn rough_shuffle_preserve_elements() {
    rough_shuffle_preserves(2);
    rough_shuffle_preserves(4);
    rough_shuffle_preserves(8);
    rough_shuffle_preserves(16);
}

fn planned_rounds<const LOG_N: usize, const SWAPS: usize>(rng: &mut Pcg64Mcg) {
    let num_buckets = 1usize << LOG_N;
    let n = 3000 * num_buckets + 7;
    let mut data: Vec<usize> = (0..n).collect();
    let mut buckets = split_slice_into_blocks(&data, num_buckets);
    let spans: Vec<(usize, usize)> = buckets.iter().map(|b| (b.span.start, b.span.end)).collect();

    rough_shuffle::with_unsafe_algos::rough_shuffle::<_, _, LOG_N, SWAPS>(
        rng,
        &mut buckets,
        &mut data,
    );

    assert_eq!(
        spans,
        buckets
            .iter()
            .map(|b| (b.span.start, b.span.end))
            .collect::<Vec<(usize, usize)>>()
    );
    assert!(buckets.iter().all(|b| b.num_processed() < b.len()));
    let shortest = buckets.iter().map(|b| b.num_unprocessed()).min().unwrap();
    assert!((shortest - 1) / 2 / SWAPS <= 1);
    // the stashes have not been touched, but for the element that was on
    // its way when the rounds ended
    let mut displaced = 0;
    for b in buckets.iter() {
        for p in b.span.start + b.num_processed()..b.span.end {
            if data[p] != p {
                displaced += 1;
            }
        }
    }
    assert!(displaced <= 1);
    let moved = data.iter().enumerate().filter(|(i, x)| *i != **x).count();
    assert!(moved > n / 4);

    rough_shuffle::rough_shuffle(rng, &mut buckets, &mut data);
    assert!(buckets.iter().any(|b| b.is_fully_processed()));
    data.sort();
    assert!(data.iter().enumerate().all(|(i, &x)| i == x));
}

#[test]
fn rough_shuffle_plans_rounds_on_long_blocks() {
    let mut rng = Pcg64Mcg::seed_from_u64(0x3489);
    planned_rounds::<1, 32>(&mut rng);
    planned_rounds::<3, 10>(&mut rng);
    planned_rounds::<7, 4>(&mut rng);
    planned_rounds::<10, 3>(&mut rng);
}

#[test]
fn rough_shuffle_sends_every_origin_to_every_block() {
    const NUM_BUCKETS: usize = 4;
    const RUNS: usize = 2_000;
    let mut rng = Pcg64Mcg::seed_from_u64(0x9654_3723_3489 + 23423 * NUM_BUCKETS as u64);
    let num_elem = 200 * NUM_BUCKETS;
    let mut data = vec![0usize; num_elem];
    let mut counts = vec![vec![0u64; NUM_BUCKETS]; NUM_BUCKETS];
    for _ in 0..RUNS {
        let mut buckets = split_slice_into_blocks(&data, NUM_BUCKETS);
        for (bucket_idx, bucket) in buckets.iter().enumerate() {
            bucket.data_mut(&mut data).fill(bucket_idx);
        }
        rough_shuffle::rough_shuffle(&mut rng, &mut buckets, &mut data);
        for (destination, bucket) in buckets.iter().enumerate() {
            for &origin in bucket.data_processed(&data) {
                counts[origin][destination] += 1;
            }
        }
    }
    let total: u64 = counts.iter().flatten().sum();
    let mean = total as f64 / (NUM_BUCKETS * NUM_BUCKETS) as f64;
    for row in counts.iter() {
        for &count in row.iter() {
            assert!((count as f64 - mean).abs() < 0.02 * mean, "counts = {counts:?}");
        }
    }
}

#[test]
fn rough_shuffle_step_places_one_element() {
    let mut data: Vec<usize> = (0..12).collect();
    let mut buckets = split_slice_into_blocks(&data, 4);
    // the number 1 stands for the block after the second
    assert!(!rough_shuffle::naive::rough_shuffle_step(&mut buckets, &mut data, 1));
    assert_eq!(data, vec![6, 1, 2, 3, 4, 5, 0, 7, 8, 9, 10, 11]);
    assert_eq!(
        buckets.iter().map(|b| b.num_processed()).collect::<Vec<usize>>(),
        vec![0, 0, 1, 0]
    );
    // the last number leaves the element in the first block
    assert!(!rough_shuffle::naive::rough_shuffle_step(&mut buckets, &mut data, 3));
    assert_eq!(data, vec![6, 1, 2, 3, 4, 5, 0, 7, 8, 9, 10, 11]);
    assert_eq!(
        buckets.iter().map(|b| b.num_processed()).collect::<Vec<usize>>(),
        vec![1, 0, 1, 0]
    );
    assert!(!rough_shuffle::naive::rough_shuffle_step(&mut buckets, &mut data, 1));
    assert_eq!(data, vec![6, 7, 2, 3, 4, 5, 0, 1, 8, 9, 10, 11]);
    assert!(rough_shuffle::naive::rough_shuffle_step(&mut buckets, &mut data, 1));
    assert_eq!(data, vec![6, 8, 2, 3, 4, 5, 0, 1, 7, 9, 10, 11]);
    assert!(buckets[2].is_fully_processed());
    assert_eq!(rough_shuffle::naive::find_fully_processed(&buckets), Some(2));
}

#[test]
fn noncontiguous_partners_lie_before_the_position() {
    let ranges = [Span::new(0, 3), Span::new(5, 6), Span::new(8, 12)];
    assert!(is_partner(&ranges, 2, 1, 0, 2));
    assert!(!is_partner(&ranges, 2, 1, 0, 3));
    assert!(is_partner(&ranges, 2, 1, 1, 0));
    assert!(!is_partner(&ranges, 2, 1, 1, 1));
    assert!(is_partner(&ranges, 2, 1, 2, 1));
    assert!(!is_partner(&ranges, 2, 1, 2, 2));
}

#[test]
fn partner_by_count_stays_before_the_position() {
    let mut rng = Pcg64Mcg::seed_from_u64(12);
    let ranges = [Span::new(0, 3), Span::new(5, 5), Span::new(8, 12), Span::new(20, 21)];
    let mut seen = vec![0usize; 5];
    for _ in 0..5_000 {
        let (range, offset) = partner_by_count(&mut rng, &ranges, 2, 1);
        assert!(is_partner(&ranges, 2, 1, range, offset));
        let number = if range == 0 { offset } else { 3 + offset };
        seen[number] += 1;
    }
    assert!(seen.iter().all(|&count| count > 900 && count < 1_100));
    assert_eq!(partner_by_count(&mut rng, &ranges, 0, 0), (0, 0));
}
