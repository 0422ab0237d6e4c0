use rand::SeedableRng;
use rip_shuffle::prefetch;
use rip_shuffle::profiler::{NoProfiler, Profiler, ProfilerFrame};
use rip_shuffle::prelude::{Configuration, ParConfiguration, SeqConfiguration};
use rip_shuffle::random_bits::RandomBitsSource;
use rip_shuffle::uniform_index::{REDRAW_LIMIT, U32_MAX_UPPER_BOUND};

#[test]
fn configuration_defaults() {
    let seq = Configuration::sequential();
    assert_eq!(seq.seq_base_case_size(), 1 << 18);
    assert!(!seq.seq_disable_recursion());

    let par = Configuration::parallel();
    assert_eq!(par.seq_base_case_size(), 1 << 16);
    assert_eq!(par.par_base_case_size(), 1 << 20);
    assert!(!par.par_disable_recursion());

    let default = Configuration::default();
    assert_eq!(default.seq_base_case_size, seq.seq_base_case_size);
    assert_eq!(default.par_base_case_size, seq.par_base_case_size);
    assert_eq!(default.max_number_of_subproblems, 2040);
}

#[test]
fn number_of_subproblems_is_clamped() {
    let par = Configuration::parallel();
    assert_eq!(par.par_number_of_subproblems(0), 1);
    assert_eq!(par.par_number_of_subproblems((1 << 20) - 1), 1);
    assert_eq!(par.par_number_of_subproblems(1 << 20), 1);
    assert_eq!(par.par_number_of_subproblems(5 << 20), 5);
    assert_eq!(par.par_number_of_subproblems((2040 << 20) + 77), 2040);
    assert_eq!(par.par_number_of_subproblems(4000 << 20), 2040);

    let odd = Configuration {
        seq_base_case_size: 1,
        par_base_case_size: 0,
        max_number_of_subproblems: 0,
        disable_recursion: true,
    };
    assert_eq!(odd.par_number_of_subproblems(100), 1);
    assert!(odd.seq_disable_recursion() && odd.par_disable_recursion());
}

#[test]
fn disabled_recursion_leaves_the_blocks_unshuffled() {
    let config = Configuration {
        seq_base_case_size: 16,
        par_base_case_size: 16,
        max_number_of_subproblems: 1,
        disable_recursion: true,
    };
    let mut rng = rand_pcg::Pcg64Mcg::seed_from_u64(3);
    let mut data: Vec<usize> = (0..4000).collect();
    rip_shuffle::scatter_shuffle::sequential::SeqScatterShuffleImpl::<_, _, _, 4>::new(config)
        .shuffle(&mut rng, &mut data);
    assert_ne!(data, (0..4000).collect::<Vec<usize>>());
    // the elements that stay in their block keep their order in the rough
    // shuffle as far as they are not moved to make room
    let mut sorted = data.clone();
    sorted.sort();
    assert_eq!(sorted, (0..4000).collect::<Vec<usize>>());
}

#[test]
fn constants() {
    assert_eq!(U32_MAX_UPPER_BOUND, u32::MAX / 16);
    assert!(REDRAW_LIMIT >= 1 << 16);
    assert!(!prefetch::SUPPORTED);
    let item = 5u8;
    prefetch::prefetch_write_data(&item);
    let fresh = RandomBitsSource::default();
    assert_eq!((fresh.random_bits, fresh.num_available), (0, 0));
}

#[test]
fn no_profiler_takes_every_region() {
    let profiler = NoProfiler::default();
    let mut frame = profiler.start("rough shuffle");
    frame.new_region("stashes");
    let config = Configuration::parallel();
    config.get_profiler().start("blocks").new_region("done");
}

#[test]
fn default_drivers_shuffle_with_the_default_sizes() {
    let mut rng = rand_pcg::Pcg64Mcg::seed_from_u64(9);
    let mut data: Vec<usize> = (0..5000).collect();
    let seq = rip_shuffle::scatter_shuffle::sequential::SeqScatterShuffleImpl::<
        _,
        _,
        Configuration,
        128,
    >::default();
    assert_eq!(seq.config.seq_base_case_size, 1 << 18);
    seq.shuffle(&mut rng, &mut data);
    assert_ne!(data, (0..5000).collect::<Vec<usize>>());
    let par = rip_shuffle::scatter_shuffle::parallel::ParScatterShuffleImpl::<
        _,
        _,
        Configuration,
        64,
    >::default();
    par.shuffle(&mut rng, &mut data);
    data.sort();
    assert_eq!(data, (0..5000).collect::<Vec<usize>>());
}
