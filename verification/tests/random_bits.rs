use rand::SeedableRng;
use rand_pcg::Pcg64;
use rip_shuffle::random_bits::RandomBitsSource;

#[test]
fn gen_bits_below_lower() {
    let mut rng = Pcg64::seed_from_u64(1234789);
    let mut rbs = RandomBitsSource::new();

    for num_bits in [1, 2, 5, 10, 20, 50, 63] {
        let exclusive_upper_bound = 1u64 << num_bits;

        for _ in 0..1000 {
            assert!(rbs.gen_bits(&mut rng, num_bits) < exclusive_upper_bound);
        }
    }
}

#[test]
fn gen_bits_expected_num_bits() {
    const NUM_ITERATIONS: u64 = 10_000;
    let mut rng = Pcg64::seed_from_u64(234789);
    let mut rbs = RandomBitsSource::new();

    for num_bits in [1u64, 2, 5, 10, 20, 50, 63] {
        let bit_sum: u64 = (0..NUM_ITERATIONS)
            .into_iter()
            .map(|_| rbs.gen_bits(&mut rng, num_bits as usize).count_ones() as u64)
            .sum();

        assert!(4 * bit_sum > NUM_ITERATIONS * num_bits);
        assert!(4 * bit_sum < 3 * NUM_ITERATIONS * num_bits);
    }
}

#[test]
fn gen_bits_of_full_width_leaves_the_cache_alone() {
    let mut rng = Pcg64::seed_from_u64(99);
    let mut rbs = RandomBitsSource::new();
    rbs.gen_bits(&mut rng, 4);
    let (bits, available) = (rbs.random_bits, rbs.num_available);
    assert_eq!(available, 60);
    rbs.gen_bits(&mut rng, 64);
    assert_eq!((rbs.random_bits, rbs.num_available), (bits, available));
    assert_eq!(rbs.gen_bits(&mut rng, 0), 0);
}

#[test]
fn gen_bits_serves_from_the_cache() {
    let mut rng = Pcg64::seed_from_u64(5);
    let mut rbs = RandomBitsSource { random_bits: 0b1011_0110, num_available: 8 };
    assert_eq!(rbs.gen_bits(&mut rng, 3), 0b110);
    assert_eq!((rbs.random_bits, rbs.num_available), (0b1_0110, 5));
    assert_eq!(rbs.gen_const_bits::<2, _>(&mut rng), 0b10);
    assert_eq!((rbs.random_bits, rbs.num_available), (0b101, 3));
    assert!(!rbs.gen_bool(&mut rng));
    assert!(rbs.gen_bool(&mut rng));
    assert_eq!((rbs.random_bits, rbs.num_available), (0b1, 1));
}

#[test]
fn gen_const_bits_expected_num_bits() {
    test_const_bits_expected_num_bits::<1>();
    test_const_bits_expected_num_bits::<2>();
    test_const_bits_expected_num_bits::<5>();
    test_const_bits_expected_num_bits::<10>();
    test_const_bits_expected_num_bits::<16>();
    test_const_bits_expected_num_bits::<31>();
}

#[test]
fn gen_const_bits_below_lower() {
    test_const_bits_below_lower::<1>();
    test_const_bits_below_lower::<2>();
    test_const_bits_below_lower::<5>();
    test_const_bits_below_lower::<10>();
    test_const_bits_below_lower::<16>();
    test_const_bits_below_lower::<31>();
}

fn test_const_bits_below_lower<const N: usize>() {
    let mut rng = Pcg64::seed_from_u64(1234789 * N as u64 + 3242);
    let mut rbs = RandomBitsSource::new();

    let exclusive_upper_bound = 1u32 << N;

    for _ in 0..1000 {
        assert!(rbs.gen_const_bits::<N, _>(&mut rng) < exclusive_upper_bound);
    }
}

fn test_const_bits_expected_num_bits<const N: usize>() {
    const NUM_ITERATIONS: u64 = 10_000;
    let mut rng = Pcg64::seed_from_u64(23474789 * N as u64 + 3242);
    let mut rbs = RandomBitsSource::new();

    let bit_sum: u64 = (0..NUM_ITERATIONS)
        .into_iter()
        .map(|_| rbs.gen_const_bits::<N, _>(&mut rng).count_ones() as u64)
        .sum();

    assert!(4 * bit_sum > NUM_ITERATIONS * N as u64);
    assert!(4 * bit_sum < 3 * NUM_ITERATIONS * N as u64);
}

#[test]
fn gen_bool_expected_num_bits() {
    const NUM_ITERATIONS: u64 = 10_000;
    let mut rng = Pcg64::seed_from_u64(234747893);
    let mut rbs = RandomBitsSource::new();

    let bit_sum: u64 = (0..NUM_ITERATIONS)
        .into_iter()
        .map(|_| rbs.gen_bool(&mut rng) as u64)
        .sum();

    assert!(4 * bit_sum > NUM_ITERATIONS);
    assert!(4 * bit_sum < 3 * NUM_ITERATIONS);
}
