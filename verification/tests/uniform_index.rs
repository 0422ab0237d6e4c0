use rand::{Rng, SeedableRng};
use rand_pcg::Pcg64;
use rip_shuffle::uniform_index::{gen_index, impl_u32, impl_u64, U32_MAX_UPPER_BOUND};

#[test]
fn wide_multiply32() {
    let mut urng = rand_pcg::Pcg64Mcg::seed_from_u64(1234);

    for _ in 0..1000 {
        let a: u32 = urng.gen();
        let b: u32 = urng.gen();

        let (lo, hi) = impl_u32::wide_multiply(a, b);

        assert_eq!((lo as u64) | ((hi as u64) << 32), (a as u64) * (b as u64));
    }
}

#[test]
fn wide_multiply64() {
    let mut urng = rand_pcg::Pcg64Mcg::seed_from_u64(4321);

    for _ in 0..1000 {
        let a: u64 = urng.gen();
        let b: u64 = urng.gen();

        let (lo, hi) = impl_u64::wide_multiply(a, b);

        assert_eq!((lo as u128) | ((hi as u128) << 64), (a as u128) * (b as u128));
    }
    assert_eq!(impl_u64::wide_multiply(u64::MAX, u64::MAX), (1, u64::MAX - 1));
    assert_eq!(impl_u32::wide_multiply(u32::MAX, u32::MAX), (1, u32::MAX - 1));
}

#[test]
fn below_lower_u32() {
    let mut rng = Pcg64::seed_from_u64(1234);

    for ub in [1, 2, 5, 10, 1000] {
        for _ in 0..1000 {
            assert!(impl_u32::gen_index(&mut rng, ub) < ub);
        }
    }
}

#[test]
fn below_lower_u64() {
    let mut rng = Pcg64::seed_from_u64(1234);

    for ub in [1, 2, 5, 10, 1000] {
        for _ in 0..1000 {
            assert!(impl_u64::gen_index(&mut rng, ub) < ub);
        }
    }
}

#[test]
fn below_lower_usize() {
    let mut rng = Pcg64::seed_from_u64(1234);

    for ub in [1, 2, 5, 10, 1000] {
        let mut sum = 0usize;
        for _ in 0..1000 {
            let index = gen_index(&mut rng, ub);
            assert!(index < ub);
            sum += index;
        }
        if ub >= 5 {
            assert!(4 * sum >= 1000 * ub);
            assert!(4 * sum <= 3 * 1000 * ub);
        }
    }
}

#[test]
fn match_expected_u32() {
    let mut rng = Pcg64::seed_from_u64(12345);
    const ITERATIONS: u64 = 1000;

    for ub in [100, 1000, 10000, u32::MAX] {
        let sum: u128 = (0..ITERATIONS)
            .map(|_| impl_u32::gen_index(&mut rng, ub) as u128)
            .sum();

        assert!(sum > ITERATIONS as u128 * (ub as u128) / 4);
        assert!(sum < ITERATIONS as u128 * (ub as u128) * 3 / 4);
    }
}

#[test]
fn match_expected_u64() {
    let mut rng = Pcg64::seed_from_u64(12345);
    const ITERATIONS: u64 = 1000;

    for ub in [100, 1000, 10000, u64::MAX] {
        let sum: u128 = (0..ITERATIONS)
            .map(|_| impl_u64::gen_index(&mut rng, ub) as u128)
            .sum();

        assert!(sum > ITERATIONS as u128 * (ub as u128) / 4);
        assert!(sum < ITERATIONS as u128 * (ub as u128) * 3 / 4);
    }
}

#[test]
fn match_expected_usize() {
    let mut rng = Pcg64::seed_from_u64(12345);
    const ITERATIONS: u64 = 1000;

    for ub in [100, 1000, 10000, U32_MAX_UPPER_BOUND as usize + 1, usize::MAX] {
        let sum: u128 = (0..ITERATIONS)
            .map(|_| gen_index(&mut rng, ub) as u128)
            .sum();

        assert!(sum > ITERATIONS as u128 * (ub as u128) / 4);
        assert!(sum < ITERATIONS as u128 * (ub as u128) * 3 / 4);
    }
}

#[test]
fn gen_index_impl_takes_an_accepted_first_word() {
    let mut rng = Pcg64::seed_from_u64(7);
    // 2^32 mod 10 = 6: a word is accepted where the low word of its product
    // with 10 is 6 at least
    assert_eq!(impl_u32::gen_index_impl(&mut rng, 0x8000_0001, 10), 5);
    assert_eq!(impl_u32::gen_index_impl(&mut rng, 0xffff_ffff, 10), 9);
    assert_eq!(impl_u32::gen_index_impl(&mut rng, 1, 10), 0);
    // 2^64 mod 6 = 4
    assert_eq!(impl_u64::gen_index_impl(&mut rng, (1 << 63) + 1, 6), 3);
    for initial in [0u32, 1, 2, 3, 0xffff_fff0] {
        assert_eq!(impl_u32::gen_index_impl(&mut rng, initial, 1), 0);
    }
}

#[test]
fn gen_index_pair_stays_below_both_bounds() {
    let mut rng = Pcg64::seed_from_u64(77);
    let mut sums = (0u64, 0u64);
    for _ in 0..1000 {
        let (a, b) = impl_u32::gen_index_pair(&mut rng, (1000, 7));
        assert!(a < 1000 && b < 7);
        sums.0 += a as u64;
        sums.1 += b as u64;
    }
    assert!(sums.0 > 1000 * 1000 / 4 && sums.0 < 1000 * 1000 * 3 / 4);
    assert!(sums.1 > 1000 * 7 / 4 && sums.1 < 1000 * 7 * 3 / 4);
    for _ in 0..100 {
        assert_eq!(impl_u32::gen_index_pair(&mut rng, (1, 1)), (0, 0));
    }
}
