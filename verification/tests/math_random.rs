use blastcap::math::{isqrt, Vec2, Vec3};
use blastcap::poolcheck::{check_distribution, check_pool, check_repeats};
use blastcap::random::{Random, POOL_SIZE, SOURCE};

#[test]
fn isqrt_exact_values() {
    assert_eq!(isqrt(0), 0);
    assert_eq!(isqrt(1), 1);
    assert_eq!(isqrt(15), 3);
    assert_eq!(isqrt(16), 4);
    assert_eq!(isqrt(17), 4);
    assert_eq!(isqrt(u64::MAX), 4_294_967_295);
}

#[test]
fn vec2_distance_is_rounded_down() {
    assert_eq!(Vec2::new(0, 0).distance(Vec2::new(3, 4)), 5);
    assert_eq!(Vec2::new(1, 1).distance(Vec2::new(2, 2)), 1);
    assert_eq!(Vec2::new(7, 9).distance(Vec2::new(7, 9)), 0);
}

#[test]
fn vec2_distance_symmetric() {
    let a = Vec2::new(2, 11);
    let b = Vec2::new(9, 3);
    assert_eq!(a.distance(b), b.distance(a));
}

#[test]
fn vec3_arithmetic() {
    let a = Vec3::new(1, -2, 3);
    assert_eq!(a.add_scalar(2), Vec3::new(3, 0, 5));
    assert_eq!(Vec3::new(7, -7, 8).div_scalar(2), Vec3::new(3, -3, 4));
    assert_eq!(a.add(Vec3::new(1, 1, 1)), Vec3::new(2, -1, 4));
    assert_eq!(Vec3::new(0, 0, 0).grid_distance(Vec3::new(2, 3, 6)), 7);
    assert_eq!(Vec3::new(0, 0, 0).distance_capped(Vec3::new(i64::MAX, 0, 0)), 4_294_967_295);
}

static SMALL_POOL: [u8; 3] = [1, 2, 3];

#[test]
fn random_bytes_follow_the_pool() {
    // index 1, increment 2, state 5
    let mut r = Random::with_pool(0x0001_0002_0000_0005, &SMALL_POOL);
    assert_eq!(r.get_u8(), 9);
    assert_eq!(r.get_u8(), 12);
    assert_eq!(r.get_u8(), 12);
    assert_eq!(r.get_u8(), 15);
}

#[test]
fn random_wide_values_are_little_endian() {
    let mut r = Random::with_pool(0x0001_0002_0000_0005, &SMALL_POOL);
    let v: u16 = r.get::<u16>();
    assert_eq!(v, 9 + 12 * 256);
    let w: i8 = r.get::<i8>();
    assert_eq!(w, 12);
}

#[test]
fn random_range_stays_in_range() {
    let mut r = Random::new(0xdead_beef_1234_5678);
    for _ in 0..1000 {
        let v: i32 = r.get_range(-5..7);
        assert!((-5..7).contains(&v));
        let u: u64 = r.get_range(4..17);
        assert!((4..17).contains(&u));
    }
}

#[test]
fn random_same_seed_same_sequence() {
    let mut a = Random::new(42);
    let mut b = Random::new(42);
    for _ in 0..100 {
        assert_eq!(a.get::<u64>(), b.get::<u64>());
    }
}

#[test]
fn random_bytes_stay_below_255() {
    let mut r = Random::new(7);
    for _ in 0..5000 {
        assert!(r.get_u8() < 255);
    }
}

#[test]
fn random_pool_size() {
    assert_eq!(POOL_SIZE, 1024);
    assert_eq!(SOURCE.len(), POOL_SIZE);
}

#[test]
fn pool_checks_agree_with_the_draws() {
    for seed in [0u64, 42, 0x1234_5678_9abc_def0, u64::MAX] {
        let mut r = Random::new(seed);
        let first = r.get_u8();
        for _ in 0..POOL_SIZE - 1 {
            r.get_u8();
        }
        let again = r.get_u8();
        assert_eq!(check_repeats(seed, &SOURCE).is_err(), first == again);

        let mut r = Random::new(seed);
        let mut counts = vec![0u64; 255];
        for _ in 0..10000 {
            counts[r.get_u8() as usize] += 1;
        }
        let mean = counts.iter().sum::<u64>() / 255;
        assert_eq!(mean, 39);
        counts.sort();
        let median = counts[127];
        let expected = if (30..=48).contains(&median) { Ok(()) } else { Err("u8: bad median") };
        assert_eq!(check_distribution(seed, &SOURCE), expected);
        if first == again {
            assert_eq!(check_pool(seed, &SOURCE), Err("repeat"));
        } else {
            assert_eq!(check_pool(seed, &SOURCE), expected);
        }
    }
}

static FLAT_POOL: [u8; 1] = [0];

#[test]
fn a_flat_pool_repeats_with_no_increment() {
    // one byte, no increment: every draw is the same
    assert_eq!(check_repeats(0, &FLAT_POOL), Err("repeat"));
}

#[test]
fn positions_as_text() {
    assert_eq!(Vec3::new(1, -2, 3).to_string(), "(1, -2, 3)");
    assert_eq!(
        Vec3::new(i64::MIN, 0, i64::MAX).to_string(),
        "(-9223372036854775808, 0, 9223372036854775807)"
    );
    assert_eq!(Vec2::new(3, 40).to_string(), "(3, 40)");
}

static ROUND_POOL: [u8; 3] = [1, 2, 3];

#[test]
fn generator_comes_round_the_pool() {
    // no increment and no accumulator: the pool is read as it is, round and round
    let mut r = Random::with_pool(0, &ROUND_POOL);
    let got: Vec<u8> = (0..7).map(|_| r.get_u8()).collect();
    assert_eq!(got, vec![1, 2, 3, 1, 2, 3, 1]);
}

#[test]
fn wide_draws_read_sixteen_bytes() {
    let mut a = Random::new(0x1234_5678_9abc_def0);
    let wide: u128 = a.get();
    let mut b = Random::new(0x1234_5678_9abc_def0);
    let lo: u64 = b.get();
    let hi: u64 = b.get();
    assert_eq!(wide, lo as u128 + ((hi as u128) << 64));
    let signed: i128 = Random::new(0x1234_5678_9abc_def0).get();
    assert_eq!(signed, wide as i128);
    let mut c = Random::new(7);
    for _ in 0..20 {
        let v: i128 = c.get_range(-5i128..5i128);
        assert!((-5..5).contains(&v));
    }
}
