use beamsearch_tsp::utility::{calc_commutative_hash, calc_next_prime_not_above, is_prime, HASH_MODULUS};
use rand::{rngs::StdRng, seq::SliceRandom, SeedableRng};

#[test]
pub fn test_is_prime() {
    assert!(!is_prime(0));
    assert!(!is_prime(1));
    assert!(is_prime(2));
    assert!(is_prime(3));
    assert!(!is_prime(4));
    assert!(is_prime(5));
    assert!(is_prime(4294967291));
    assert!(!is_prime(4294967294));
    assert!(!is_prime(4294967295));
}

#[test]
pub fn test_calc_next_prime_not_above() {
    assert_eq!(calc_next_prime_not_above(10), 7);
    assert_eq!(calc_next_prime_not_above(11), 11);
    assert_eq!(calc_next_prime_not_above(12), 11);
    assert_eq!(calc_next_prime_not_above(13), 13);
    assert_eq!(calc_next_prime_not_above(14), 13);
    assert_eq!(calc_next_prime_not_above(15), 13);
    assert_eq!(calc_next_prime_not_above(16), 13);
    assert_eq!(calc_next_prime_not_above(17), 17);
    assert_eq!(calc_next_prime_not_above(4294967295), 4294967291);
}

#[test]
pub fn test_calc_commutative_hash_is_never_zero() {
    let mut hash = 1;
    for i in 0..1000 {
        hash = calc_commutative_hash(hash, i);
        assert!(hash != 0);
    }
}

#[test]
pub fn test_calc_commutative_hash_is_commutative() {
    let mut hash_forward = 1;
    for i in 1..1000 {
        hash_forward = calc_commutative_hash(hash_forward, i);
    }

    let mut hash_backward = 1;
    for i in (1..1000).rev() {
        hash_backward = calc_commutative_hash(hash_backward, i);
    }
    assert_eq!(hash_forward, hash_backward);

    let mut rng = StdRng::seed_from_u64(42);

    let mut indices = (0..1000).collect::<Vec<usize>>();

    for _ in 1..10 {
        indices.shuffle(&mut rng);

        let mut hash_shuffled = 0;
        for node in &indices {
            hash_shuffled = calc_commutative_hash(hash_shuffled, *node);
        }
        assert_eq!(hash_backward, hash_shuffled);
    }
}

#[test]
fn hash_modulus_is_the_prime_below_the_bound() {
    assert_eq!(HASH_MODULUS, calc_next_prime_not_above(u32::MAX / 1000));
}

#[test]
fn small_primes_and_composites() {
    let primes: Vec<u32> = (0..60).filter(|n| is_prime(*n)).collect();
    assert_eq!(
        primes,
        vec![2, 3, 5, 7, 11, 13, 17, 19, 23, 29, 31, 37, 41, 43, 47, 53, 59]
    );
    assert!(!is_prime(25));
    assert!(!is_prime(49));
    assert!(!is_prime(65535 * 65535 / 65535 * 3));
    assert!(is_prime(HASH_MODULUS));
}

#[test]
fn hash_step_values() {
    assert_eq!(calc_commutative_hash(0, 0), 1);
    assert_eq!(calc_commutative_hash(0, 4), 5);
    assert_eq!(calc_commutative_hash(3, 1), 6);
    assert_eq!(calc_commutative_hash(HASH_MODULUS - 1, 1), HASH_MODULUS - 2);
    assert_eq!(calc_commutative_hash(1, HASH_MODULUS as usize - 1), 0);
}
