use juno::math::{is_prime, largest_prime_up_to};

#[test]
fn small_primes() {
    let primes: Vec<usize> = (0..60).filter(|n| is_prime(*n)).collect();
    assert_eq!(primes, vec![2, 3, 5, 7, 11, 13, 17, 19, 23, 29, 31, 37, 41, 43, 47, 53, 59]);
}

#[test]
fn squares_and_large_numbers() {
    assert!(!is_prime(0));
    assert!(!is_prime(1));
    assert!(!is_prime(4));
    assert!(!is_prime(9));
    assert!(!is_prime(25));
    assert!(!is_prime(49));
    assert!(!is_prime(7919 * 7919));
    assert!(is_prime(7919));
    assert!(is_prime(2147483647));
    assert!(!is_prime(2147483649));
}

#[test]
fn largest_prime_below_a_capacity() {
    assert_eq!(largest_prime_up_to(0), 1);
    assert_eq!(largest_prime_up_to(1), 1);
    assert_eq!(largest_prime_up_to(2), 2);
    assert_eq!(largest_prime_up_to(3), 3);
    assert_eq!(largest_prime_up_to(4), 3);
    assert_eq!(largest_prime_up_to(10), 7);
    assert_eq!(largest_prime_up_to(13), 13);
    assert_eq!(largest_prime_up_to(100), 97);
}
