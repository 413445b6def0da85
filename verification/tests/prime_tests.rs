use prime_windows::generation::generate_primes;
use prime_windows::primality::is_prime;
use prime_windows::window::longest_sum_of_consecutive_primes;

/// Straightforward re-implementation of the pruned window search, used as an
/// oracle: end indices stay strictly below the length, the inner scan starts
/// at `i + best_length`, and sums are taken in 64 bits.
fn oracle_search(primes: &[u32], target: u32) -> (u32, usize) {
    let mut best_length: usize = 0;
    let mut best_sum: u32 = 0;
    for i in 0..primes.len() {
        for j in i + best_length..primes.len() {
            let sum: u64 = primes[i..j].iter().map(|&x| x as u64).sum();
            if sum > target as u64 {
                break;
            }
            if oracle_is_prime(sum) && j - i > best_length {
                best_length = j - i;
                best_sum = sum as u32;
            }
        }
    }
    (best_sum, best_length)
}

fn oracle_is_prime(n: u64) -> bool {
    if n <= 1 {
        return false;
    }
    let mut i: u64 = 2;
    while i * i <= n {
        if n % i == 0 {
            return false;
        }
        i += 1;
    }
    true
}

#[test]
fn small_numbers_are_not_prime() {
    assert!(!is_prime(0));
    assert!(!is_prime(1));
}

#[test]
fn primality_scenarios() {
    assert!(is_prime(2));
    assert!(!is_prime(1));
    assert!(!is_prime(9));
    assert!(is_prime(97));
}

#[test]
fn primality_more_values() {
    assert!(is_prime(3));
    assert!(!is_prime(4));
    assert!(is_prime(5));
    assert!(!is_prime(25));
    assert!(is_prime(7919));
    assert!(!is_prime(7917));
}

#[test]
fn primality_near_top_of_range() {
    assert!(is_prime(4294967291));
    assert!(!is_prime(4294967295));
    assert!(!is_prime(4294967294));
}

#[test]
fn primality_matches_divisor_count() {
    for n in 0u32..200 {
        let divisors = (1..=n.max(1)).filter(|d| n >= 1 && n % d == 0).count();
        assert_eq!(is_prime(n), n >= 1 && divisors == 2, "n = {}", n);
    }
}

#[test]
fn generate_primes_to_ten() {
    assert_eq!(generate_primes(10), vec![2, 3, 5, 7]);
}

#[test]
fn generate_primes_below_two_is_empty() {
    assert_eq!(generate_primes(1), Vec::<u32>::new());
    assert_eq!(generate_primes(0), Vec::<u32>::new());
}

#[test]
fn generate_primes_inclusive_bound() {
    assert_eq!(generate_primes(2), vec![2]);
    assert_eq!(generate_primes(13), vec![2, 3, 5, 7, 11, 13]);
}

#[test]
fn generate_primes_to_hundred() {
    let primes = generate_primes(100);
    assert_eq!(primes.len(), 25);
    assert_eq!(*primes.first().unwrap(), 2);
    assert_eq!(*primes.last().unwrap(), 97);
    for w in primes.windows(2) {
        assert!(w[0] < w[1]);
    }
    for &p in &primes {
        assert!(is_prime(p));
    }
}

#[test]
fn window_scenario_to_41() {
    let primes = vec![2, 3, 5, 7, 11, 13];
    let expected = oracle_search(&primes, 41);
    let got = longest_sum_of_consecutive_primes(primes, 41);
    assert_eq!(got, expected);
    // [2, 3, 5, 7] sums to 17, which is prime; no reachable longer window
    // qualifies, since end indices stay below the last element.
    assert_eq!(got, (17, 4));
}

#[test]
fn window_agrees_with_oracle() {
    for target in [0u32, 1, 2, 10, 41, 100, 1000, 4000] {
        let primes = generate_primes(100);
        let expected = oracle_search(&primes, target);
        let got = longest_sum_of_consecutive_primes(primes, target);
        assert_eq!(got, expected, "target = {}", target);
    }
}

#[test]
fn window_empty_input() {
    assert_eq!(longest_sum_of_consecutive_primes(Vec::new(), 100), (0, 0));
}

#[test]
fn window_single_element_is_never_summed() {
    // With one element there is no window whose end stays below the length.
    assert_eq!(longest_sum_of_consecutive_primes(vec![2], 100), (0, 0));
}

#[test]
fn window_zero_target() {
    assert_eq!(longest_sum_of_consecutive_primes(vec![2, 3, 5], 0), (0, 0));
}

#[test]
fn window_keeps_first_record_of_winning_length() {
    // [2, 3) and [1, 3) both span two elements and have prime sums 5 and 7,
    // but the earlier window sets the record first and is kept.
    let got = longest_sum_of_consecutive_primes(vec![2, 3, 4, 1], 7);
    assert_eq!(got, oracle_search(&[2, 3, 4, 1], 7));
    assert_eq!(got, (5, 2));
}

#[test]
fn window_sum_is_taken_in_wide_arithmetic() {
    // The running sum of [0, 2) exceeds the 32-bit range; it is discarded
    // against the target rather than wrapping.
    let primes = vec![4000000000, 4000000000, 11];
    let got = longest_sum_of_consecutive_primes(primes.clone(), u32::MAX);
    assert_eq!(got, oracle_search(&primes, u32::MAX));
    assert_eq!(got, (0, 0));
}

#[test]
fn window_large_single_prime() {
    let primes = vec![4294967291, 2];
    let got = longest_sum_of_consecutive_primes(primes.clone(), 4294967293);
    assert_eq!(got, oracle_search(&primes, 4294967293));
    assert_eq!(got, (4294967291, 1));
}

#[test]
fn repeated_calls_agree() {
    assert_eq!(is_prime(97), is_prime(97));
    assert_eq!(generate_primes(50), generate_primes(50));
    let primes = generate_primes(20);
    assert_eq!(
        longest_sum_of_consecutive_primes(primes.clone(), 50),
        longest_sum_of_consecutive_primes(primes, 50)
    );
}

#[test]
fn generator_feeds_search() {
    let primes = generate_primes(13);
    let got = longest_sum_of_consecutive_primes(primes.clone(), 41);
    assert_eq!(got, oracle_search(&primes, 41));
    assert_eq!(got, (17, 4));
}
