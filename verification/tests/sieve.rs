use segmented_sieve::sieve::{ceil_sqrt, compute_primes, eratosthenes_segment_thread};

/// Reference check by trial division.
fn is_prime_naive(n: usize) -> bool {
    if n < 2 {
        return false;
    }
    let mut d: usize = 2;
    while d < n {
        if n % d == 0 {
            return false;
        }
        d += 1;
    }
    true
}

#[test]
fn limits_below_two_give_empty_results() {
    assert_eq!(compute_primes(0, 1), Vec::<usize>::new());
    assert_eq!(compute_primes(1, 3), Vec::<usize>::new());
    assert_eq!(compute_primes(0, 8), Vec::<usize>::new());
}

#[test]
fn primes_up_to_ten() {
    assert_eq!(compute_primes(10, 1), vec![2, 3, 5, 7]);
}

#[test]
fn primes_up_to_thirty() {
    assert_eq!(compute_primes(30, 4), vec![2, 3, 5, 7, 11, 13, 17, 19, 23, 29]);
}

#[test]
fn base_threshold_returns_base_set_plus_the_rest() {
    let primes = compute_primes(230, 1);
    assert_eq!(&primes[..7], &[2, 3, 5, 7, 11, 13, 17]);
    assert!(primes[7..].iter().all(|&p| 17 < p && p <= 230));
    assert_eq!(primes.len(), 50);
    assert_eq!(primes.last(), Some(&229));
}

#[test]
fn result_is_independent_of_thread_count() {
    for limit in [0usize, 1, 2, 10, 100, 229, 230, 231, 1000] {
        let reference = compute_primes(limit, 1);
        for threads in [2usize, 4, 17] {
            assert_eq!(compute_primes(limit, threads), reference, "limit {limit}, threads {threads}");
        }
    }
}

#[test]
fn zero_threads_behave_as_one() {
    assert_eq!(compute_primes(30, 0), compute_primes(30, 1));
    assert_eq!(compute_primes(0, 0), Vec::<usize>::new());
}

#[test]
fn more_threads_than_candidates_is_fine() {
    assert_eq!(compute_primes(50, 64), compute_primes(50, 1));
    assert_eq!(compute_primes(2, 16), vec![2]);
}

#[test]
fn seeding_is_idempotent() {
    // The seeds for a limit are the primes up to its ceiling square root,
    // so computing them directly must give the prefix of the full result.
    for (limit, threads) in [(1000usize, 4usize), (100000, 3), (231, 2)] {
        let s = ceil_sqrt(limit);
        let direct = compute_primes(s, threads);
        let full = compute_primes(limit, 1);
        let prefix: Vec<usize> = full.iter().copied().filter(|&p| p <= s).collect();
        assert_eq!(direct, prefix, "limit {limit}");
    }
}

#[test]
fn every_element_is_prime_and_strictly_increasing() {
    let primes = compute_primes(1000, 3);
    for window in primes.windows(2) {
        assert!(window[0] < window[1]);
    }
    for &p in &primes {
        assert!(is_prime_naive(p), "{p} is not prime");
    }
    for n in 0..=1000usize {
        assert_eq!(primes.contains(&n), is_prime_naive(n), "membership of {n}");
    }
}

#[test]
fn reference_counts_match() {
    assert_eq!(compute_primes(2, 1).len(), 1);
    assert_eq!(compute_primes(10, 1).len(), 4);
    assert_eq!(compute_primes(25, 1).len(), 9);
    assert_eq!(compute_primes(100, 1).len(), 25);
    assert_eq!(compute_primes(231, 1).len(), 50);
    assert_eq!(compute_primes(1000, 1).len(), 168);
    assert_eq!(compute_primes(100000, 2).len(), 9592);
}

#[test]
fn small_exact_sequences() {
    assert_eq!(compute_primes(2, 1), vec![2]);
    assert_eq!(compute_primes(3, 1), vec![2, 3]);
    assert_eq!(compute_primes(4, 1), vec![2, 3]);
    assert_eq!(compute_primes(17, 1), vec![2, 3, 5, 7, 11, 13, 17]);
    assert_eq!(compute_primes(25, 2), vec![2, 3, 5, 7, 11, 13, 17, 19, 23]);
}

#[test]
fn prime_limit_is_included() {
    assert_eq!(compute_primes(29, 1).last(), Some(&29));
    assert_eq!(compute_primes(229, 3).last(), Some(&229));
    assert_eq!(compute_primes(997, 2).last(), Some(&997));
}

#[test]
fn worker_returns_survivors_of_its_range() {
    let seeds: Vec<usize> = vec![2, 3, 5, 7];
    let got = eratosthenes_segment_thread(&seeds, 10, 30, 5);
    assert_eq!(got, vec![11, 13, 17, 19, 23, 29]);
}

#[test]
fn worker_with_no_seeds_keeps_everything() {
    let seeds: Vec<usize> = Vec::new();
    assert_eq!(eratosthenes_segment_thread(&seeds, 5, 8, 3), vec![5, 6, 7]);
}

#[test]
fn worker_on_empty_range_returns_nothing() {
    let seeds: Vec<usize> = vec![2, 3];
    assert_eq!(eratosthenes_segment_thread(&seeds, 30, 30, 10), Vec::<usize>::new());
    assert_eq!(eratosthenes_segment_thread(&seeds, 30, 20, 10), Vec::<usize>::new());
}

#[test]
fn worker_marks_seed_multiples_including_the_seeds() {
    // A seed that lies inside the range is itself marked, so it is not
    // reported again by the worker.
    let seeds: Vec<usize> = vec![2, 3, 5, 7, 11, 13, 17];
    let got = eratosthenes_segment_thread(&seeds, 10, 20, 4);
    assert_eq!(got, vec![19]);
}

#[test]
fn ceiling_square_root_is_exact() {
    assert_eq!(ceil_sqrt(1), 1);
    assert_eq!(ceil_sqrt(2), 2);
    assert_eq!(ceil_sqrt(4), 2);
    assert_eq!(ceil_sqrt(5), 3);
    assert_eq!(ceil_sqrt(16), 4);
    assert_eq!(ceil_sqrt(17), 5);
    assert_eq!(ceil_sqrt(230), 16);
    assert_eq!(ceil_sqrt(1000), 32);
    assert_eq!(ceil_sqrt(100000), 317);
}
