use menu_numerics::sieve::parse_bound;
use menu_numerics::sieve::sieve_primes;
use menu_numerics::sieve::Sieve;

#[test]
fn primes_up_to_thirty() {
    assert_eq!(sieve_primes(30), vec![2, 3, 5, 7, 11, 13, 17, 19, 23, 29]);
}

#[test]
fn primes_up_to_two() {
    assert_eq!(sieve_primes(2), vec![2]);
}

#[test]
fn primes_up_to_small_bounds() {
    assert_eq!(sieve_primes(3), vec![2, 3]);
    assert_eq!(sieve_primes(4), vec![2, 3]);
    assert_eq!(sieve_primes(10), vec![2, 3, 5, 7]);
    assert_eq!(sieve_primes(11), vec![2, 3, 5, 7, 11]);
}

#[test]
fn primes_up_to_hundred_by_trial_division() {
    let got = sieve_primes(100);
    let mut expected: Vec<usize> = Vec::new();
    for n in 2..=100usize {
        let mut divisible = false;
        for d in 2..n {
            if n % d == 0 {
                divisible = true;
            }
        }
        if !divisible {
            expected.push(n);
        }
    }
    assert_eq!(got, expected);
}

#[test]
fn stepped_sieve_matches_whole_run() {
    let mut s = Sieve::new(30);
    while !s.is_done() {
        let p = s.current_candidate();
        assert!(2 <= p && p <= 30);
        s.step();
    }
    assert_eq!(s.primes(), sieve_primes(30));
}

#[test]
fn bound_accepts_numbers_above_one() {
    assert_eq!(parse_bound(b"2"), Some(2));
    assert_eq!(parse_bound(b" 30 \n"), Some(30));
}

#[test]
fn bound_rejects_zero_and_one() {
    assert_eq!(parse_bound(b"0"), None);
    assert_eq!(parse_bound(b"1"), None);
}

#[test]
fn bound_rejects_non_numeric() {
    assert_eq!(parse_bound(b"abc"), None);
    assert_eq!(parse_bound(b""), None);
    assert_eq!(parse_bound(b"-3"), None);
}
