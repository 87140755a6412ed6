use cplib::prime::{prime_factors, primes};

#[test]
fn test_primes() {
    let ps = primes(100);
    assert_eq!(
        ps,
        vec![
            2, 3, 5, 7, 11, 13, 17, 19, 23, 29, 31, 37, 41, 43, 47, 53, 59, 61, 67, 71, 73, 79,
            83, 89, 97
        ]
    );
}

#[test]
fn test_prime_factors() {
    let pattern: Vec<(usize, Vec<(usize, usize)>)> = vec![
        (12, vec![(2, 2), (3, 1)]),
        (1024, vec![(2, 10)]),
        (1, vec![]),
        (17, vec![(17, 1)]),
    ];

    for (n, factors) in pattern {
        let pf = prime_factors(n);
        assert_eq!(pf, factors);
    }
}
