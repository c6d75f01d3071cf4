use euler::num::{
    descending_product_iterator, fib, fib_iterator, fib_largest_lte, is_prime, prime_iterator,
};

fn trial_division(n: u128) -> bool {
    if n < 2 {
        return false;
    }
    let mut d = 2;
    while d * d <= n {
        if n % d == 0 {
            return false;
        }
        d += 1;
    }
    true
}

fn all_pairs(digits: u32) -> Vec<(u32, u32)> {
    let mut g = descending_product_iterator(digits);
    let mut pairs = Vec::new();
    while let Some(pair) = g.next() {
        pairs.push(pair);
    }
    pairs
}

#[test]
fn fib_sequence_follows_the_recurrence() {
    let mut g = fib_iterator();
    let mut expected: Vec<u128> = vec![0, 1];
    for n in 2..=60 {
        let next = expected[n - 1] + expected[n - 2];
        expected.push(next);
    }
    for n in 0..=60 {
        assert_eq!(Some(expected[n]), g.next());
    }
}

#[test]
fn fib_sequence_reaches_the_last_number_of_128_bits() {
    let mut g = fib_iterator();
    let mut last = None;
    for _ in 0..=186 {
        last = g.next();
    }
    assert_eq!(Some(332825110087067562321196029789634457848), last);
}

#[test]
fn fib_sequence_agrees_with_fib() {
    let mut g = fib_iterator();
    for n in 0..=186 {
        assert_eq!(Some(fib(n)), g.next());
    }
}

#[test]
fn fib_at_the_edges() {
    assert_eq!(12586269025, fib(50));
    assert_eq!(205697230343233228174223751303346572685, fib(185));
    assert_eq!(332825110087067562321196029789634457848, fib(186));
}

#[test]
fn fib_largest_lte_at_the_edges() {
    assert_eq!(3, fib_largest_lte(2));
    assert_eq!(5, fib_largest_lte(5));
    assert_eq!(5, fib_largest_lte(7));
    assert_eq!(6, fib_largest_lte(8));
    assert_eq!(33, fib_largest_lte(4_000_000));
    assert_eq!(185, fib_largest_lte(332825110087067562321196029789634457847));
    assert_eq!(186, fib_largest_lte(332825110087067562321196029789634457848));
    assert_eq!(186, fib_largest_lte(u128::MAX));
}

#[test]
fn first_hundred_primes_by_trial_division() {
    let mut g = prime_iterator();
    let mut candidate: u128 = 0;
    for _ in 0..150 {
        let p = g.next().unwrap();
        candidate += 1;
        while !trial_division(candidate) {
            candidate += 1;
        }
        assert_eq!(candidate, p);
    }
    assert_eq!(863, candidate);
}

#[test]
fn prime_sequence_agrees_with_is_prime() {
    let mut g = prime_iterator();
    let mut next = g.next().unwrap();
    for n in 0..5000u128 {
        if n == next {
            assert!(is_prime(n));
            next = g.next().unwrap();
        } else {
            assert!(!is_prime(n));
        }
    }
}

#[test]
fn is_prime_on_squares_and_larger_numbers() {
    assert_eq!(false, is_prime(9));
    assert_eq!(false, is_prime(25));
    assert_eq!(false, is_prime(49));
    assert_eq!(true, is_prime(97));
    assert_eq!(false, is_prime(91));
    assert_eq!(true, is_prime(1_000_003));
    assert_eq!(false, is_prime(1_000_003 * 1_000_003));
    assert_eq!(true, is_prime(2_147_483_647));
}

#[test]
fn no_digits_give_the_single_pair_of_zeros() {
    assert_eq!(vec![(0, 0)], all_pairs(0));
}

#[test]
fn one_digit_pairs_in_order() {
    let pairs = all_pairs(1);
    assert_eq!(45, pairs.len());
    assert_eq!(
        vec![(9, 9), (9, 8), (8, 8), (9, 7), (8, 7), (9, 6), (7, 7), (8, 6), (9, 5), (7, 6)],
        pairs[..10].to_vec()
    );
    assert_eq!((1, 1), pairs[44]);
}

#[test]
fn equal_products_come_with_the_larger_first_number_first() {
    let pairs = all_pairs(1);
    let at = |pair: (u32, u32)| pairs.iter().position(|p| *p == pair).unwrap();
    assert!(at((9, 4)) + 1 == at((6, 6)));
    assert!(at((9, 2)) + 1 == at((6, 3)));
    assert!(at((8, 3)) + 1 == at((6, 4)));
}

#[test]
fn two_digit_pairs_cover_the_triangle_once() {
    let pairs = all_pairs(2);
    assert_eq!((99, 99), pairs[0]);
    assert_eq!(9801, pairs[0].0 * pairs[0].1);
    assert_eq!(99 * 100 / 2, pairs.len());
    let mut seen = vec![false; 100 * 100];
    for &(i, j) in pairs.iter() {
        assert!(1 <= j && j <= i && i <= 99);
        let at = (i * 100 + j) as usize;
        assert!(!seen[at]);
        seen[at] = true;
    }
    for k in 1..pairs.len() {
        assert!(pairs[k - 1].0 * pairs[k - 1].1 >= pairs[k].0 * pairs[k].1);
    }
}

#[test]
fn three_digit_pairs_start_at_the_corner() {
    let mut g = descending_product_iterator(3);
    assert_eq!(Some((999, 999)), g.next());
    assert_eq!(Some((999, 998)), g.next());
    assert_eq!(Some((998, 998)), g.next());
    assert_eq!(Some((999, 997)), g.next());
}

#[test]
fn four_digit_pairs_start_at_the_corner() {
    let mut g = descending_product_iterator(4);
    assert_eq!(Some((9999, 9999)), g.next());
    assert_eq!(Some((9999, 9998)), g.next());
}
