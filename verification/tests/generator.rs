use euler::fibonacci::FibonacciProducer;
use euler::generator::{create_generator, create_infinite_generator};
use euler::num::{descending_product_iterator, prime_iterator};
use euler::pairs::DigitProductPairProducer;
use euler::sieve::PrimeProducer;

#[test]
fn finite_generator_passes_values_on_and_then_ends() {
    let mut g = create_generator(DigitProductPairProducer::new(0));
    assert_eq!(Some((0, 0)), g.next());
    assert_eq!(None, g.next());
}

#[test]
fn finite_generator_over_one_digit() {
    let mut g = create_generator(DigitProductPairProducer::new(1));
    assert_eq!(Some((9, 9)), g.next());
    assert_eq!(Some((9, 8)), g.next());
    assert_eq!(Some((8, 8)), g.next());
    assert_eq!(Some((9, 7)), g.next());
}

#[test]
fn exhausted_generator_stays_exhausted() {
    let mut g = descending_product_iterator(1);
    let mut pulled = 0;
    while let Some(_) = g.next() {
        pulled += 1;
    }
    assert_eq!(45, pulled);
    for _ in 0..5 {
        assert_eq!(None, g.next());
    }
}

#[test]
fn infinite_generator_over_a_fresh_producer() {
    let mut fibs = create_infinite_generator(FibonacciProducer::new());
    assert_eq!(Some(0), fibs.next());
    assert_eq!(Some(1), fibs.next());
    let mut primes = create_infinite_generator(PrimeProducer::new());
    assert_eq!(Some(2), primes.next());
    assert_eq!(Some(3), primes.next());
}

#[test]
fn infinite_generator_pulled_ten_thousand_times() {
    let mut g = prime_iterator();
    let mut last = None;
    for _ in 0..10_000 {
        last = g.next();
        assert!(last.is_some());
    }
    assert_eq!(Some(104_729), last);
}

#[test]
fn infinite_generator_hands_out_bare_values() {
    let mut fibs = euler::num::fib_iterator();
    let mut values = Vec::new();
    for _ in 0..9 {
        values.push(fibs.next_value());
    }
    assert_eq!(vec![0, 1, 1, 2, 3, 5, 8, 13, 21], values);
    let mut primes = prime_iterator();
    let mut values = Vec::new();
    for _ in 0..6 {
        values.push(primes.next_value());
    }
    assert_eq!(vec![2, 3, 5, 7, 11, 13], values);
}
