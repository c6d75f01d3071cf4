use euler::num::{
    descending_product_iterator, fib, fib_iterator, fib_largest_lte, is_prime, prime_iterator,
};

#[test]
fn num_test_fib() {
    assert_eq!(0, fib(0));
    assert_eq!(1, fib(1));
    assert_eq!(1, fib(2));
    assert_eq!(5, fib(5));
    assert_eq!(8, fib(6));
    assert_eq!(2, fib(3));
    assert_eq!(3, fib(4));
}

#[test]
fn num_test_fib_largest_lte() {
    assert_eq!(0, fib_largest_lte(0));
    assert_eq!(2, fib_largest_lte(1));
    assert_eq!(4, fib_largest_lte(3));
    assert_eq!(6, fib_largest_lte(10));
    assert_eq!(7, fib_largest_lte(15));
}

#[test]
fn num_test_is_prime() {
    assert_eq!(false, is_prime(0));
    assert_eq!(false, is_prime(1));
    assert_eq!(true, is_prime(2));
    assert_eq!(true, is_prime(3));
    assert_eq!(false, is_prime(4));
    assert_eq!(true, is_prime(5));
    assert_eq!(false, is_prime(6));
}

#[test]
fn test_prime_iterator() {
    let mut i = prime_iterator();
    assert_eq!(Some(2), i.next());
    assert_eq!(Some(3), i.next());
    assert_eq!(Some(5), i.next());
    assert_eq!(Some(7), i.next());
    assert_eq!(Some(11), i.next());
    assert_eq!(Some(13), i.next());
}

#[test]
fn test_fib_iterator() {
    let mut i = fib_iterator();
    assert_eq!(Some(0), i.next());
    assert_eq!(Some(1), i.next());
    assert_eq!(Some(1), i.next());
    assert_eq!(Some(2), i.next());
    assert_eq!(Some(3), i.next());
    assert_eq!(Some(5), i.next());
    assert_eq!(Some(8), i.next());
    assert_eq!(Some(13), i.next());
    assert_eq!(Some(21), i.next());
}

#[test]
fn test_descending_product_iterator_order() {
    let mut g = descending_product_iterator(2);
    let mut tuples: Vec<(u32, u32)> = Vec::new();
    while let Some(pair) = g.next() {
        tuples.push(pair);
    }
    println!("{:?}", tuples);
    let products = tuples.iter().map(|(a, b)| a * b).collect::<Vec<_>>();
    println!("{:?}", products);
    assert!(products.iter().rev().is_sorted())
}
