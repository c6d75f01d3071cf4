use euler::{fib, fib_largest_lte, is_prime};

#[test]
fn lib_test_fib() {
    assert_eq!(0, fib(0));
    assert_eq!(1, fib(1));
    assert_eq!(1, fib(2));
    assert_eq!(5, fib(5));
    assert_eq!(8, fib(6));
    assert_eq!(2, fib(3));
    assert_eq!(3, fib(4));
}

#[test]
fn lib_test_fib_largest_lte() {
    assert_eq!(0, fib_largest_lte(0));
    assert_eq!(2, fib_largest_lte(1));
    assert_eq!(4, fib_largest_lte(3));
    assert_eq!(6, fib_largest_lte(10));
    assert_eq!(7, fib_largest_lte(15));
}

#[test]
fn lib_test_is_prime() {
    assert_eq!(false, is_prime(0));
    assert_eq!(false, is_prime(1));
    assert_eq!(true, is_prime(2));
    assert_eq!(true, is_prime(3));
    assert_eq!(false, is_prime(4));
    assert_eq!(true, is_prime(5));
    assert_eq!(false, is_prime(6));
}
