use euler::problems::{
    largest_small_prime_factor, p0, p1, p2, p3, p4, sum_even_fibs, sum_multiples, sum_odd_squares,
};

#[test]
fn test_p0() {
    assert_eq!(28338577333241000, p0(554_000))
}

#[test]
fn test_p1() {
    assert_eq!(233168, p1(1000))
}

#[test]
fn test_p2() {
    assert_eq!(4613732, p2(4_000_000))
}

#[test]
fn test_p3() {
    assert_eq!(6857, p3(600_851_475_143))
}

#[test]
fn p0_small_bounds() {
    assert_eq!(0, p0(0));
    assert_eq!(1, p0(1));
    assert_eq!(1, p0(2));
    assert_eq!(10, p0(3));
    assert_eq!(35, p0(6));
}

#[test]
fn p1_small_bounds() {
    assert_eq!(0, p1(0));
    assert_eq!(0, p1(3));
    assert_eq!(3, p1(4));
    assert_eq!(23, p1(10));
    assert_eq!(33, p1(11));
}

#[test]
fn p2_small_bounds() {
    assert_eq!(0, p2(0));
    assert_eq!(0, p2(1));
    assert_eq!(2, p2(2));
    assert_eq!(10, p2(8));
    assert_eq!(44, p2(100));
}

#[test]
fn p3_takes_the_largest_factor_below_the_root() {
    assert_eq!(2, p3(4));
    assert_eq!(3, p3(12));
    assert_eq!(5, p3(35));
    assert_eq!(29, p3(13195));
    assert_eq!(7, p3(49));
}

#[test]
fn p4_largest_palindromes() {
    assert_eq!(0, p4(0));
    assert_eq!(9, p4(1));
    assert_eq!(9009, p4(2));
    assert_eq!(906609, p4(3));
}

#[test]
fn numbers_without_a_factor_below_the_root() {
    assert_eq!(None, largest_small_prime_factor(0));
    assert_eq!(None, largest_small_prime_factor(1));
    assert_eq!(None, largest_small_prime_factor(2));
    assert_eq!(None, largest_small_prime_factor(3));
    assert_eq!(None, largest_small_prime_factor(97));
    assert_eq!(Some(2), largest_small_prime_factor(4));
    assert_eq!(Some(3), largest_small_prime_factor(9));
    assert_eq!(Some(2), largest_small_prime_factor(2 * 97));
    assert_eq!(Some(6857), largest_small_prime_factor(600_851_475_143));
}

#[test]
fn sums_that_fit() {
    assert_eq!(Some(28338577333241000), sum_odd_squares(554_000));
    assert_eq!(Some(0), sum_odd_squares(0));
    assert_eq!(Some(233168), sum_multiples(1000));
    assert_eq!(Some(0), sum_multiples(0));
    assert_eq!(Some(0), sum_multiples(1));
    assert_eq!(Some(4613732), sum_even_fibs(4_000_000));
    assert_eq!(Some(0), sum_even_fibs(0));
}

#[test]
fn sums_of_even_fibs_at_the_edge_of_128_bits() {
    let fib_183: u128 = 78569350599398894027251472817058687522;
    let fib_186: u128 = 332825110087067562321196029789634457848;
    assert_eq!(Some((205697230343233228174223751303346572685 - 1) / 2), sum_even_fibs(fib_183));
    assert_eq!(Some((205697230343233228174223751303346572685 - 1) / 2), sum_even_fibs(fib_186 - 1));
    assert_eq!(None, sum_even_fibs(fib_186));
    assert_eq!(None, sum_even_fibs(u128::MAX));
}
