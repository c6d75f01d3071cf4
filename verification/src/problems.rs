//! Answers to small number problems, each as a function of the problem's bound.
use vstd::prelude::*;
use crate::fibonacci::{largest_fib_index, spec_fib};
use crate::num::{
    descending_product_iterator, fib, fib_largest_lte, is_prime, lemma_pairs_descend,
    lemma_pairs_in_triangle,
};
use crate::pairs::{
    all_nines, in_domain, lemma_all_nines_monotonic, lemma_all_nines_small, lemma_product_fits,
    lemma_rank_bounded, lemma_rank_descends, product, rank,
};
use crate::string::{decimal, decimal_string, is_palindrome};
use crate::primes::divides;

verus! {

/// The sum of the odd squares among `1 * 1, 2 * 2, ..., n * n`.
pub open spec fn odd_square_sum(n: nat) -> nat
    decreases n,
{
    if n == 0 {
        0
    } else {
        odd_square_sum((n - 1) as nat) + if (n * n) % 2 == 1 {
            n * n
        } else {
            0
        }
    }
}

/// The sum of the numbers below `n` that 3 or 5 divides.
pub open spec fn multiples_sum(n: nat) -> nat
    decreases n,
{
    if n <= 1 {
        0
    } else {
        let x = (n - 1) as nat;
        multiples_sum(x) + if x % 3 == 0 || x % 5 == 0 {
            x
        } else {
            0
        }
    }
}

/// A square is odd exactly when its root is.
pub proof fn lemma_square_parity(x: nat)
    ensures
        (x * x) % 2 == x % 2,
{
    let h = x / 2;
    if x % 2 == 0 {
        assert(x * x == 2 * (2 * h * h)) by (nonlinear_arith)
            requires
                x == 2 * h,
        ;
    } else {
        assert(x * x == 2 * (2 * h * h + 2 * h) + 1) by (nonlinear_arith)
            requires
                x == 2 * h + 1,
        ;
    }
}

/// The sum never descends as the bound grows.
pub proof fn lemma_odd_square_sum_monotonic(a: nat, b: nat)
    requires
        a <= b,
    ensures
        odd_square_sum(a) <= odd_square_sum(b),
    decreases b,
{
    if a < b {
        lemma_odd_square_sum_monotonic(a, (b - 1) as nat);
    }
}

/// The sum never descends as the bound grows.
pub proof fn lemma_multiples_sum_monotonic(a: nat, b: nat)
    requires
        a <= b,
    ensures
        multiples_sum(a) <= multiples_sum(b),
    decreases b,
{
    if a < b {
        lemma_multiples_sum_monotonic(a, (b - 1) as nat);
    }
}

/// The sum of the odd squares among the squares of `1, ..., n`, or `None`
/// where the sum does not fit 128 bits.
pub fn sum_odd_squares(n: u128) -> (r: Option<u128>)
    ensures
        match r {
            Some(sum) => sum == odd_square_sum(n as nat),
            None => odd_square_sum(n as nat) > u128::MAX,
        },
{
    let mut sum: u128 = 0;
    let mut x: u128 = 0;
    while x < n
        invariant
            x <= n,
            sum == odd_square_sum(x as nat),
        decreases n - x,
    {
        x = x + 1;
        proof {
            lemma_square_parity(x as nat);
            lemma_odd_square_sum_monotonic(x as nat, n as nat);
        }
        if x % 2 == 1 {
            let next = match x.checked_mul(x) {
                Some(square) => sum.checked_add(square),
                None => None,
            };
            match next {
                Some(larger) => {
                    sum = larger;
                },
                None => {
                    return None;
                },
            }
        }
    }
    Some(sum)
}

/// The sum of the odd squares among the squares of `1, ..., n`.
pub fn p0(n: u128) -> (r: u128)
    requires
        odd_square_sum(n as nat) <= u128::MAX,
    ensures
        r == odd_square_sum(n as nat),
{
    match sum_odd_squares(n) {
        Some(sum) => sum,
        None => vstd::pervasive::unreached(),
    }
}

/// The sum of the numbers below `n` that 3 or 5 divides, or `None` where the
/// sum does not fit 128 bits.
pub fn sum_multiples(n: u128) -> (r: Option<u128>)
    ensures
        match r {
            Some(sum) => sum == multiples_sum(n as nat),
            None => multiples_sum(n as nat) > u128::MAX,
        },
{
    let mut sum: u128 = 0;
    let mut x: u128 = 1;
    if n == 0 {
        return Some(0);
    }
    while x < n
        invariant
            1 <= x <= n,
            sum == multiples_sum(x as nat),
        decreases n - x,
    {
        proof {
            lemma_multiples_sum_monotonic((x + 1) as nat, n as nat);
        }
        if x % 3 == 0 || x % 5 == 0 {
            match sum.checked_add(x) {
                Some(larger) => {
                    sum = larger;
                },
                None => {
                    return None;
                },
            }
        }
        x = x + 1;
    }
    Some(sum)
}

/// The sum of the numbers below `n` that 3 or 5 divides.
pub fn p1(n: u128) -> (r: u128)
    requires
        multiples_sum(n as nat) <= u128::MAX,
    ensures
        r == multiples_sum(n as nat),
{
    match sum_multiples(n) {
        Some(sum) => sum,
        None => vstd::pervasive::unreached(),
    }
}

/// The sum of the even numbers among `fib(1), ..., fib(k)`.
pub open spec fn even_fib_sum(k: nat) -> nat
    decreases k,
{
    if k == 0 {
        0
    } else {
        even_fib_sum((k - 1) as nat) + if spec_fib(k) % 2 == 0 {
            spec_fib(k)
        } else {
            0
        }
    }
}

/// The sum never descends as the index grows.
pub proof fn lemma_even_fib_sum_monotonic(a: nat, b: nat)
    requires
        a <= b,
    ensures
        even_fib_sum(a) <= even_fib_sum(b),
    decreases b,
{
    if a < b {
        lemma_even_fib_sum_monotonic(a, (b - 1) as nat);
    }
}

/// The sum of the even Fibonacci numbers that do not exceed `n`, or `None`
/// where the sum does not fit 128 bits.
pub fn sum_even_fibs(n: u128) -> (r: Option<u128>)
    ensures
        match r {
            Some(sum) => sum == even_fib_sum(largest_fib_index(n as nat)),
            None => even_fib_sum(largest_fib_index(n as nat)) > u128::MAX,
        },
{
    let last = fib_largest_lte(n);
    let mut sum: u128 = 0;
    let mut x: i32 = 0;
    while x < last
        invariant
            0 <= x <= last <= 186,
            last == largest_fib_index(n as nat),
            sum == even_fib_sum(x as nat),
        decreases last - x,
    {
        x = x + 1;
        proof {
            lemma_even_fib_sum_monotonic(x as nat, last as nat);
        }
        let f = fib(x);
        if f % 2 == 0 {
            match sum.checked_add(f) {
                Some(larger) => {
                    sum = larger;
                },
                None => {
                    return None;
                },
            }
        }
    }
    Some(sum)
}

/// The sum of the even Fibonacci numbers that do not exceed `n`.
pub fn p2(n: u128) -> (r: u128)
    requires
        even_fib_sum(largest_fib_index(n as nat)) <= u128::MAX,
    ensures
        r == even_fib_sum(largest_fib_index(n as nat)),
{
    match sum_even_fibs(n) {
        Some(sum) => sum,
        None => vstd::pervasive::unreached(),
    }
}

/// `x` is a prime factor of `n` whose square does not exceed `n`.
pub open spec fn is_small_prime_factor(x: nat, n: nat) -> bool {
    &&& crate::primes::is_prime(x)
    &&& divides(x, n)
    &&& x * x <= n
}

/// The largest prime factor of `n` among those whose square does not exceed
/// `n`, or `None` where `n` has none: where `n` is prime or below 4.
pub fn largest_small_prime_factor(n: u128) -> (r: Option<u128>)
    ensures
        match r {
            Some(best) => {
                &&& is_small_prime_factor(best as nat, n as nat)
                &&& forall|x: nat| is_small_prime_factor(x, n as nat) ==> x <= best
            },
            None => forall|x: nat| !is_small_prime_factor(x, n as nat),
        },
{
    let mut best: Option<u128> = None;
    let mut x: u128 = 2;
    while x <= n / x
        invariant
            2 <= x,
            match best {
                Some(b) => is_small_prime_factor(b as nat, n as nat) && forall|y: nat|
                    y < x && is_small_prime_factor(y, n as nat) ==> y <= b,
                None => forall|y: nat| y < x ==> !is_small_prime_factor(y, n as nat),
            },
        decreases n - x,
    {
        assert(x * x <= n) by (nonlinear_arith)
            requires
                x <= n as int / x as int,
                x > 0,
        ;
        assert(x < n) by (nonlinear_arith)
            requires
                x * x <= n,
                x >= 2,
        ;
        if n % x == 0 && is_prime(x) {
            best = Some(x);
        }
        x = x + 1;
    }
    proof {
        assert forall|y: nat| is_small_prime_factor(y, n as nat) implies y < x by {
            assert(y < x) by (nonlinear_arith)
                requires
                    y * y <= n,
                    x > n as int / x as int,
                    x >= 2,
            ;
        }
    }
    best
}

/// The largest prime factor of `n` among those whose square does not exceed
/// `n`, for an `n` that has one.
pub fn p3(n: u128) -> (r: u128)
    requires
        exists|x: nat| is_small_prime_factor(x, n as nat),
    ensures
        is_small_prime_factor(r as nat, n as nat),
        forall|x: nat| is_small_prime_factor(x, n as nat) ==> x <= r,
{
    match largest_small_prime_factor(n) {
        Some(best) => best,
        None => vstd::pervasive::unreached(),
    }
}

/// The decimal digits of `x` read the same from both ends.
pub open spec fn palindromic(x: nat) -> bool {
    decimal(x) == decimal(x).reverse()
}

/// What bounds the number of pairs still to come: the rank of the pair that
/// was pulled last.
pub open spec fn still_to_come(e: Seq<(u32, u32)>) -> nat {
    if e.len() == 0 {
        0x1_0000_0000_0000_0000_0000_0000
    } else {
        rank(e.last())
    }
}

/// The largest palindrome among the products of two numbers of at most `n`
/// decimal digits.
pub fn p4(n: u32) -> (r: u32)
    requires
        n <= 4,
    ensures
        palindromic(r as nat),
        exists|pair: (u32, u32)|
            in_domain(all_nines(n as nat) as u32, pair) && #[trigger] product(pair) == r,
        forall|pair: (u32, u32)|
            in_domain(all_nines(n as nat) as u32, pair) && palindromic(#[trigger] product(pair))
                ==> product(pair) <= r,
{
    let mut g = descending_product_iterator(n);
    let ghost max = all_nines(n as nat) as u32;
    proof {
        lemma_all_nines_monotonic(n as nat, 4);
        lemma_all_nines_small();
    }
    loop
        invariant
            g.inv(),
            !g.is_done(),
            g.producer().max() == max,
            max == all_nines(n as nat),
            max <= 9999,
            forall|k: int|
                0 <= k < g.emitted().len() ==> !palindromic(product(#[trigger] g.emitted()[k])),
        decreases still_to_come(g.emitted()),
    {
        let ghost before = g.emitted();
        match g.next() {
            Some((a, b)) => {
                proof {
                    let e = g.emitted();
                    lemma_pairs_in_triangle(&g, e.len() - 1);
                    lemma_product_fits(max, (a, b));
                    if before.len() > 0 {
                        lemma_pairs_in_triangle(&g, e.len() - 2);
                        lemma_product_fits(max, e[e.len() - 2]);
                        lemma_pairs_descend(&g, e.len() - 2, e.len() - 1);
                        lemma_rank_descends(e[e.len() - 2], e[e.len() - 1]);
                    } else {
                        lemma_rank_bounded((a, b));
                    }
                }
                let x = a * b;
                let digits = decimal_string(x);
                if is_palindrome(digits.as_str()) {
                    proof {
                        assert(product((a, b)) == x);
                        assert forall|pair: (u32, u32)|
                            in_domain(max, pair) && palindromic(
                                #[trigger] product(pair),
                            ) implies product(pair) <= x by {
                            if before.contains(pair) {
                                let k = choose|k: int| 0 <= k < before.len() && before[k] == pair;
                                assert(g.emitted()[k] == pair);
                            } else {
                                lemma_product_fits(max, pair);
                            }
                        }
                    }
                    return x;
                }
                assert forall|k: int| 0 <= k < g.emitted().len() implies !palindromic(
                    product(#[trigger] g.emitted()[k]),
                ) by {
                    if k < before.len() {
                        assert(before[k] == g.emitted()[k]);
                    }
                }
            },
            None => {
                proof {
                    let seed = if max == 0 {
                        (0u32, 0u32)
                    } else {
                        (1u32, 1u32)
                    };
                    assert(in_domain(max, seed));
                    assert(before.contains(seed));
                    let k = choose|k: int| 0 <= k < before.len() && before[k] == seed;
                    assert(product(seed) == 0 || product(seed) == 1);
                    assert(decimal(product(seed)).len() == 1);
                    assert(decimal(product(seed)) =~= decimal(product(seed)).reverse());
                    assert(palindromic(product(before[k])));
                }
                return vstd::pervasive::unreached();
            },
        }
    }
}

} // verus!
