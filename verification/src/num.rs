//! Numbers: Fibonacci numbers, primes, and pairs ordered by their product,
//! as single values and as sequences to pull from.
use vstd::prelude::*;
use crate::fibonacci::{
    largest_fib_index, lemma_emitted_fibonacci, lemma_fib_fits, lemma_largest_fib_index, spec_fib,
    FibonacciProducer, LAST_INDEX,
};
use crate::generator::{
    create_generator, create_infinite_generator, Generator, InfiniteGenerator,
    SuspendableProducer,
};
use crate::pairs::{
    all_nines, in_domain, lemma_emitted_all, lemma_emitted_descending, lemma_emitted_first,
    lemma_emitted_in_triangle, precedes, product, DigitProductPairProducer,
};
use crate::primes::{
    divides, least_prime_factor, lemma_composite_has_small_factor, lemma_least_prime_factor,
};
use crate::sieve::{
    first_primes, lemma_emitted_first_primes, lemma_first_primes_prefix, PrimeProducer,
};

verus! {

/// The `n`-th Fibonacci number, for the indices whose number fits 128 bits.
pub fn fib(n: i32) -> (r: u128)
    requires
        0 <= n <= LAST_INDEX,
    ensures
        r == spec_fib(n as nat),
{
    if n == 0 {
        return 0;
    }
    let mut a: u128 = 0;
    let mut b: u128 = 1;
    let mut i: i32 = 1;
    while i < n
        invariant
            1 <= i <= n <= 186,
            a == spec_fib((i - 1) as nat),
            b == spec_fib(i as nat),
        decreases n - i,
    {
        proof {
            lemma_fib_fits((i + 1) as nat);
        }
        let next = a + b;
        a = b;
        b = next;
        i = i + 1;
    }
    b
}

/// The index of the largest Fibonacci number that does not exceed `n`; of the
/// two indices of the number 1, the later one.
pub fn fib_largest_lte(n: u128) -> (r: i32)
    ensures
        0 <= r <= LAST_INDEX,
        spec_fib(r as nat) <= n < spec_fib((r + 1) as nat),
        r == largest_fib_index(n as nat),
{
    let mut a: u128 = 0;
    let mut b: u128 = 1;
    let mut k: i32 = 0;
    while b <= n
        invariant
            0 <= k <= 186,
            a == spec_fib(k as nat),
            b == spec_fib((k + 1) as nat),
            a <= n,
        decreases 186 - k,
    {
        proof {
            lemma_fib_fits((k + 1) as nat);
            lemma_fib_fits((k + 2) as nat);
        }
        match a.checked_add(b) {
            Some(next) => {
                a = b;
                b = next;
                k = k + 1;
            },
            None => {
                proof {
                    lemma_largest_fib_index(n as nat, (k + 1) as nat);
                }
                return k + 1;
            },
        }
    }
    proof {
        lemma_largest_fib_index(n as nat, k as nat);
    }
    k
}

/// Whether `n` is prime, by trial division up to the square root of `n`.
pub fn is_prime(n: u128) -> (r: bool)
    ensures
        r == crate::primes::is_prime(n as nat),
{
    if n <= 1 {
        return false;
    }
    let mut d: u128 = 2;
    while d <= n / d
        invariant
            2 <= d <= n,
            forall|k: nat| 2 <= k < d ==> !#[trigger] divides(k, n as nat),
        decreases n - d,
    {
        if n % d == 0 {
            assert(divides(d as nat, n as nat));
            assert(d * d <= n) by (nonlinear_arith)
                requires
                    d <= n / d,
                    d > 0,
            ;
            assert(d < n) by (nonlinear_arith)
                requires
                    d * d <= n,
                    d >= 2,
            ;
            return false;
        }
        assert(d < n) by (nonlinear_arith)
            requires
                d <= n / d,
                d >= 2,
        ;
        d = d + 1;
    }
    proof {
        let m = n as nat;
        if !crate::primes::is_prime(m) {
            lemma_least_prime_factor(m);
            lemma_composite_has_small_factor(m);
            let p = least_prime_factor(m);
            assert(p < d) by (nonlinear_arith)
                requires
                    p * p <= n,
                    d > n / d,
                    d > 0,
                    p >= 0,
            ;
        }
    }
    true
}

/// The Fibonacci numbers 0, 1, 1, 2, 3, 5, 8, ... as a sequence to pull from.
pub fn fib_iterator() -> (g: InfiniteGenerator<FibonacciProducer>)
    ensures
        g.inv(),
        g.emitted() == Seq::<u128>::empty(),
        g.producer().can_resume(),
{
    create_infinite_generator(FibonacciProducer::new())
}

/// The primes 2, 3, 5, 7, 11, ... as a sequence to pull from.
pub fn prime_iterator() -> (g: InfiniteGenerator<PrimeProducer>)
    ensures
        g.inv(),
        g.emitted() == Seq::<u128>::empty(),
        g.producer().can_resume(),
{
    assert(crate::primes::is_prime(2u128 as nat));
    create_infinite_generator(PrimeProducer::new())
}

/// The pairs `(i, j)` with `j <= i` of numbers of at most `digits` decimal
/// digits, in descending order of their product, as a sequence to pull from.
pub fn descending_product_iterator(digits: u32) -> (g: Generator<DigitProductPairProducer>)
    requires
        digits <= 4,
    ensures
        g.inv(),
        !g.is_done(),
        g.emitted() == Seq::<(u32, u32)>::empty(),
        g.producer().max() == all_nines(digits as nat),
{
    create_generator(DigitProductPairProducer::new(digits))
}

/// The `n`-th value pulled from the Fibonacci sequence, counted from 0, is the
/// `n`-th Fibonacci number.
pub proof fn lemma_fib_iterator_emits_fib(g: &InfiniteGenerator<FibonacciProducer>, n: int)
    requires
        g.inv(),
        0 <= n < g.emitted().len(),
    ensures
        g.emitted()[n] == spec_fib(n as nat),
{
    lemma_emitted_fibonacci(&g.producer(), n);
}

/// The Fibonacci sequence can be pulled from as long as fewer than 187 values
/// were pulled: the numbers up to the 186th fit 128 bits.
pub proof fn lemma_fib_iterator_range(g: &InfiniteGenerator<FibonacciProducer>)
    requires
        g.inv(),
    ensures
        g.producer().can_resume() <==> g.emitted().len() <= LAST_INDEX,
{
    lemma_fib_fits(g.emitted().len());
}

/// The first `k` values pulled from the sequence of primes are the ascending
/// list of the first `k` primes: each is prime, each exceeds the one before,
/// and no prime below the last is left out.
pub proof fn lemma_prime_iterator_emits_first_primes(
    g: &InfiniteGenerator<PrimeProducer>,
    k: int,
)
    requires
        g.inv(),
        0 <= k <= g.emitted().len(),
    ensures
        first_primes(g.emitted().take(k)),
{
    lemma_emitted_first_primes(&g.producer());
    lemma_first_primes_prefix(g.emitted(), k);
}

/// Every pair pulled from the sequence of pairs lies in the triangle
/// `j <= i <= max`, with `1 <= j` where `max` is positive.
pub proof fn lemma_pairs_in_triangle(g: &Generator<DigitProductPairProducer>, k: int)
    requires
        g.inv(),
        0 <= k < g.emitted().len(),
    ensures
        in_domain(g.producer().max(), g.emitted()[k]),
        g.producer().max() <= 0xffff,
{
    lemma_emitted_in_triangle(&g.producer(), k);
}

/// The products of the pairs pulled never ascend, and no pair is pulled twice.
pub proof fn lemma_pairs_descend(g: &Generator<DigitProductPairProducer>, k: int, l: int)
    requires
        g.inv(),
        0 <= k < l < g.emitted().len(),
    ensures
        precedes(g.emitted()[k], g.emitted()[l]),
        product(g.emitted()[k]) >= product(g.emitted()[l]),
        g.emitted()[k] != g.emitted()[l],
{
    lemma_emitted_descending(&g.producer(), k, l);
}

/// The first pair pulled is `(max, max)`.
pub proof fn lemma_pairs_start_at_corner(g: &Generator<DigitProductPairProducer>)
    requires
        g.inv(),
        g.emitted().len() > 0,
    ensures
        g.emitted()[0] == (g.producer().max(), g.producer().max()),
{
    lemma_emitted_first(&g.producer());
}

/// Once the sequence of pairs is exhausted, every pair `(i, j)` with
/// `1 <= j <= i <= max` was pulled.
pub proof fn lemma_pairs_all_pulled(g: &Generator<DigitProductPairProducer>, i: u32, j: u32)
    requires
        g.inv(),
        g.is_done(),
        1 <= j <= i <= g.producer().max(),
    ensures
        g.emitted().contains((i, j)),
{
    lemma_emitted_all(&g.producer(), (i, j));
}

} // verus!
