//! Divisibility and primality as mathematical predicates, with the facts about
//! them that the sieve and the primality test rest on.
use vstd::prelude::*;

verus! {

/// `d` divides `n`.
pub open spec fn divides(d: nat, n: nat) -> bool {
    d > 0 && n % d == 0
}

/// `n` is prime: it is at least 2 and no number from 2 up to `n - 1` divides it.
pub open spec fn is_prime(n: nat) -> bool {
    n >= 2 && forall|d: nat| 2 <= d < n ==> !#[trigger] divides(d, n)
}

/// The product of a positive number with any other is a multiple of it.
pub proof fn lemma_divides_product(d: nat, k: nat)
    requires
        d > 0,
    ensures
        divides(d, d * k),
        divides(d, k * d),
{
    vstd::arithmetic::div_mod::lemma_mod_multiples_basic(k as int, d as int);
    assert(d * k == k * d) by (nonlinear_arith);
}

/// A multiple of `d` is `d` times its quotient by `d`.
pub proof fn lemma_divides_quotient(d: nat, n: nat)
    requires
        divides(d, n),
    ensures
        n == d * (n / d),
        n == (n / d) * d,
{
    vstd::arithmetic::div_mod::lemma_fundamental_div_mod(n as int, d as int);
    assert(d * (n / d) == (n / d) * d) by (nonlinear_arith);
}

/// Divisibility is transitive.
pub proof fn lemma_divides_transitive(a: nat, b: nat, c: nat)
    requires
        divides(a, b),
        divides(b, c),
    ensures
        divides(a, c),
{
    lemma_divides_quotient(a, b);
    lemma_divides_quotient(b, c);
    let x = b / a;
    let y = c / b;
    assert(c == a * (x * y)) by (nonlinear_arith)
        requires
            b == a * x,
            c == b * y,
    ;
    lemma_divides_product(a, x * y);
}

/// The sum of two multiples of `d` is a multiple of `d`.
pub proof fn lemma_divides_sum(d: nat, a: nat, b: nat)
    requires
        divides(d, a),
        divides(d, b),
    ensures
        divides(d, a + b),
{
    lemma_divides_quotient(d, a);
    lemma_divides_quotient(d, b);
    let x = a / d;
    let y = b / d;
    assert(a + b == d * (x + y)) by (nonlinear_arith)
        requires
            a == d * x,
            b == d * y,
    ;
    lemma_divides_product(d, x + y);
}

/// The difference of two multiples of `d` is a multiple of `d`.
pub proof fn lemma_divides_difference(d: nat, a: nat, b: nat)
    requires
        divides(d, a),
        divides(d, b),
        a <= b,
    ensures
        divides(d, (b - a) as nat),
{
    lemma_divides_quotient(d, a);
    lemma_divides_quotient(d, b);
    let x = a / d;
    let y = b / d;
    assert(x <= y) by (nonlinear_arith)
        requires
            a == d * x,
            b == d * y,
            a <= b,
            d > 0,
    ;
    assert(b - a == d * ((y - x) as nat)) by (nonlinear_arith)
        requires
            a == d * x,
            b == d * y,
            x <= y,
    ;
    lemma_divides_product(d, (y - x) as nat);
}

/// The least divisor of `n` that is at least 2, searched from `from` upwards.
pub open spec fn least_divisor_from(n: nat, from: nat) -> nat
    decreases n - from,
{
    if from >= n || divides(from, n) {
        from
    } else {
        least_divisor_from(n, from + 1)
    }
}

/// What the search for the least divisor finds.
pub proof fn lemma_least_divisor_from(n: nat, from: nat)
    requires
        2 <= from <= n,
        forall|d: nat| 2 <= d < from ==> !#[trigger] divides(d, n),
    ensures
        ({
            let p = least_divisor_from(n, from);
            &&& from <= p <= n
            &&& divides(p, n)
            &&& forall|d: nat| 2 <= d < p ==> !#[trigger] divides(d, n)
        }),
    decreases n - from,
{
    if from >= n {
        vstd::arithmetic::div_mod::lemma_mod_self_0(n as int);
    } else if divides(from, n) {
    } else {
        lemma_least_divisor_from(n, from + 1);
    }
}

/// The least prime factor of a number that is at least 2.
pub open spec fn least_prime_factor(n: nat) -> nat {
    least_divisor_from(n, 2)
}

/// The least prime factor is a prime that divides `n`, and nothing smaller
/// than it, from 2 on, divides `n`.
pub proof fn lemma_least_prime_factor(n: nat)
    requires
        n >= 2,
    ensures
        is_prime(least_prime_factor(n)),
        divides(least_prime_factor(n), n),
        2 <= least_prime_factor(n) <= n,
        forall|d: nat| 2 <= d < least_prime_factor(n) ==> !#[trigger] divides(d, n),
{
    lemma_least_divisor_from(n, 2);
    let p = least_prime_factor(n);
    assert forall|d: nat| 2 <= d < p implies !#[trigger] divides(d, p) by {
        if divides(d, p) {
            lemma_divides_transitive(d, p, n);
        }
    }
}

/// A number that is at least 2 and not prime has a prime factor whose square
/// does not exceed it.
pub proof fn lemma_composite_has_small_factor(n: nat)
    requires
        n >= 2,
        !is_prime(n),
    ensures
        least_prime_factor(n) * least_prime_factor(n) <= n,
        least_prime_factor(n) < n,
{
    lemma_least_prime_factor(n);
    let p = least_prime_factor(n);
    if p == n {
        assert(is_prime(n));
    }
    lemma_divides_quotient(p, n);
    let q = n / p;
    assert(q >= 2) by (nonlinear_arith)
        requires
            n == p * q,
            p < n,
            p >= 2,
    ;
    lemma_divides_product(q, p);
    assert(divides(q, n));
    if q < p {
        assert(!divides(q, n));
    }
    assert(p * p <= n) by (nonlinear_arith)
        requires
            n == p * q,
            p <= q,
    ;
}

} // verus!
