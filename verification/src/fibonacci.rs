//! The Fibonacci numbers: the recurrence, what of it fits the machine's
//! integers, and the producer that hands the numbers out one by one.
use vstd::prelude::*;
use core::convert::Infallible;
use crate::generator::{Resumed, SuspendableProducer, Unending};

verus! {

/// The Fibonacci numbers: 0, 1, and from then on the sum of the two before.
pub open spec fn spec_fib(n: nat) -> nat
    decreases n,
{
    if n == 0 {
        0
    } else if n == 1 {
        1
    } else {
        spec_fib((n - 1) as nat) + spec_fib((n - 2) as nat)
    }
}

/// The Fibonacci numbers never descend.
pub proof fn lemma_fib_monotonic(i: nat, j: nat)
    requires
        i <= j,
    ensures
        spec_fib(i) <= spec_fib(j),
    decreases j,
{
    if i < j {
        if j >= 2 {
            lemma_fib_monotonic(i, (j - 1) as nat);
        } else {
            assert(i == 0 && j == 1);
        }
    }
}

/// The addition law: `fib(m + n + 1) = fib(m + 1) * fib(n + 1) + fib(m) * fib(n)`.
pub proof fn lemma_fib_addition(m: nat, n: nat)
    ensures
        spec_fib(m + n + 1) == spec_fib(m + 1) * spec_fib(n + 1) + spec_fib(m) * spec_fib(n),
    decreases n,
{
    if n == 0 {
        assert(spec_fib(m + 1) * 1 + spec_fib(m) * 0 == spec_fib(m + 1)) by (nonlinear_arith);
    } else if n == 1 {
        reveal_with_fuel(spec_fib, 3);
        assert(spec_fib(m + 1) * 1 + spec_fib(m) * 1 == spec_fib(m + 1) + spec_fib(m))
            by (nonlinear_arith);
    } else {
        lemma_fib_addition(m, (n - 1) as nat);
        lemma_fib_addition(m, (n - 2) as nat);
        let a = spec_fib(m + 1);
        let b = spec_fib(m);
        let x = spec_fib(n as nat);
        let y = spec_fib((n - 1) as nat);
        let z = spec_fib((n - 2) as nat);
        assert(spec_fib(n + 1) == x + y);
        assert(x == y + z);
        assert(spec_fib(m + n + 1) == spec_fib(m + n) + spec_fib((m + n - 1) as nat));
        assert(spec_fib(m + n) == a * x + b * y);
        assert(spec_fib((m + n - 1) as nat) == a * y + b * z);
        assert(a * (x + y) + b * x == (a * x + b * y) + (a * y + b * z)) by (nonlinear_arith)
            requires
                x == y + z,
        ;
    }
}

/// From `fib(n) = a` and `fib(n + 1) = b` to `fib(2n)` and `fib(2n + 1)`.
pub proof fn lemma_fib_doubling(n: nat, a: nat, b: nat)
    requires
        n >= 1,
        spec_fib(n) == a,
        spec_fib(n + 1) == b,
    ensures
        spec_fib(2 * n) == a * (2 * b - a),
        spec_fib(2 * n + 1) == b * b + a * a,
{
    lemma_fib_addition(n, n);
    lemma_fib_addition((n - 1) as nat, n);
    let c = spec_fib((n - 1) as nat);
    assert(b == a + c);
    assert(spec_fib(2 * n) == a * b + c * a);
    assert(a * b + c * a == a * (2 * b - a)) by (nonlinear_arith)
        requires
            b == a + c,
    ;
}

/// The index of the largest Fibonacci number that does not exceed `n`; of the
/// two indices of the number 1, the later one.
pub open spec fn largest_fib_index(n: nat) -> nat {
    choose|k: nat| #[trigger] spec_fib(k) <= n < spec_fib(k + 1)
}

/// There is one index `k` with `fib(k) <= n < fib(k + 1)`.
pub proof fn lemma_largest_fib_index(n: nat, k: nat)
    requires
        spec_fib(k) <= n < spec_fib(k + 1),
    ensures
        largest_fib_index(n) == k,
{
    let c = largest_fib_index(n);
    if c < k {
        lemma_fib_monotonic(c + 1, k);
    } else if k < c {
        lemma_fib_monotonic(k + 1, c);
    }
}

/// The largest index whose Fibonacci number fits 128 bits.
pub const LAST_INDEX: i32 = 186;

/// The Fibonacci numbers at the edge of 128 bits.
pub proof fn lemma_fib_edge()
    ensures
        spec_fib(185) == 205697230343233228174223751303346572685,
        spec_fib(186) == 332825110087067562321196029789634457848,
        spec_fib(187) == 538522340430300790495419781092981030533,
        spec_fib(186) <= u128::MAX < spec_fib(187),
{
    reveal_with_fuel(spec_fib, 4);
    assert(spec_fib(2) == 1 && spec_fib(3) == 2);
    lemma_fib_doubling(2, 1, 2);
    assert(spec_fib(4) == 3 && spec_fib(5) == 5);
    assert(spec_fib(6) == 8);
    lemma_fib_doubling(5, 5, 8);
    assert(spec_fib(10) == 55 && spec_fib(11) == 89);
    assert(spec_fib(12) == 144);
    lemma_fib_doubling(11, 89, 144);
    assert(spec_fib(22) == 17711 && spec_fib(23) == 28657);
    assert(spec_fib(24) == 46368);
    lemma_fib_doubling(23, 28657, 46368);
    assert(spec_fib(46) == 1836311903 && spec_fib(47) == 2971215073);
    lemma_fib_doubling(46, 1836311903, 2971215073);
    assert(spec_fib(92) == 7540113804746346429 && spec_fib(93) == 12200160415121876738);
    assert(spec_fib(94) == 19740274219868223167);
    lemma_fib_doubling(93, 12200160415121876738, 19740274219868223167);
    assert(spec_fib(186) == 332825110087067562321196029789634457848);
    assert(spec_fib(187) == 538522340430300790495419781092981030533);
    assert(spec_fib(185) == spec_fib(187) - spec_fib(186));
}

/// A Fibonacci number fits 128 bits exactly when its index is at most 186.
pub proof fn lemma_fib_fits(n: nat)
    ensures
        spec_fib(n) <= u128::MAX <==> n <= LAST_INDEX,
{
    lemma_fib_edge();
    if n <= 186 {
        lemma_fib_monotonic(n, 186);
    } else {
        lemma_fib_monotonic(187, n);
    }
}

/// Where the Fibonacci producer was suspended.
#[derive(Clone, Copy)]
pub enum FibPoint {
    /// Before the first resumption.
    Start,
    /// At the yield of the first seed.
    AfterFirst,
    /// At the yield of the second seed or of a sum.
    Steady,
}

/// Hands out 0, 1, 1, 2, 3, 5, 8, ... and never completes.
///
/// The state is a pair of consecutive Fibonacci numbers, (0, 1) at first. The
/// two seeds are handed out as they are; from then on each resumption hands out
/// the sum of the pair and moves the pair one step on.
pub struct FibonacciProducer {
    point: FibPoint,
    a: u128,
    b: u128,
    emitted: Ghost<Seq<u128>>,
}

impl FibonacciProducer {
    /// A producer that has handed out nothing yet.
    pub fn new() -> (producer: Self)
        ensures
            producer.inv(),
            producer.emitted() == Seq::<u128>::empty(),
    {
        FibonacciProducer { point: FibPoint::Start, a: 0, b: 1, emitted: Ghost(Seq::empty()) }
    }
}

impl SuspendableProducer for FibonacciProducer {
    type Yield = u128;

    type Return = Infallible;

    closed spec fn inv(&self) -> bool {
        let n = self.emitted@.len();
        &&& forall|i: int| 0 <= i < n ==> #[trigger] self.emitted@[i] == spec_fib(i as nat)
        &&& match self.point {
            FibPoint::Start => n == 0 && self.a == 0 && self.b == 1,
            FibPoint::AfterFirst => n == 1 && self.a == 0 && self.b == 1,
            FibPoint::Steady => n >= 2 && self.a == spec_fib((n - 2) as nat) && self.b == spec_fib(
                (n - 1) as nat,
            ),
        }
    }

    closed spec fn emitted(&self) -> Seq<u128> {
        self.emitted@
    }

    open spec fn completed(&self) -> bool {
        false
    }

    /// The Fibonacci number that is due fits 128 bits.
    open spec fn can_resume(&self) -> bool {
        spec_fib(self.emitted().len()) <= u128::MAX
    }

    /// The resumption that follows `n` others hands out `fib(n)`.
    open spec fn resumes_to(&self, next: &Self, out: Resumed<u128, Infallible>) -> bool {
        &&& out matches Resumed::Yielded(v)
        &&& v == spec_fib(self.emitted().len())
        &&& next.emitted() == self.emitted().push(v)
    }

    fn resume(&mut self) -> (out: Resumed<u128, Infallible>) {
        let value = match self.point {
            FibPoint::Start => {
                self.point = FibPoint::AfterFirst;
                self.a
            },
            FibPoint::AfterFirst => {
                self.point = FibPoint::Steady;
                self.b
            },
            FibPoint::Steady => {
                let next = self.a + self.b;
                self.a = self.b;
                self.b = next;
                next
            },
        };
        self.emitted = Ghost(self.emitted@.push(value));
        Resumed::Yielded(value)
    }
}

impl Unending for FibonacciProducer {
    proof fn never_completes(&self, next: &Self, out: Resumed<u128, Infallible>) {
    }
}

/// The `n`-th value that a Fibonacci producer has handed out, counted from 0,
/// is `fib(n)`.
pub proof fn lemma_emitted_fibonacci(producer: &FibonacciProducer, n: int)
    requires
        producer.inv(),
        0 <= n < producer.emitted().len(),
    ensures
        producer.emitted()[n] == spec_fib(n as nat),
{
}

} // verus!
