//! The incremental sieve of Eratosthenes as a suspendable producer.
//!
//! The sieve keeps no table of a fixed size. It walks the odd numbers and
//! holds, for each odd prime found so far, one marker: an entry of a map whose
//! key is an odd multiple of the prime that the walk has not reached yet and
//! whose value is twice the prime. A candidate is composite exactly when it is
//! a key of the map at the moment the walk reaches it.
use vstd::prelude::*;
use std::collections::HashMap;
use core::convert::Infallible;
use crate::generator::{Resumed, SuspendableProducer, Unending};
use crate::primes::{
    divides, is_prime, least_prime_factor, lemma_composite_has_small_factor,
    lemma_divides_difference, lemma_divides_product, lemma_divides_quotient, lemma_divides_sum,
    lemma_least_prime_factor,
};

verus! {

/// The entry `key -> step` is the marker of an odd prime below `c`: `step` is
/// twice the prime, and `key` is an odd multiple of it, no smaller than its
/// square, that a walk standing at `c` has not passed.
pub open spec fn is_marker(key: u128, step: u128, c: nat) -> bool {
    let p = (step / 2) as nat;
    &&& step == 2 * p
    &&& is_prime(p)
    &&& 3 <= p < c
    &&& divides(p, key as nat)
    &&& key % 2 == 1
    &&& p * p <= key
    &&& c <= key
}

/// Every entry of the map is a marker.
pub open spec fn markers_valid(m: Map<u128, u128>, c: nat) -> bool {
    forall|k: u128| m.contains_key(k) ==> is_marker(k, #[trigger] m[k], c)
}

/// No two entries belong to the same prime.
pub open spec fn one_marker_each(m: Map<u128, u128>) -> bool {
    forall|k1: u128, k2: u128|
        m.contains_key(k1) && m.contains_key(k2) && #[trigger] m[k1] == #[trigger] m[k2] ==> k1
            == k2
}

/// `x` is a number that the marker of the odd prime `p` has to account for:
/// an odd multiple of `p` from `p * p` on.
pub open spec fn due(p: nat, x: nat) -> bool {
    &&& is_prime(p)
    &&& p >= 3
    &&& divides(p, x)
    &&& x % 2 == 1
    &&& p * p <= x
}

/// The marker of `p` stands at `x` or before it.
pub open spec fn marker_at_or_before(m: Map<u128, u128>, p: nat, x: u128) -> bool {
    exists|k: u128| m.contains_key(k) && #[trigger] m[k] == 2 * p && k <= x
}

/// `x` will be found marked when the walk reaches it: it is a key already, or
/// the marker of `p` has still to pass it.
pub open spec fn covered(m: Map<u128, u128>, p: nat, x: u128) -> bool {
    m.contains_key(x) || marker_at_or_before(m, p, x)
}

/// Every odd prime below `c` has its due numbers from `c` on covered.
pub open spec fn all_covered(m: Map<u128, u128>, c: nat) -> bool {
    forall|p: nat, x: u128| #[trigger] due(p, x as nat) && p < c && c <= x ==> covered(m, p, x)
}

/// The invariant of the composite map for a walk that stands at the odd
/// candidate `c`.
pub open spec fn sieve_inv(m: Map<u128, u128>, c: nat) -> bool {
    &&& c >= 3
    &&& c % 2 == 1
    &&& markers_valid(m, c)
    &&& one_marker_each(m)
    &&& all_covered(m, c)
}

/// The state of the map while the marker of `p` is looking for a free slot, the
/// walk about to stand at `c`: the map is in order for every other prime, `p`
/// has no entry, what `p` has to account for below `slot` is marked by others, and
/// `slot` is the next number that `p` has to account for.
pub open spec fn pending(m: Map<u128, u128>, c: nat, p: nat, slot: nat) -> bool {
    &&& c >= 3
    &&& c % 2 == 1
    &&& markers_valid(m, c)
    &&& one_marker_each(m)
    &&& forall|k: u128| m.contains_key(k) ==> #[trigger] m[k] != 2 * p
    &&& forall|q: nat, x: u128| #[trigger]
        due(q, x as nat) && q < c && q != p && c <= x ==> covered(m, q, x)
    &&& forall|x: u128| #[trigger] due(p, x as nat) && c <= x < slot ==> m.contains_key(x)
    &&& due(p, slot)
    &&& p < c <= slot
    &&& 2 * p <= u128::MAX
}

/// A prime from 3 on is odd.
pub proof fn lemma_odd_prime(p: nat)
    requires
        is_prime(p),
        p >= 3,
    ensures
        p % 2 == 1,
{
    if p % 2 == 0 {
        assert(divides(2, p));
    }
}

/// From an odd multiple of an odd `p`, the next odd multiple of `p` is `2 * p`
/// further on.
pub proof fn lemma_next_odd_multiple(p: nat, k: nat, x: nat)
    requires
        p % 2 == 1,
        divides(p, k),
        divides(p, x),
        k % 2 == 1,
        x % 2 == 1,
        k < x,
    ensures
        x >= k + 2 * p,
{
    if x < k + 2 * p {
        lemma_divides_difference(p, k, x);
        let d = (x - k) as nat;
        lemma_divides_quotient(p, d);
        let t = d / p;
        assert(t == 1) by (nonlinear_arith)
            requires
                d == p * t,
                0 < d < 2 * p,
                p > 0,
        ;
        assert(d == p) by (nonlinear_arith)
            requires
                d == p * t,
                t == 1,
        ;
    }
}

/// A key of the map is composite.
pub proof fn lemma_marked_is_composite(m: Map<u128, u128>, c: u128)
    requires
        sieve_inv(m, c as nat),
        m.contains_key(c),
    ensures
        !is_prime(c as nat),
{
    let step = m[c];
    assert(is_marker(c, step, c as nat));
    let p = (step / 2) as nat;
    assert(divides(p, c as nat));
}

/// A candidate that is no key of the map is prime.
pub proof fn lemma_unmarked_is_prime(m: Map<u128, u128>, c: u128)
    requires
        sieve_inv(m, c as nat),
        !m.contains_key(c),
    ensures
        is_prime(c as nat),
{
    let n = c as nat;
    if !is_prime(n) {
        lemma_least_prime_factor(n);
        lemma_composite_has_small_factor(n);
        let p = least_prime_factor(n);
        if p == 2 {
            assert(divides(2, n));
        }
        assert(due(p, c as nat));
        assert(covered(m, p, c));
        let k = choose|k: u128| m.contains_key(k) && #[trigger] m[k] == 2 * p && k <= c;
        assert(is_marker(k, m[k], n));
    }
}

/// A slot that another marker holds is passed over: the search goes on
/// `2 * p` further.
pub proof fn lemma_pending_skip(m: Map<u128, u128>, c: nat, p: nat, slot: u128)
    requires
        pending(m, c, p, slot as nat),
        m.contains_key(slot),
    ensures
        pending(m, c, p, slot as nat + 2 * p),
{
    let next = slot as nat + 2 * p;
    lemma_odd_prime(p);
    assert forall|x: u128| #[trigger] due(p, x as nat) && c <= x < next implies m.contains_key(
        x,
    ) by {
        if x > slot {
            lemma_next_odd_multiple(p, slot as nat, x as nat);
        }
    }
    lemma_divides_product(p, 2);
    lemma_divides_sum(p, slot as nat, 2 * p);
}

/// A free slot takes the marker, and the map is in order again.
pub proof fn lemma_pending_settle(m: Map<u128, u128>, c: nat, p: nat, slot: u128)
    requires
        pending(m, c, p, slot as nat),
        !m.contains_key(slot),
    ensures
        sieve_inv(m.insert(slot, (2 * p) as u128), c),
{
    let step = (2 * p) as u128;
    let m2 = m.insert(slot, step);
    assert(is_marker(slot, step, c));
    assert forall|k: u128| m2.contains_key(k) implies is_marker(k, #[trigger] m2[k], c) by {
        if k != slot {
            assert(is_marker(k, m[k], c));
        }
    }
    assert forall|k1: u128, k2: u128|
        m2.contains_key(k1) && m2.contains_key(k2) && #[trigger] m2[k1] == #[trigger] m2[k2]
            implies k1 == k2 by {
        if k1 != slot && k2 != slot {
            assert(m[k1] == m[k2]);
        } else if k1 != slot {
            assert(m[k1] != 2 * p);
        } else if k2 != slot {
            assert(m[k2] != 2 * p);
        }
    }
    assert forall|q: nat, x: u128| #[trigger] due(q, x as nat) && q < c && c <= x implies covered(
        m2,
        q,
        x,
    ) by {
        if q == p {
            if x < slot {
                assert(m.contains_key(x));
            } else {
                assert(m2.contains_key(slot) && m2[slot] == 2 * p && slot <= x);
            }
        } else {
            assert(covered(m, q, x));
            if !m.contains_key(x) {
                let k = choose|k: u128| m.contains_key(k) && #[trigger] m[k] == 2 * q && k <= x;
                assert(m2.contains_key(k) && m2[k] == 2 * q && k <= x);
            }
        }
    }
}

/// A marker whose next slot lies beyond the machine's range is dropped: nothing
/// in range is left for it to account for.
pub proof fn lemma_pending_out_of_range(m: Map<u128, u128>, c: nat, p: nat, slot: nat)
    requires
        pending(m, c, p, slot),
        slot > u128::MAX,
    ensures
        sieve_inv(m, c),
{
    assert forall|q: nat, x: u128| #[trigger] due(q, x as nat) && q < c && c <= x implies covered(
        m,
        q,
        x,
    ) by {
        if q == p {
            assert(m.contains_key(x));
        }
    }
}

/// Taking the marker off a composite candidate leaves the map waiting for that
/// marker to settle, the walk one candidate further.
pub proof fn lemma_move_pending(m: Map<u128, u128>, c: u128)
    requires
        sieve_inv(m, c as nat),
        m.contains_key(c),
    ensures
        m[c] == 2 * (m[c] / 2),
        pending(m.remove(c), c as nat + 2, (m[c] / 2) as nat, (c + m[c]) as nat),
{
    let step = m[c];
    let p = (step / 2) as nat;
    let m1 = m.remove(c);
    let c2 = c as nat + 2;
    let slot = (c + step) as nat;
    assert(is_marker(c, step, c as nat));
    lemma_odd_prime(p);
    assert forall|k: u128| m1.contains_key(k) implies is_marker(k, #[trigger] m1[k], c2) by {
        assert(is_marker(k, m[k], c as nat));
    }
    assert forall|k1: u128, k2: u128|
        m1.contains_key(k1) && m1.contains_key(k2) && #[trigger] m1[k1] == #[trigger] m1[k2]
            implies k1 == k2 by {
        assert(m[k1] == m[k2]);
    }
    assert forall|k: u128| m1.contains_key(k) implies #[trigger] m1[k] != 2 * p by {
        if m1[k] == 2 * p {
            assert(m[k] == m[c]);
        }
    }
    assert forall|q: nat, x: u128| #[trigger]
        due(q, x as nat) && q < c2 && q != p && c2 <= x implies covered(m1, q, x) by {
        if q >= c {
            lemma_odd_prime(q);
            if q == c {
                assert(divides(p, c as nat));
            }
        }
        assert(covered(m, q, x));
        if !m.contains_key(x) {
            let k = choose|k: u128| m.contains_key(k) && #[trigger] m[k] == 2 * q && k <= x;
            assert(m1.contains_key(k) && m1[k] == 2 * q && k <= x);
        }
    }
    assert forall|x: u128| #[trigger] due(p, x as nat) && c2 <= x < slot implies m1.contains_key(
        x,
    ) by {
        lemma_next_odd_multiple(p, c as nat, x as nat);
    }
    lemma_divides_product(p, 2);
    lemma_divides_sum(p, c as nat, 2 * p);
}

/// A candidate that is no key of the map is prime, and the map waits for its
/// marker, which starts at its square.
pub proof fn lemma_register_pending(m: Map<u128, u128>, c: u128)
    requires
        sieve_inv(m, c as nat),
        !m.contains_key(c),
        2 * c <= u128::MAX,
    ensures
        is_prime(c as nat),
        pending(m, c as nat + 2, c as nat, c as nat * c as nat),
{
    let p = c as nat;
    let c2 = p + 2;
    lemma_unmarked_is_prime(m, c);
    assert forall|k: u128| m.contains_key(k) implies is_marker(k, #[trigger] m[k], c2) by {
        assert(is_marker(k, m[k], p));
    }
    assert forall|k: u128| m.contains_key(k) implies #[trigger] m[k] != 2 * p by {
        assert(is_marker(k, m[k], p));
    }
    assert forall|q: nat, x: u128| #[trigger]
        due(q, x as nat) && q < c2 && q != p && c2 <= x implies covered(m, q, x) by {
        if q > p {
            lemma_odd_prime(q);
        }
    }
    lemma_divides_product(p, p);
    let t = p / 2;
    assert(p * p >= p + 2 && p * p == 2 * (2 * t * t + 2 * t) + 1) by (nonlinear_arith)
        requires
            p >= 3,
            p == 2 * t + 1,
    ;
}

/// A prime whose square lies beyond the machine's range needs no marker.
pub proof fn lemma_register_out_of_range(m: Map<u128, u128>, c: u128)
    requires
        sieve_inv(m, c as nat),
        !m.contains_key(c),
        c as nat * c as nat > u128::MAX,
    ensures
        is_prime(c as nat),
        sieve_inv(m, c as nat + 2),
{
    let p = c as nat;
    let c2 = p + 2;
    lemma_unmarked_is_prime(m, c);
    assert forall|k: u128| m.contains_key(k) implies is_marker(k, #[trigger] m[k], c2) by {
        assert(is_marker(k, m[k], p));
    }
    assert forall|q: nat, x: u128| #[trigger] due(q, x as nat) && q < c2 && c2 <= x implies covered(
        m,
        q,
        x,
    ) by {
        if q > p {
            lemma_odd_prime(q);
        }
    }
}

/// `s` lists, in ascending order, exactly the primes below `bound`.
pub open spec fn lists_primes_below(s: Seq<u128>, bound: nat) -> bool {
    &&& forall|i: int| 0 <= i < s.len() ==> is_prime(#[trigger] s[i] as nat) && s[i] < bound
    &&& forall|i: int, j: int| 0 <= i < j < s.len() ==> s[i] < s[j]
    &&& forall|q: u128| #[trigger] is_prime(q as nat) && q < bound ==> s.contains(q)
}

/// A list of the primes below `bound` is the list of the primes below
/// `bound + 1` where `bound` is no prime: where it is even and above 2, or a
/// composite that the sieve has marked.
pub proof fn lemma_no_prime_at(s: Seq<u128>, bound: nat)
    requires
        lists_primes_below(s, bound),
        !is_prime(bound) || (bound % 2 == 0 && bound > 2),
    ensures
        lists_primes_below(s, bound + 1),
{
    if bound % 2 == 0 && bound > 2 {
        assert(divides(2, bound));
    }
}

/// The number that every prime still to come exceeds: the last one handed out,
/// or 1 before the first.
pub open spec fn floor_of(s: Seq<u128>) -> nat {
    if s.len() == 0 {
        1
    } else {
        s.last() as nat
    }
}

/// `v` is the least prime above `low`.
pub open spec fn next_prime_after(low: nat, v: nat) -> bool {
    &&& is_prime(v)
    &&& low < v
    &&& forall|q: nat| low < q < v ==> !#[trigger] is_prime(q)
}

/// Where the sieve was suspended.
#[derive(Clone, Copy)]
pub enum SievePoint {
    /// Before the first resumption.
    Start,
    /// At the yield of 2, before the map and the walk exist.
    AfterTwo,
    /// At the yield of an odd prime, whose marker is not registered yet.
    AfterCandidate,
}

/// The incremental sieve: hands out 2, 3, 5, 7, 11, ... and never completes.
pub struct PrimeProducer {
    point: SievePoint,
    n: u128,
    composites: HashMap<u128, u128>,
    emitted: Ghost<Seq<u128>>,
}

/// Puts the marker of a prime on the first free slot among `first`,
/// `first + step`, `first + 2 * step`, ..., or drops it when the search leaves
/// the machine's range.
fn settle(composites: &mut HashMap<u128, u128>, first: u128, step: u128, Ghost(c): Ghost<nat>)
    requires
        step == 2 * (step / 2),
        pending(old(composites)@, c, (step / 2) as nat, first as nat),
    ensures
        sieve_inv(final(composites)@, c),
        final(composites)@.len() <= old(composites)@.len() + 1,
{
    broadcast use vstd::std_specs::hash::group_hash_axioms;

    let ghost p = (step / 2) as nat;
    let mut slot = first;
    loop
        invariant
            step == 2 * p,
            pending(composites@, c, p, slot as nat),
            composites@ == old(composites)@,
        decreases u128::MAX - slot,
    {
        if !composites.contains_key(&slot) {
            proof {
                lemma_pending_settle(composites@, c, p, slot);
            }
            composites.insert(slot, step);
            return ;
        }
        proof {
            lemma_pending_skip(composites@, c, p, slot);
        }
        match slot.checked_add(step) {
            Some(next) => {
                slot = next;
            },
            None => {
                proof {
                    lemma_pending_out_of_range(composites@, c, p, (slot + step) as nat);
                }
                return ;
            },
        }
    }
}

impl PrimeProducer {
    /// A sieve that has handed out nothing yet.
    pub fn new() -> (producer: Self)
        ensures
            producer.inv(),
            producer.emitted() == Seq::<u128>::empty(),
    {
        PrimeProducer {
            point: SievePoint::Start,
            n: 3,
            composites: HashMap::new(),
            emitted: Ghost(Seq::empty()),
        }
    }

    /// The composite map: from a marked number to the step of its marker.
    pub closed spec fn markers(&self) -> Map<u128, u128> {
        self.composites@
    }

    /// Whether the walk over the odd candidates has begun: an odd prime was
    /// handed out.
    pub closed spec fn walking(&self) -> bool {
        self.point is AfterCandidate
    }

    /// Registers the marker of the prime that was handed out last, at its
    /// square with step twice the prime. A prime whose square does not fit the
    /// machine's integers gets none, for want of anything in range to mark.
    fn register(&mut self)
        requires
            sieve_inv(old(self).composites@, old(self).n as nat),
            !old(self).composites@.contains_key(old(self).n),
        ensures
            sieve_inv(final(self).composites@, old(self).n as nat + 2),
            final(self).composites@.len() <= old(self).composites@.len() + 1,
            final(self).n == old(self).n,
            final(self).point == old(self).point,
            final(self).emitted == old(self).emitted,
    {
        let n = self.n;
        match n.checked_mul(n) {
            Some(start) => {
                assert(2 * n <= n * n) by (nonlinear_arith)
                    requires
                        n >= 3,
                ;
                let step = 2 * n;
                proof {
                    lemma_register_pending(self.composites@, n);
                }
                settle(&mut self.composites, start, step, Ghost(n as nat + 2));
            },
            None => {
                proof {
                    lemma_register_out_of_range(self.composites@, n);
                }
            },
        }
    }

    /// Moves the marker that was taken off the composite candidate to its next
    /// free slot.
    fn relocate(&mut self, step: u128, Ghost(before): Ghost<Map<u128, u128>>)
        requires
            sieve_inv(before, old(self).n as nat),
            before.contains_key(old(self).n),
            before[old(self).n] == step,
            old(self).composites@ == before.remove(old(self).n),
        ensures
            sieve_inv(final(self).composites@, old(self).n as nat + 2),
            final(self).composites@.len() <= before.len(),
            final(self).n == old(self).n,
            final(self).point == old(self).point,
            final(self).emitted == old(self).emitted,
    {
        broadcast use vstd::std_specs::hash::group_hash_axioms;

        let n = self.n;
        proof {
            lemma_move_pending(before, n);
            assert(before.dom().finite()) by {
                assert(before.dom() =~= self.composites@.dom().insert(n));
            }
        }
        match n.checked_add(step) {
            Some(first) => {
                settle(&mut self.composites, first, step, Ghost(n as nat + 2));
            },
            None => {
                proof {
                    lemma_pending_out_of_range(
                        self.composites@,
                        n as nat + 2,
                        (step / 2) as nat,
                        (n + step) as nat,
                    );
                }
            },
        }
    }
}

impl SuspendableProducer for PrimeProducer {
    type Yield = u128;

    type Return = Infallible;

    closed spec fn inv(&self) -> bool {
        match self.point {
            SievePoint::Start => self.emitted@ == Seq::<u128>::empty() && self.composites@
                == Map::<u128, u128>::empty(),
            SievePoint::AfterTwo => self.emitted@ == seq![2u128] && self.composites@ == Map::<
                u128,
                u128,
            >::empty(),
            SievePoint::AfterCandidate => {
                &&& sieve_inv(self.composites@, self.n as nat)
                &&& !self.composites@.contains_key(self.n)
                &&& lists_primes_below(self.emitted@, self.n as nat + 1)
                &&& self.emitted@.len() >= self.composites@.len() + 2
                &&& self.emitted@.last() == self.n
            },
        }
    }

    closed spec fn emitted(&self) -> Seq<u128> {
        self.emitted@
    }

    open spec fn completed(&self) -> bool {
        false
    }

    /// A prime above every one handed out so far fits the machine's integers.
    open spec fn can_resume(&self) -> bool {
        exists|p: u128| #[trigger] is_prime(p as nat) && p > floor_of(self.emitted())
    }

    /// One resumption hands out the least prime above those handed out before.
    open spec fn resumes_to(&self, next: &Self, out: Resumed<u128, Infallible>) -> bool {
        &&& out matches Resumed::Yielded(v)
        &&& next_prime_after(floor_of(self.emitted()), v as nat)
        &&& next.emitted() == self.emitted().push(v)
    }

    fn resume(&mut self) -> (out: Resumed<u128, Infallible>) {
        broadcast use vstd::std_specs::hash::group_hash_axioms;

        let ghost w = choose|p: u128| #[trigger]
            is_prime(p as nat) && p > floor_of(self.emitted());
        match self.point {
            SievePoint::Start => {
                self.point = SievePoint::AfterTwo;
                self.emitted = Ghost(self.emitted@.push(2));
                assert(self.emitted@ =~= seq![2u128]);
                assert(is_prime(2));
                return Resumed::Yielded(2);
            },
            SievePoint::AfterTwo => {
                self.n = 3;
                assert(is_prime(2));
                assert(self.emitted@[0] == 2);
                assert(w >= 3);
            },
            SievePoint::AfterCandidate => {
                proof {
                    lemma_unmarked_is_prime(self.composites@, self.n);
                    lemma_odd_prime(w as nat);
                }
                self.register();
                proof {
                    lemma_no_prime_at(self.emitted@, self.n as nat + 1);
                }
                self.n = self.n + 2;
            },
        }
        loop
            invariant
                self.emitted == old(self).emitted,
                sieve_inv(self.composites@, self.n as nat),
                lists_primes_below(self.emitted@, self.n as nat),
                is_prime(w as nat),
                self.n <= w,
                self.emitted@.len() >= self.composites@.len() + 1,
            decreases w - self.n,
        {
            let ghost before = self.composites@;
            match self.composites.remove(&self.n) {
                Some(step) => {
                    proof {
                        lemma_marked_is_composite(before, self.n);
                        lemma_odd_prime(w as nat);
                    }
                    self.relocate(step, Ghost(before));
                    proof {
                        lemma_no_prime_at(self.emitted@, self.n as nat);
                        lemma_no_prime_at(self.emitted@, self.n as nat + 1);
                    }
                    self.n = self.n + 2;
                },
                None => {
                    let n = self.n;
                    proof {
                        lemma_unmarked_is_prime(before, n);
                        assert(self.composites@ =~= before);
                    }
                    let ghost earlier = self.emitted@;
                    self.point = SievePoint::AfterCandidate;
                    self.emitted = Ghost(earlier.push(n));
                    proof {
                        let later = self.emitted@;
                        assert forall|q: u128| #[trigger]
                            is_prime(q as nat) && q < n + 1 implies later.contains(q) by {
                            if q == n {
                                assert(later[earlier.len() as int] == n);
                            } else {
                                let i = choose|i: int| 0 <= i < earlier.len() && earlier[i] == q;
                                assert(later[i] == q);
                            }
                        }
                        assert forall|q: nat|
                            floor_of(earlier) < q < n implies !#[trigger] is_prime(q) by {
                            if is_prime(q) {
                                assert(is_prime(q as u128 as nat));
                                let i = choose|i: int|
                                    0 <= i < earlier.len() && earlier[i] == q as u128;
                            }
                        }
                    }
                    return Resumed::Yielded(n);
                },
            }
        }
    }
}

impl Unending for PrimeProducer {
    proof fn never_completes(&self, next: &Self, out: Resumed<u128, Infallible>) {
    }
}

/// `s` is the ascending list of the first `s.len()` primes: every entry is
/// prime, the entries ascend, and no prime below the last entry is missing.
pub open spec fn first_primes(s: Seq<u128>) -> bool {
    lists_primes_below(s, floor_of(s) + 1)
}

/// The first `k` entries of a list of the first primes are the list of the
/// first `k` primes.
pub proof fn lemma_first_primes_prefix(s: Seq<u128>, k: int)
    requires
        first_primes(s),
        0 <= k <= s.len(),
    ensures
        first_primes(s.take(k)),
{
    let t = s.take(k);
    if k > 0 {
        assert forall|i: int| 0 <= i < t.len() implies is_prime(#[trigger] t[i] as nat) && t[i]
            < floor_of(t) + 1 by {
            assert(t[i] == s[i]);
            if i < k - 1 {
                assert(s[i] < s[k - 1]);
            }
        }
        assert forall|i: int, j: int| 0 <= i < j < t.len() implies t[i] < t[j] by {
            assert(s[i] < s[j]);
        }
        assert forall|q: u128| #[trigger]
            is_prime(q as nat) && q < floor_of(t) + 1 implies t.contains(q) by {
            if k - 1 < s.len() - 1 {
                assert(s[k - 1] < s[s.len() - 1]);
            }
            assert(s.contains(q));
            let i = choose|i: int| 0 <= i < s.len() && s[i] == q;
            if i > k - 1 {
                assert(s[k - 1] < s[i]);
            }
            assert(t[i] == q);
        }
    }
}

/// What a sieve has handed out is, at every moment, the ascending list of the
/// first primes.
pub proof fn lemma_emitted_first_primes(producer: &PrimeProducer)
    requires
        producer.inv(),
    ensures
        first_primes(producer.emitted()),
{
    let s = producer.emitted();
    match producer.point {
        SievePoint::Start => {},
        SievePoint::AfterTwo => {
            assert(s[0] == 2);
            assert(is_prime(2));
            assert forall|q: u128| #[trigger] is_prime(q as nat) && q < 3 implies s.contains(q) by {
                assert(s[0] == q);
            }
        },
        SievePoint::AfterCandidate => {},
    }
}

/// The state of the composite map between two resumptions. Before the walk
/// the map is empty. During the walk, which stands at the prime handed out
/// last, every entry is the marker of an odd prime below that prime, no prime
/// has two markers, every odd multiple of such a prime that is still to come is
/// covered, and the prime handed out last is not marked.
pub proof fn lemma_markers_in_order(producer: &PrimeProducer)
    requires
        producer.inv(),
    ensures
        !producer.walking() ==> producer.markers() == Map::<u128, u128>::empty(),
        producer.walking() ==> producer.emitted().len() > 0 && sieve_inv(
            producer.markers(),
            producer.emitted().last() as nat,
        ) && !producer.markers().contains_key(producer.emitted().last()),
{
}

/// The composite map holds no more entries than primes were handed out: one
/// for each odd prime whose marker is registered and still in range.
pub proof fn lemma_markers_counted(producer: &PrimeProducer)
    requires
        producer.inv(),
    ensures
        producer.markers().dom().finite(),
        producer.markers().len() <= producer.emitted().len(),
{
    broadcast use vstd::std_specs::hash::group_hash_axioms;

}

} // verus!
