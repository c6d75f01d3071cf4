//! Pull-based sequences over suspendable computations.
//!
//! A [`SuspendableProducer`] is a computation that pauses each time it has a
//! value to hand out and keeps its locals across the pause. The two adapters
//! turn such a producer into a sequence that a consumer pulls from:
//! [`Generator`] for producers that may complete, [`InfiniteGenerator`] for
//! producers that are proved never to complete.
use vstd::prelude::*;

verus! {

use core::convert::Infallible;

/// What one resumption of a producer hands back.
pub enum Resumed<Y, R> {
    /// The producer paused at a yield point with this value.
    Yielded(Y),
    /// The producer ran to its end.
    Complete(R),
}

/// A computation that runs from one suspension point to the next.
///
/// The state of a producer is a resume position together with every local that
/// has to survive a pause. `resume` is its only operation.
pub trait SuspendableProducer: Sized {
    /// The type of the values handed out at the suspension points.
    type Yield;

    /// The type of the completion signal: `()` for a producer that may end,
    /// [`Infallible`] for one that cannot.
    type Return;

    /// The invariant of the captured state. It holds of a fresh producer and
    /// every resumption keeps it.
    spec fn inv(&self) -> bool;

    /// The values yielded so far, oldest first.
    spec fn emitted(&self) -> Seq<Self::Yield>;

    /// Whether completion has been signalled.
    spec fn completed(&self) -> bool;

    /// Whether the next resumption stays inside the limits of the machine
    /// integers that the producer computes with.
    spec fn can_resume(&self) -> bool;

    /// The transition that one resumption makes: from `self` to `next`, handing
    /// out `out`.
    spec fn resumes_to(&self, next: &Self, out: Resumed<Self::Yield, Self::Return>) -> bool;

    /// Runs the computation to its next suspension point or to its end.
    fn resume(&mut self) -> (out: Resumed<Self::Yield, Self::Return>)
        requires
            old(self).inv(),
            !old(self).completed(),
            old(self).can_resume(),
        ensures
            final(self).inv(),
            old(self).resumes_to(final(self), out),
            match out {
                Resumed::Yielded(v) => final(self).emitted() == old(self).emitted().push(v)
                    && !final(self).completed(),
                Resumed::Complete(_) => final(self).emitted() == old(self).emitted()
                    && final(self).completed(),
            },
    ;
}

/// A producer that never completes, with the proof of it.
///
/// The completion type [`Infallible`] has no values, so the compiler already
/// rules out a completion signal; `never_completes` states the same of the
/// transition relation, where the verifier can use it.
pub trait Unending: SuspendableProducer<Return = Infallible> {
    /// No transition of this producer ends in completion.
    proof fn never_completes(&self, next: &Self, out: Resumed<Self::Yield, Infallible>)
        requires
            self.inv(),
            self.resumes_to(next, out),
        ensures
            out is Yielded,
    ;
}

/// A sequence drawn from a producer that may complete.
///
/// Once the producer has signalled completion the generator is drained: it
/// answers `None` from then on and never resumes the producer again.
pub struct Generator<C: SuspendableProducer<Return = ()>> {
    producer: C,
    done: bool,
}

/// A sequence drawn from a producer that cannot complete.
pub struct InfiniteGenerator<C: Unending> {
    producer: C,
}

impl<C: SuspendableProducer<Return = ()>> Generator<C> {
    /// The wrapped producer.
    pub closed spec fn producer(&self) -> C {
        self.producer
    }

    /// Whether the completion signal has been observed.
    pub closed spec fn is_done(&self) -> bool {
        self.done
    }

    /// The values pulled so far, oldest first.
    pub open spec fn emitted(&self) -> Seq<C::Yield> {
        self.producer().emitted()
    }

    /// The producer is in a valid state, and the flag is set exactly when the
    /// producer has completed.
    pub open spec fn inv(&self) -> bool {
        &&& self.producer().inv()
        &&& self.is_done() == self.producer().completed()
    }

    /// Pulls the next value, or `None` once the sequence is exhausted.
    ///
    /// A drained generator is left as it is. Otherwise the producer is resumed
    /// exactly once, a yielded value is passed on, and completion sets the flag.
    pub fn next(&mut self) -> (r: Option<C::Yield>)
        requires
            old(self).inv(),
            !old(self).is_done() ==> old(self).producer().can_resume(),
        ensures
            final(self).inv(),
            old(self).is_done() ==> r is None && *final(self) == *old(self),
            !old(self).is_done() ==> match r {
                Some(v) => {
                    &&& old(self).producer().resumes_to(
                        &final(self).producer(),
                        Resumed::Yielded(v),
                    )
                    &&& final(self).emitted() == old(self).emitted().push(v)
                    &&& !final(self).is_done()
                },
                None => {
                    &&& old(self).producer().resumes_to(
                        &final(self).producer(),
                        Resumed::Complete(()),
                    )
                    &&& final(self).emitted() == old(self).emitted()
                    &&& final(self).is_done()
                },
            },
    {
        if self.done {
            return None;
        }
        match self.producer.resume() {
            Resumed::Yielded(val) => Some(val),
            Resumed::Complete(unit) => {
                assert(unit == ());
                self.done = true;
                None
            },
        }
    }
}

impl<C: Unending> InfiniteGenerator<C> {
    /// The wrapped producer.
    pub closed spec fn producer(&self) -> C {
        self.producer
    }

    /// The values pulled so far, oldest first.
    pub open spec fn emitted(&self) -> Seq<C::Yield> {
        self.producer().emitted()
    }

    /// The producer is in a valid state and has not completed.
    pub open spec fn inv(&self) -> bool {
        &&& self.producer().inv()
        &&& !self.producer().completed()
    }

    /// Pulls the next value. There is always one: the producer is resumed
    /// and cannot complete.
    pub fn next_value(&mut self) -> (value: C::Yield)
        requires
            old(self).inv(),
            old(self).producer().can_resume(),
        ensures
            final(self).inv(),
            old(self).producer().resumes_to(&final(self).producer(), Resumed::Yielded(value)),
            final(self).emitted() == old(self).emitted().push(value),
    {
        let ghost before = self.producer;
        let out = self.producer.resume();
        proof {
            before.never_completes(&self.producer, out);
        }
        match out {
            Resumed::Yielded(val) => val,
            Resumed::Complete(_) => vstd::pervasive::unreached(),
        }
    }

    /// Pulls the next value, in the shape in which a sequence that may end
    /// answers. The result is never `None`.
    pub fn next(&mut self) -> (r: Option<C::Yield>)
        requires
            old(self).inv(),
            old(self).producer().can_resume(),
        ensures
            final(self).inv(),
            r is Some,
            old(self).producer().resumes_to(&final(self).producer(), Resumed::Yielded(r->0)),
            final(self).emitted() == old(self).emitted().push(r->0),
    {
        Some(self.next_value())
    }
}

/// Wraps a fresh producer that may complete.
pub fn create_generator<C: SuspendableProducer<Return = ()>>(producer: C) -> (g: Generator<C>)
    requires
        producer.inv(),
        !producer.completed(),
    ensures
        g.inv(),
        g.producer() == producer,
        !g.is_done(),
{
    Generator { producer, done: false }
}

/// Wraps a producer that cannot complete.
pub fn create_infinite_generator<C: Unending>(producer: C) -> (g: InfiniteGenerator<C>)
    requires
        producer.inv(),
        !producer.completed(),
    ensures
        g.inv(),
        g.producer() == producer,
{
    InfiniteGenerator { producer }
}

} // verus!
