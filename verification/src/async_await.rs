//! Futures driven by generators.
//!
//! A [`GenFuture`] wraps a generator that yields [`AsyncYield`] whenever a
//! future it awaits is not ready, and returns a `Result` when it is done. Each
//! poll resumes the generator once; what the poll answers follows from what the
//! generator did, as [`poll_outcome`] states.

use vstd::prelude::*;

verus! {

/// What a generator yields when a future it awaits is not ready yet.
pub struct AsyncYield;

/// A future that runs the generator it wraps.
pub struct GenFuture<T>(T);

impl<T> GenFuture<T> {
    /// The wrapped generator.
    pub closed spec fn inner(&self) -> T {
        self.0
    }

    /// Wraps the generator `inner`.
    pub fn new(inner: T) -> (future: GenFuture<T>)
        ensures
            future.inner() == inner,
    {
        GenFuture(inner)
    }
}

/// What resuming a generator gave: it yielded, or it completed with a value.
pub enum Resumed<R> {
    Yielded(AsyncYield),
    Complete(R),
}

/// Whether a polled future has its value.
pub enum Readiness<T> {
    Ready(T),
    NotReady,
}

/// What a poll answers after resuming the generator once: not ready when it
/// yielded; when it completed, its value as ready, or its error as the error.
pub fn poll_outcome<U, E>(state: Resumed<Result<U, E>>) -> (poll: Result<Readiness<U>, E>)
    ensures
        match state {
            Resumed::Yielded(_) => poll matches Ok(Readiness::NotReady),
            Resumed::Complete(Ok(u)) => poll == Ok::<Readiness<U>, E>(Readiness::Ready(u)),
            Resumed::Complete(Err(e)) => poll == Err::<Readiness<U>, E>(e),
        },
{
    match state {
        Resumed::Yielded(_) => Ok(Readiness::NotReady),
        Resumed::Complete(r) => match r {
            Ok(u) => Ok(Readiness::Ready(u)),
            Err(e) => Err(e),
        },
    }
}

} // verus!
