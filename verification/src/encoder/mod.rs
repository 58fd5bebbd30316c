//! Encoder combinators.

use vstd::prelude::*;

pub mod chain;

pub use self::chain::Chain;

use crate::codec::Encodable;

verus! {

/// Chain two encoders, writing them in sequence.
pub fn chain<S: Encodable, T: Encodable>(first: S, second: T) -> (c: Chain<S, T>)
    ensures
        c.wf() == (first.wf() && second.wf() && first.output().len() + second.output().len()
            <= usize::MAX),
        c.output() == first.output() + second.output(),
        c.bounded() == (first.bounded() && second.bounded()),
        c.fuel() == 1 + first.fuel() + second.fuel(),
{
    Chain::new(first, second)
}

} // verus!
