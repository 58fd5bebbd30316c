//! Decoder combinators.

use vstd::prelude::*;

use crate::codec::Decodable;

pub mod and_then;
pub mod chain;
pub mod decode_exact;
pub mod map;

pub use self::and_then::AndThen;
pub use self::chain::Chain;
pub use self::decode_exact::DecodeExact;
pub use self::decode_exact::DecodeExactError;
pub use self::map::Mapped;

verus! {

/// Create a new `Chain` which first decodes via `first` and then via `second`.
pub fn chain<S: Decodable, T: Decodable<Error = S::Error>>(first: S, second: T) -> (c: Chain<S, T>)
    ensures
        c.wf() == (first.wf() && second.wf()),
        c.eof_only() == (first.eof_only() && second.eof_only()),
        c.bounded() == (first.bounded() && second.bounded()),
        c.fuel() == 1 + first.fuel() + second.fuel(),
        c.det() == (first.det() && second.det()),
        forall|s: Seq<u8>, i: (S::Item, T::Item), n: int| #[trigger]
            c.produces(s, i, n) <==> exists|na: int|
                0 <= na <= n && na <= s.len() && #[trigger] first.produces(s, i.0, na)
                    && second.produces(s.skip(na), i.1, n - na),
        forall|s: Seq<u8>, e: S::Error| #[trigger]
            c.fails_with(s, e) <==> (first.fails_with(s, e) || exists|a: S::Item, na: int|
                0 <= na <= s.len() && #[trigger] first.produces(s, a, na)
                    && second.fails_with(s.skip(na), e)),
{
    Chain::new(first, second)
}

/// Chain a computation on the result of a decoder.
pub fn map<D, F>(decoder: D, f: F) -> (m: Mapped<D, F>)
    ensures
        m.inner() == decoder,
        m.func() == f,
{
    Mapped::new(decoder, f)
}

} // verus!
