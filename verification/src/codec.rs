//! The contract every decoder and encoder satisfies.
//!
//! A codec value carries the remaining work of one decoding or encoding job.
//! Its single resumption operation consumes the value and returns one of four
//! outcomes: final completion with the bytes moved in this step, intermediate
//! progress with a successor value, suspension (the transport was not ready;
//! the successor must not be resumed until it is), or terminal failure.
//!
//! The contract is stated against two spec-level descriptions of a decoder
//! state: `produces(s, item, n)` says that, run over a byte stream beginning
//! with `s`, the remaining work finishes with `item` after consuming exactly
//! the first `n` bytes; `fails_with(s, e)` says that over `s` it fails with
//! the data error `e`. Both are prefix-insensitive in the sense that every
//! outcome clause quantifies over all continuations of the bytes actually
//! consumed, so the stated behaviour cannot depend on how the transport chunks
//! its bytes. For encoders the description is `output()`: exactly the bytes
//! the remaining work will write.

use vstd::prelude::*;

use crate::transport::cap_shrunk;
use crate::transport::Reader;
use crate::transport::TransportError;
use crate::transport::Writer;

verus! {

/// A decode failure: either the transport failed, or the bytes were
/// semantically invalid.
#[derive(Debug)]
pub enum DecodeError<E> {
    /// The underlying reader failed.
    ReaderError(TransportError),
    /// The bytes read were invalid for the decoder.
    DataError(E),
}

/// Outcome of one decode resumption step.
pub enum PollDec<I, D, E> {
    /// Decoding finished with this item, consuming this many bytes in this step.
    Done(I, usize),
    /// Not finished; resume the successor immediately. This many bytes were
    /// consumed in this step.
    Progress(D, usize),
    /// The reader was not ready; resume the successor once it is. No bytes
    /// were consumed.
    Pending(D),
    /// Terminal failure; the codec value is spent.
    Errored(DecodeError<E>),
}

/// Outcome of one encode resumption step.
pub enum PollEnc<C> {
    /// Encoding finished, writing this many bytes in this step.
    Done(usize),
    /// Not finished; resume the successor immediately. This many bytes were
    /// written in this step.
    Progress(C, usize),
    /// The writer was not ready; resume the successor once it is. No bytes
    /// were written.
    Pending(C),
    /// Terminal failure; the codec value is spent.
    Errored(TransportError),
}

/// A decoder: produces an item from a reader over one or more resumption steps.
pub trait Decodable: Sized {
    /// The decoded item.
    type Item;

    /// The semantic (data) error this decoder can fail with.
    type Error;

    /// Well-formedness of this decoder state.
    spec fn wf(self) -> bool;

    /// Over a stream beginning with `s`, the remaining work finishes with
    /// `item` after consuming exactly the first `n` bytes of `s`.
    spec fn produces(self, s: Seq<u8>, item: Self::Item, n: int) -> bool;

    /// Over a stream beginning with `s`, the remaining work fails with the
    /// data error `e`.
    spec fn fails_with(self, s: Seq<u8>, e: Self::Error) -> bool;

    /// Whether this decoder, and everything it can become, reports a transport
    /// error only as `UnexpectedEof`, only with the reader exhausted, and only
    /// when no parse fits inside the window it was offered. A combinator that
    /// narrows the transport itself (`DecodeExact`) does not have this.
    spec fn eof_only(self) -> bool;

    /// Whether this decoder admits the `fuel` bound on consecutive zero-byte
    /// progress steps. A combinator whose shape depends on a continuation
    /// (`AndThen`) does not.
    spec fn bounded(self) -> bool;

    /// An upper bound on the zero-byte progress steps this decoder can take
    /// before it must consume a byte, suspend, or finish; meaningful only
    /// under `bounded`.
    spec fn fuel(self) -> nat;

    /// Whether this decoder is deterministic: `produces` pins a unique item
    /// and byte count, every step stays within that count, and progress
    /// carries the parse forward. A combinator whose shape depends on a
    /// continuation (`AndThen`) or on an arbitrary function (`Mapped`) does
    /// not claim this.
    spec fn det(self) -> bool;

    /// Under `det`, `produces` is a partial function: at most one item and
    /// count fit a given stream.
    proof fn lemma_det_unique(self, s: Seq<u8>, i1: Self::Item, n1: int, i2: Self::Item, n2: int)
        requires
            self.det(),
            self.produces(s, i1, n1),
            self.produces(s, i2, n2),
        ensures
            i1 == i2,
            n1 == n2,
    ;

    /// One resumption step against `r`.
    fn poll_decode(self, r: &mut Reader) -> (res: PollDec<Self::Item, Self, Self::Error>)
        requires
            self.wf(),
            old(r).wf(),
        ensures
            final(r).wf(),
            final(r).stream() == old(r).stream(),
            final(r).is_open() == old(r).is_open(),
            match res {
                PollDec::Done(item, n) => {
                    &&& n <= old(r).window().len()
                    &&& final(r).pos() == old(r).pos() + n
                    &&& cap_shrunk(*old(r), *final(r), n as int)
                    &&& forall|s: Seq<u8>|
                        self.produces(old(r).window().take(n as int) + s, item, n as int)
                    &&& self.det() ==> forall|s: Seq<u8>, i: Self::Item, k: int| #[trigger]
                        self.produces(old(r).window().take(n as int) + s, i, k) ==> k >= n
                },
                PollDec::Progress(next, n) => {
                    &&& next.wf()
                    &&& n <= old(r).window().len()
                    &&& final(r).pos() == old(r).pos() + n
                    &&& cap_shrunk(*old(r), *final(r), n as int)
                    &&& forall|s: Seq<u8>, i: Self::Item, k: int|
                        #[trigger] next.produces(s, i, k) ==> self.produces(
                            old(r).window().take(n as int) + s,
                            i,
                            k + n,
                        )
                    &&& forall|s: Seq<u8>, e: Self::Error|
                        #[trigger] next.fails_with(s, e) ==> self.fails_with(
                            old(r).window().take(n as int) + s,
                            e,
                        )
                    &&& self.eof_only() ==> next.eof_only()
                    &&& self.bounded() ==> next.bounded() && next.fuel() <= self.fuel() && (n > 0
                        || next.fuel() < self.fuel())
                    &&& self.det() ==> next.det()
                    &&& self.det() ==> forall|s: Seq<u8>, i: Self::Item, k: int| #[trigger]
                        self.produces(old(r).window().take(n as int) + s, i, k) ==> k >= n
                    &&& self.det() ==> forall|s: Seq<u8>, i: Self::Item, k: int|
                        k >= n && #[trigger] self.produces(old(r).window().take(n as int) + s, i, k)
                            ==> next.produces(s, i, k - n)
                },
                PollDec::Pending(next) => {
                    &&& next.wf()
                    &&& final(r).pos() == old(r).pos()
                    &&& final(r).cap() == old(r).cap()
                    &&& !old(r).at_end()
                    &&& old(r).window().len() == 0
                    &&& self.eof_only() ==> next.eof_only()
                    &&& self.bounded() ==> next.bounded() && next.fuel() <= self.fuel()
                    &&& self.det() ==> next.det()
                    &&& forall|s: Seq<u8>, i: Self::Item, k: int|
                        #![trigger next.produces(s, i, k)]
                        #![trigger self.produces(s, i, k)]
                        next.produces(s, i, k) <==> self.produces(s, i, k)
                    &&& forall|s: Seq<u8>, e: Self::Error|
                        #![trigger next.fails_with(s, e)]
                        #![trigger self.fails_with(s, e)]
                        next.fails_with(s, e) <==> self.fails_with(s, e)
                },
                PollDec::Errored(err) => {
                    &&& final(r).pos() >= old(r).pos()
                    &&& final(r).pos() - old(r).pos() <= old(r).window().len()
                    &&& cap_shrunk(*old(r), *final(r), final(r).pos() - old(r).pos())
                    &&& match err {
                        DecodeError::DataError(e) => forall|s: Seq<u8>, m: int|
                            m == final(r).pos() - old(r).pos() ==> #[trigger] self.fails_with(
                                old(r).window().take(m) + s,
                                e,
                            ),
                        DecodeError::ReaderError(te) => self.eof_only() ==> {
                            &&& te == crate::transport::TransportError::UnexpectedEof
                            &&& final(r).at_end()
                            &&& forall|i: Self::Item, k: int| !self.produces(old(r).window(), i, k)
                        },
                    }
                },
            },
    ;
}

/// An encoder: consumes a value into a writer over one or more resumption steps.
pub trait Encodable: Sized {
    /// Well-formedness of this encoder state.
    spec fn wf(self) -> bool;

    /// Exactly the bytes the remaining work will write.
    spec fn output(self) -> Seq<u8>;

    /// Whether this encoder admits the `fuel` bound on consecutive zero-byte
    /// progress steps. All encoders of this crate do.
    spec fn bounded(self) -> bool;

    /// An upper bound on the zero-byte progress steps this encoder can take
    /// before it must write a byte, suspend, or finish; meaningful only under
    /// `bounded`.
    spec fn fuel(self) -> nat;

    /// One resumption step against `w`.
    fn poll_encode(self, w: &mut Writer) -> (res: PollEnc<Self>)
        requires
            self.wf(),
            old(w).wf(),
        ensures
            final(w).wf(),
            final(w).is_shut() == old(w).is_shut(),
            match res {
                PollEnc::Done(n) => {
                    &&& n == self.output().len()
                    &&& n <= old(w).accept_n()
                    &&& final(w).written() == old(w).written() + self.output()
                    &&& final(w).accept_n() == old(w).accept_n() - n
                },
                PollEnc::Progress(next, n) => {
                    &&& next.wf()
                    &&& n <= self.output().len()
                    &&& n <= old(w).accept_n()
                    &&& next.output() == self.output().skip(n as int)
                    &&& final(w).written() == old(w).written() + self.output().take(n as int)
                    &&& final(w).accept_n() == old(w).accept_n() - n
                    &&& self.bounded() ==> next.bounded() && next.fuel() <= self.fuel() && (n > 0
                        || next.fuel() < self.fuel())
                },
                PollEnc::Pending(next) => {
                    &&& next.wf()
                    &&& next.output() == self.output()
                    &&& final(w).written() == old(w).written()
                    &&& final(w).accept_n() == old(w).accept_n()
                    &&& !old(w).is_shut()
                    &&& old(w).accept_n() == 0
                    &&& self.bounded() ==> next.bounded() && next.fuel() <= self.fuel()
                },
                PollEnc::Errored(_) => {
                    &&& final(w).written() == old(w).written()
                    &&& final(w).accept_n() == old(w).accept_n()
                    &&& old(w).is_shut()
                },
            },
    ;
}

/// An encoder that knows exactly how many bytes it has left to write.
pub trait EncodableLen: Encodable {
    /// The exact number of bytes the remaining work will write.
    fn remaining_bytes(&self) -> (n: usize)
        requires
            self.wf(),
        ensures
            n == self.output().len(),
    ;
}

} // verus!
