//! Chain two encoders, writing their outputs in sequence.

use vstd::prelude::*;

use crate::codec::Encodable;
use crate::codec::EncodableLen;
use crate::codec::PollEnc;
use crate::transport::Writer;

verus! {

enum EncChainState<S, T> {
    First(S, T),
    Second(T),
}

/// Runs encoder `S`, then encoder `T`; the bytes written are exactly the
/// concatenation of the two outputs. The second encoder is never resumed
/// before the first has finished, and the step in which the first finishes is
/// reported as progress, not completion.
pub struct Chain<S, T> {
    state: EncChainState<S, T>,
}

impl<S: Encodable, T: Encodable> Chain<S, T> {
    /// Create a new `Chain` which first encodes `first`, then `second`.
    pub fn new(first: S, second: T) -> (c: Chain<S, T>)
        ensures
            c.wf() == (first.wf() && second.wf() && first.output().len() + second.output().len()
                <= usize::MAX),
            c.output() == first.output() + second.output(),
            c.bounded() == (first.bounded() && second.bounded()),
            c.fuel() == 1 + first.fuel() + second.fuel(),
    {
        Chain { state: EncChainState::First(first, second) }
    }
}

impl<S: Encodable, T: Encodable> Encodable for Chain<S, T> {
    closed spec fn wf(self) -> bool {
        match self.state {
            EncChainState::First(f, t) => {
                &&& f.wf()
                &&& t.wf()
                &&& f.output().len() + t.output().len() <= usize::MAX
            },
            EncChainState::Second(t) => t.wf(),
        }
    }

    closed spec fn output(self) -> Seq<u8> {
        match self.state {
            EncChainState::First(f, t) => f.output() + t.output(),
            EncChainState::Second(t) => t.output(),
        }
    }

    closed spec fn bounded(self) -> bool {
        match self.state {
            EncChainState::First(f, t) => f.bounded() && t.bounded(),
            EncChainState::Second(t) => t.bounded(),
        }
    }

    closed spec fn fuel(self) -> nat {
        match self.state {
            EncChainState::First(f, t) => 1 + f.fuel() + t.fuel(),
            EncChainState::Second(t) => t.fuel(),
        }
    }

    fn poll_encode(self, w: &mut Writer) -> (res: PollEnc<Self>) {
        let ghost me0 = self;
        match self.state {
            EncChainState::First(first, second) => {
                match first.poll_encode(w) {
                    PollEnc::Done(n) => {
                        let me = Chain { state: EncChainState::Second(second) };
                        proof {
                            assert(me.output() =~= me0.output().skip(n as int));
                            assert(me0.output().take(n as int) =~= first.output());
                        }
                        PollEnc::Progress(me, n)
                    },
                    PollEnc::Progress(f2, n) => {
                        let me = Chain { state: EncChainState::First(f2, second) };
                        proof {
                            assert(me.output() =~= me0.output().skip(n as int));
                            assert(me0.output().take(n as int) =~= first.output().take(n as int));
                        }
                        PollEnc::Progress(me, n)
                    },
                    PollEnc::Pending(f2) => {
                        let me = Chain { state: EncChainState::First(f2, second) };
                        proof {
                            assert(me.output() =~= me0.output());
                        }
                        PollEnc::Pending(me)
                    },
                    PollEnc::Errored(e) => PollEnc::Errored(e),
                }
            },
            EncChainState::Second(second) => {
                match second.poll_encode(w) {
                    PollEnc::Done(n) => PollEnc::Done(n),
                    PollEnc::Progress(t2, n) => {
                        let me = Chain { state: EncChainState::Second(t2) };
                        PollEnc::Progress(me, n)
                    },
                    PollEnc::Pending(t2) => {
                        let me = Chain { state: EncChainState::Second(t2) };
                        PollEnc::Pending(me)
                    },
                    PollEnc::Errored(e) => PollEnc::Errored(e),
                }
            },
        }
    }
}

impl<S: EncodableLen, T: EncodableLen> EncodableLen for Chain<S, T> {
    fn remaining_bytes(&self) -> (n: usize) {
        match &self.state {
            EncChainState::First(f, t) => f.remaining_bytes() + t.remaining_bytes(),
            EncChainState::Second(t) => t.remaining_bytes(),
        }
    }
}

} // verus!
