//! Change the item of a decoder by mapping it through a function.

use vstd::prelude::*;

use crate::codec::Decodable;
use crate::codec::DecodeError;
use crate::codec::PollDec;
use crate::transport::Reader;

verus! {

/// Wraps a decoder `D` and a function `F`; once `D` finishes, the item is
/// mapped through `F`. The function is not touched before completion, and is
/// applied exactly once. Byte counts and failures are forwarded unchanged.
pub struct Mapped<D, F> {
    dec: D,
    f: F,
}

impl<D, F> Mapped<D, F> {
    /// The wrapped decoder.
    pub closed spec fn inner(self) -> D {
        self.dec
    }

    /// The mapping function.
    pub closed spec fn func(self) -> F {
        self.f
    }

    /// Wrap `dec`, mapping its item through `f`.
    pub fn new(dec: D, f: F) -> (m: Mapped<D, F>)
        ensures
            m.inner() == dec,
            m.func() == f,
    {
        Mapped { dec, f }
    }
}

impl<D: Decodable, U, F: FnOnce(D::Item) -> U> Decodable for Mapped<D, F> {
    type Item = U;

    type Error = D::Error;

    open spec fn wf(self) -> bool {
        &&& self.inner().wf()
        &&& forall|i: D::Item| call_requires(self.func(), (i,))
    }

    open spec fn produces(self, s: Seq<u8>, item: U, n: int) -> bool {
        exists|i: D::Item|
            #[trigger] self.inner().produces(s, i, n) && call_ensures(self.func(), (i,), item)
    }

    open spec fn fails_with(self, s: Seq<u8>, e: D::Error) -> bool {
        self.inner().fails_with(s, e)
    }

    open spec fn eof_only(self) -> bool {
        self.inner().eof_only()
    }

    open spec fn bounded(self) -> bool {
        self.inner().bounded()
    }

    open spec fn fuel(self) -> nat {
        self.inner().fuel()
    }

    open spec fn det(self) -> bool {
        false
    }

    proof fn lemma_det_unique(self, s: Seq<u8>, i1: U, n1: int, i2: U, n2: int) {
    }

    fn poll_decode(self, r: &mut Reader) -> (res: PollDec<U, Self, D::Error>) {
        let ghost r0 = *r;
        let ghost me0 = self;
        let Mapped { dec, f } = self;
        proof {
            assert(me0.inner() == dec);
            assert(me0.func() == f);
        }
        match dec.poll_decode(r) {
            PollDec::Done(i, n) => {
                let ghost c = r0.window().take(n as int);
                proof {
                    assert(call_requires(me0.func(), (i,)));
                }
                let item = f(i);
                proof {
                    assert forall|s: Seq<u8>| me0.produces(c + s, item, n as int) by {
                        assert(dec.produces(c + s, i, n as int));
                    }
                }
                PollDec::Done(item, n)
            },
            PollDec::Progress(d2, n) => {
                let me = Mapped { dec: d2, f };
                let ghost c = r0.window().take(n as int);
                proof {
                    assert(me.inner() == d2);
                    assert(me.func() == f);
                    assert forall|s: Seq<u8>, u: U, k: int| #[trigger]
                        me.produces(s, u, k) implies me0.produces(c + s, u, k + n) by {
                        let i = choose|i: D::Item|
                            #[trigger] d2.produces(s, i, k) && call_ensures(f, (i,), u);
                        assert(dec.produces(c + s, i, k + n));
                    }
                }
                PollDec::Progress(me, n)
            },
            PollDec::Pending(d2) => {
                let me = Mapped { dec: d2, f };
                proof {
                    assert(me.inner() == d2);
                    assert(me.func() == f);
                    assert forall|s: Seq<u8>, u: U, k: int|
                        #![trigger me.produces(s, u, k)]
                        #![trigger me0.produces(s, u, k)]
                        me.produces(s, u, k) == me0.produces(s, u, k) by {
                        if me.produces(s, u, k) {
                            let i = choose|i: D::Item|
                                #[trigger] d2.produces(s, i, k) && call_ensures(f, (i,), u);
                            assert(dec.produces(s, i, k));
                            assert(me0.produces(s, u, k));
                        }
                        if me0.produces(s, u, k) {
                            let i = choose|i: D::Item|
                                #[trigger] dec.produces(s, i, k) && call_ensures(f, (i,), u);
                            assert(d2.produces(s, i, k));
                            assert(me.produces(s, u, k));
                        }
                    }
                }
                PollDec::Pending(me)
            },
            PollDec::Errored(err) => {
                proof {
                    if me0.eof_only() {
                        if let DecodeError::ReaderError(_) = &err {
                            assert forall|u: U, k: int| !me0.produces(r0.window(), u, k) by {
                                if me0.produces(r0.window(), u, k) {
                                    let i = choose|i: D::Item|
                                        #[trigger] dec.produces(r0.window(), i, k) && call_ensures(
                                            f,
                                            (i,),
                                            u,
                                        );
                                    assert(!dec.produces(r0.window(), i, k));
                                }
                            }
                        }
                    }
                }
                PollDec::Errored(err)
            },
        }
    }
}

} // verus!
