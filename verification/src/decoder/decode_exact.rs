//! Wrap a decoder with an exact byte budget.

use vstd::prelude::*;

use crate::codec::Decodable;
use crate::codec::DecodeError;
use crate::codec::PollDec;
use crate::transport::lemma_window_take;
use crate::transport::Reader;

verus! {

/// The error of a `DecodeExact`.
///
/// The inner decoder is limited in the number of bytes it can read: it
/// observes exhaustion when it tries to read past the budget.
#[derive(Debug)]
pub enum DecodeExactError<E, I> {
    /// The inner decoder finished too early, after the contained number of
    /// bytes. The error also carries the decoded item.
    Early(I, usize),
    /// The inner decoder itself failed.
    Inner(E),
}

impl<E, I> From<E> for DecodeExactError<E, I> {
    fn from(err: E) -> (r: DecodeExactError<E, I>)
        ensures
            r == DecodeExactError::<E, I>::Inner(err),
    {
        DecodeExactError::Inner(err)
    }
}

impl<E, I> vstd::std_specs::convert::FromSpecImpl<E> for DecodeExactError<E, I> {
    open spec fn obeys_from_spec() -> bool {
        true
    }

    open spec fn from_spec(err: E) -> Self {
        DecodeExactError::Inner(err)
    }
}

/// Wraps a decoder and fails unless it consumes exactly the configured number
/// of bytes. The reader handed to the inner decoder is capped at the remaining
/// budget, so the accumulated count can never exceed the target; an inner
/// decoder that stops short of the target is a protocol violation reported as
/// `DecodeExactError::Early`.
pub struct DecodeExact<D> {
    target: usize,
    read: usize,
    dec: D,
}

impl<D: Decodable> DecodeExact<D> {
    /// Create a new `DecodeExact` delegating to `dec` and checking that it
    /// decodes exactly `target` bytes.
    pub fn new(dec: D, target: usize) -> (c: DecodeExact<D>)
        ensures
            c.wf() == dec.wf(),
            !c.eof_only(),
            c.bounded() == dec.bounded(),
            c.fuel() == dec.fuel(),
            c.det() == dec.det(),
            forall|s: Seq<u8>, i: D::Item, n: int| #[trigger]
                c.produces(s, i, n) <==> (n == target && dec.produces(s, i, n)),
            forall|s: Seq<u8>, e: DecodeExactError<D::Error, D::Item>| #[trigger]
                c.fails_with(s, e) <==> match e {
                    DecodeExactError::Early(i, k) => k < target && dec.produces(s, i, k as int),
                    DecodeExactError::Inner(e2) => dec.fails_with(s, e2),
                },
    {
        DecodeExact { target, read: 0, dec }
    }
}

/// Restore a reader's limit to what remains of `saved` after `n` consumed
/// bytes.
fn restore_limit(r: &mut Reader, saved: Option<usize>, n: usize)
    requires
        old(r).wf(),
        saved matches Some(l) ==> n <= l,
    ensures
        final(r).wf(),
        final(r).stream() == old(r).stream(),
        final(r).pos() == old(r).pos(),
        final(r).is_open() == old(r).is_open(),
        final(r).cap() == (match saved {
            Some(l) => Some(l - n as int),
            None => None::<int>,
        }),
{
    match saved {
        Some(l) => r.set_limit(Some(l - n)),
        None => r.set_limit(None),
    }
}

impl<D: Decodable> Decodable for DecodeExact<D> {
    type Item = D::Item;

    type Error = DecodeExactError<D::Error, D::Item>;

    closed spec fn wf(self) -> bool {
        self.dec.wf() && self.read <= self.target
    }

    closed spec fn produces(self, s: Seq<u8>, item: D::Item, n: int) -> bool {
        n == self.target - self.read && self.dec.produces(s, item, n)
    }

    closed spec fn fails_with(self, s: Seq<u8>, e: DecodeExactError<D::Error, D::Item>) -> bool {
        match e {
            DecodeExactError::Early(i, k) => {
                &&& self.read <= k < self.target
                &&& self.dec.produces(s, i, k - self.read)
            },
            DecodeExactError::Inner(e2) => self.dec.fails_with(s, e2),
        }
    }

    closed spec fn eof_only(self) -> bool {
        false
    }

    closed spec fn bounded(self) -> bool {
        self.dec.bounded()
    }

    closed spec fn fuel(self) -> nat {
        self.dec.fuel()
    }

    closed spec fn det(self) -> bool {
        self.dec.det()
    }

    proof fn lemma_det_unique(self, s: Seq<u8>, i1: D::Item, n1: int, i2: D::Item, n2: int) {
        self.dec.lemma_det_unique(s, i1, n1, i2, n2);
    }

    fn poll_decode(self, r: &mut Reader) -> (res: PollDec<
        D::Item,
        Self,
        DecodeExactError<D::Error, D::Item>,
    >) {
        let ghost r0 = *r;
        let ghost me0 = self;
        let DecodeExact { target, read, dec } = self;
        let budget = target - read;
        let saved = r.current_limit();
        let new_l = match saved {
            Some(l) => if l < budget {
                l
            } else {
                budget
            },
            None => budget,
        };
        r.set_limit(Some(new_l));
        let ghost r1 = *r;
        let p0 = r.consumed();
        match dec.poll_decode(r) {
            PollDec::Done(i, n) => {
                restore_limit(r, saved, n);
                proof {
                    assert(n <= r0.window().len());
                    lemma_window_take(r0, r1, n as int);
                }
                let ghost c = r0.window().take(n as int);
                let new_read = read + n;
                if new_read < target {
                    let res = PollDec::<D::Item, Self, DecodeExactError<D::Error, D::Item>>::Errored(
                        DecodeError::DataError(DecodeExactError::Early(i, new_read)),
                    );
                    proof {
                        assert forall|s: Seq<u8>, mm: int|
                            mm == n implies #[trigger] me0.fails_with(
                            r0.window().take(mm) + s,
                            DecodeExactError::Early(i, new_read),
                        ) by {
                            assert(dec.produces(r1.window().take(mm) + s, i, mm));
                        }
                    }
                    res
                } else {
                    proof {
                        assert forall|s: Seq<u8>| me0.produces(c + s, i, n as int) by {
                            assert(dec.produces(r1.window().take(n as int) + s, i, n as int));
                        }
                    }
                    PollDec::Done(i, n)
                }
            },
            PollDec::Progress(d2, n) => {
                restore_limit(r, saved, n);
                proof {
                    assert(n <= r0.window().len());
                    lemma_window_take(r0, r1, n as int);
                }
                let ghost c = r0.window().take(n as int);
                let me = DecodeExact { target, read: read + n, dec: d2 };
                proof {
                    assert forall|s: Seq<u8>, i: D::Item, k: int| #[trigger]
                        me.produces(s, i, k) implies me0.produces(c + s, i, k + n) by {
                        assert(dec.produces(r1.window().take(n as int) + s, i, k + n));
                    }
                    assert forall|s: Seq<u8>, e: DecodeExactError<D::Error, D::Item>| #[trigger]
                        me.fails_with(s, e) implies me0.fails_with(c + s, e) by {
                        match e {
                            DecodeExactError::Early(i, k) => {
                                assert(d2.produces(s, i, k - read - n));
                                assert(dec.produces(
                                    r1.window().take(n as int) + s,
                                    i,
                                    k - read,
                                ));
                            },
                            DecodeExactError::Inner(e2) => {
                                assert(dec.fails_with(r1.window().take(n as int) + s, e2));
                            },
                        }
                    }
                }
                PollDec::Progress(me, n)
            },
            PollDec::Pending(d2) => {
                restore_limit(r, saved, 0);
                let me = DecodeExact { target, read, dec: d2 };
                proof {
                    assert(r1.window().len() == 0);
                    assert(!r1.at_end());
                    assert(r1.cap() != Some(0int));
                    assert(r1.stream().skip(r1.pos()).len() == 0);
                    assert(r0.window().len() == 0);
                }
                PollDec::Pending(me)
            },
            PollDec::Errored(err) => {
                let p1 = r.consumed();
                let delta = p1 - p0;
                restore_limit(r, saved, delta);
                proof {
                    assert(delta <= r0.window().len());
                    lemma_window_take(r0, r1, delta as int);
                }
                match err {
                    DecodeError::ReaderError(te) => PollDec::Errored(DecodeError::ReaderError(te)),
                    DecodeError::DataError(e2) => {
                        let res = PollDec::<
                            D::Item,
                            Self,
                            DecodeExactError<D::Error, D::Item>,
                        >::Errored(DecodeError::DataError(DecodeExactError::Inner(e2)));
                        proof {
                            assert forall|s: Seq<u8>, mm: int|
                                mm == delta implies #[trigger] me0.fails_with(
                                r0.window().take(mm) + s,
                                DecodeExactError::Inner(e2),
                            ) by {
                                assert(dec.fails_with(r1.window().take(mm) + s, e2));
                            }
                        }
                        res
                    },
                }
            },
        }
    }
}

} // verus!
