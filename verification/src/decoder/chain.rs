//! Chain two decoders, running them strictly in sequence.

use vstd::prelude::*;

use crate::codec::Decodable;
use crate::codec::DecodeError;
use crate::codec::PollDec;
use crate::transport::Reader;

verus! {

enum ChainState<S: Decodable, T> {
    First(S, T),
    Second(T, S::Item),
}

/// Runs decoder `S`, then decoder `T`, over consecutive bytes; the combined
/// item is exactly the pair of the two items. The second decoder is never
/// resumed before the first has finished. The step in which the first decoder
/// finishes is reported as progress, not completion: each resumption step
/// drives exactly one of the two decoders.
pub struct Chain<S: Decodable, T> {
    state: ChainState<S, T>,
}

impl<S: Decodable, T: Decodable<Error = S::Error>> Chain<S, T> {
    /// Witness form of `produces`: `na` is where the split between the two
    /// decoders falls.
    closed spec fn prod_wit(self, s: Seq<u8>, item: (S::Item, T::Item), n: int, na: int) -> bool {
        match self.state {
            ChainState::First(f, sec) => {
                &&& 0 <= na <= n
                &&& na <= s.len()
                &&& f.produces(s, item.0, na)
                &&& sec.produces(s.skip(na), item.1, n - na)
            },
            ChainState::Second(sec, a) => {
                &&& na == 0
                &&& 0 <= n
                &&& item.0 == a
                &&& sec.produces(s, item.1, n)
            },
        }
    }

    /// Witness form of `fails_with`: `a` and `na` locate a failure of the
    /// second decoder after the first finished; `a == None` means the
    /// currently running decoder itself failed.
    closed spec fn fail_wit(self, s: Seq<u8>, e: S::Error, a: Option<S::Item>, na: int) -> bool {
        match self.state {
            ChainState::First(f, sec) => match a {
                Option::None => na == 0 && f.fails_with(s, e),
                Option::Some(aa) => {
                    &&& 0 <= na <= s.len()
                    &&& f.produces(s, aa, na)
                    &&& sec.fails_with(s.skip(na), e)
                },
            },
            ChainState::Second(sec, _) => {
                &&& a == Option::<S::Item>::None
                &&& na == 0
                &&& sec.fails_with(s, e)
            },
        }
    }

    /// Create a new `Chain` which first decodes via `first`, then via `second`.
    pub fn new(first: S, second: T) -> (c: Chain<S, T>)
        ensures
            c.wf() == (first.wf() && second.wf()),
            c.eof_only() == (first.eof_only() && second.eof_only()),
            c.bounded() == (first.bounded() && second.bounded()),
            c.fuel() == 1 + first.fuel() + second.fuel(),
            c.det() == (first.det() && second.det()),
            forall|s: Seq<u8>, i: (S::Item, T::Item), n: int| #[trigger]
                c.produces(s, i, n) <==> exists|na: int|
                    0 <= na <= n && na <= s.len() && #[trigger] first.produces(s, i.0, na)
                        && second.produces(s.skip(na), i.1, n - na),
            forall|s: Seq<u8>, e: S::Error| #[trigger]
                c.fails_with(s, e) <==> (first.fails_with(s, e) || exists|a: S::Item, na: int|
                    0 <= na <= s.len() && #[trigger] first.produces(s, a, na)
                        && second.fails_with(s.skip(na), e)),
    {
        let c = Chain { state: ChainState::First(first, second) };
        proof {
            assert forall|s: Seq<u8>, i: (S::Item, T::Item), n: int| #[trigger]
                c.produces(s, i, n) == (exists|na: int|
                    0 <= na <= n && na <= s.len() && #[trigger] first.produces(s, i.0, na)
                        && second.produces(s.skip(na), i.1, n - na)) by {
                if c.produces(s, i, n) {
                    let na = choose|na: int| #[trigger] c.prod_wit(s, i, n, na);
                    assert(first.produces(s, i.0, na));
                }
                if exists|na: int|
                    0 <= na <= n && na <= s.len() && #[trigger] first.produces(s, i.0, na)
                        && second.produces(s.skip(na), i.1, n - na) {
                    let na = choose|na: int|
                        0 <= na <= n && na <= s.len() && #[trigger] first.produces(s, i.0, na)
                            && second.produces(s.skip(na), i.1, n - na);
                    assert(c.prod_wit(s, i, n, na));
                    assert(c.produces(s, i, n));
                }
            }
            assert forall|s: Seq<u8>, e: S::Error| #[trigger]
                c.fails_with(s, e) == (first.fails_with(s, e) || exists|a: S::Item, na: int|
                    0 <= na <= s.len() && #[trigger] first.produces(s, a, na)
                        && second.fails_with(s.skip(na), e)) by {
                if c.fails_with(s, e) {
                    let (a, na) = choose|a: Option<S::Item>, na: int| #[trigger] c.fail_wit(
                        s,
                        e,
                        a,
                        na,
                    );
                    if let Option::Some(aa) = a {
                        assert(first.produces(s, aa, na));
                    }
                }
                if first.fails_with(s, e) {
                    assert(c.fail_wit(s, e, Option::None, 0));
                    assert(c.fails_with(s, e));
                }
                if exists|a: S::Item, na: int|
                    0 <= na <= s.len() && #[trigger] first.produces(s, a, na)
                        && second.fails_with(s.skip(na), e) {
                    let (a, na) = choose|a: S::Item, na: int|
                        0 <= na <= s.len() && #[trigger] first.produces(s, a, na)
                            && second.fails_with(s.skip(na), e);
                    assert(c.fail_wit(s, e, Option::Some(a), na));
                    assert(c.fails_with(s, e));
                }
            }
        }
        c
    }
}

impl<S: Decodable, T: Decodable<Error = S::Error>> Decodable for Chain<S, T> {
    type Item = (S::Item, T::Item);

    type Error = S::Error;

    closed spec fn wf(self) -> bool {
        match self.state {
            ChainState::First(f, sec) => f.wf() && sec.wf(),
            ChainState::Second(sec, _) => sec.wf(),
        }
    }

    closed spec fn produces(self, s: Seq<u8>, item: (S::Item, T::Item), n: int) -> bool {
        exists|na: int| #[trigger] self.prod_wit(s, item, n, na)
    }

    closed spec fn fails_with(self, s: Seq<u8>, e: S::Error) -> bool {
        exists|a: Option<S::Item>, na: int| #[trigger] self.fail_wit(s, e, a, na)
    }

    closed spec fn eof_only(self) -> bool {
        match self.state {
            ChainState::First(f, sec) => f.eof_only() && sec.eof_only(),
            ChainState::Second(sec, _) => sec.eof_only(),
        }
    }

    closed spec fn bounded(self) -> bool {
        match self.state {
            ChainState::First(f, sec) => f.bounded() && sec.bounded(),
            ChainState::Second(sec, _) => sec.bounded(),
        }
    }

    closed spec fn fuel(self) -> nat {
        match self.state {
            ChainState::First(f, sec) => 1 + f.fuel() + sec.fuel(),
            ChainState::Second(sec, _) => sec.fuel(),
        }
    }

    closed spec fn det(self) -> bool {
        match self.state {
            ChainState::First(f, sec) => f.det() && sec.det(),
            ChainState::Second(sec, _) => sec.det(),
        }
    }

    proof fn lemma_det_unique(
        self,
        s: Seq<u8>,
        i1: (S::Item, T::Item),
        n1: int,
        i2: (S::Item, T::Item),
        n2: int,
    ) {
        let na1 = choose|na: int| #[trigger] self.prod_wit(s, i1, n1, na);
        let na2 = choose|na: int| #[trigger] self.prod_wit(s, i2, n2, na);
        match self.state {
            ChainState::First(f, sec) => {
                f.lemma_det_unique(s, i1.0, na1, i2.0, na2);
                sec.lemma_det_unique(s.skip(na1), i1.1, n1 - na1, i2.1, n2 - na2);
                assert(i1 == i2);
            },
            ChainState::Second(sec, _) => {
                sec.lemma_det_unique(s, i1.1, n1, i2.1, n2);
                assert(i1 == i2);
            },
        }
    }

    fn poll_decode(self, r: &mut Reader) -> (res: PollDec<(S::Item, T::Item), Self, S::Error>) {
        let ghost r0 = *r;
        let ghost me0 = self;
        match self.state {
            ChainState::First(first, second) => {
                match first.poll_decode(r) {
                    PollDec::Done(a, n) => {
                        let ghost c = r0.window().take(n as int);
                        let me = Chain { state: ChainState::Second(second, a) };
                        proof {
                            assert(c.len() == n as int);
                            assert forall|s: Seq<u8>, i: (S::Item, T::Item), k: int| #[trigger]
                                me.produces(s, i, k) implies me0.produces(c + s, i, k + n) by {
                                let naw = choose|naw: int| #[trigger] me.prod_wit(s, i, k, naw);
                                assert(first.produces(c + s, a, n as int));
                                assert((c + s).skip(n as int) =~= s);
                                assert(me0.prod_wit(c + s, i, k + n, n as int));
                            }
                            assert forall|s: Seq<u8>, e: S::Error| #[trigger]
                                me.fails_with(s, e) implies me0.fails_with(c + s, e) by {
                                let (aw, naw) = choose|aw: Option<S::Item>, naw: int| #[trigger]
                                    me.fail_wit(s, e, aw, naw);
                                assert(first.produces(c + s, a, n as int));
                                assert((c + s).skip(n as int) =~= s);
                                assert(me0.fail_wit(c + s, e, Option::Some(a), n as int));
                            }
                            if me0.det() {
                                assert forall|s: Seq<u8>, i: (S::Item, T::Item), k: int| #[trigger]
                                    me0.produces(c + s, i, k) implies k >= n by {
                                    let naw = choose|naw: int| #[trigger] me0.prod_wit(
                                        c + s,
                                        i,
                                        k,
                                        naw,
                                    );
                                    assert(first.produces(c + s, i.0, naw));
                                }
                                assert forall|s: Seq<u8>, i: (S::Item, T::Item), k: int|
                                    k >= n && #[trigger] me0.produces(c + s, i, k) implies
                                    me.produces(s, i, k - n) by {
                                    let naw = choose|naw: int| #[trigger] me0.prod_wit(
                                        c + s,
                                        i,
                                        k,
                                        naw,
                                    );
                                    assert(first.produces(c + s, i.0, naw));
                                    assert(first.produces(c + s, a, n as int));
                                    first.lemma_det_unique(c + s, i.0, naw, a, n as int);
                                    assert((c + s).skip(n as int) =~= s);
                                    assert(second.produces(s, i.1, k - n));
                                    assert(me.prod_wit(s, i, k - n, 0));
                                }
                            }
                        }
                        PollDec::Progress(me, n)
                    },
                    PollDec::Progress(f2, n) => {
                        let ghost c = r0.window().take(n as int);
                        let me = Chain { state: ChainState::First(f2, second) };
                        proof {
                            assert(c.len() == n as int);
                            assert forall|s: Seq<u8>, i: (S::Item, T::Item), k: int| #[trigger]
                                me.produces(s, i, k) implies me0.produces(c + s, i, k + n) by {
                                let naw = choose|naw: int| #[trigger] me.prod_wit(s, i, k, naw);
                                assert(first.produces(c + s, i.0, naw + n));
                                assert((c + s).skip(naw + n) =~= s.skip(naw));
                                assert(me0.prod_wit(c + s, i, k + n, naw + n));
                            }
                            assert forall|s: Seq<u8>, e: S::Error| #[trigger]
                                me.fails_with(s, e) implies me0.fails_with(c + s, e) by {
                                let (aw, naw) = choose|aw: Option<S::Item>, naw: int| #[trigger]
                                    me.fail_wit(s, e, aw, naw);
                                match aw {
                                    Option::None => {
                                        assert(first.fails_with(c + s, e));
                                        assert(me0.fail_wit(c + s, e, Option::None, 0));
                                    },
                                    Option::Some(aa) => {
                                        assert(first.produces(c + s, aa, naw + n));
                                        assert((c + s).skip(naw + n) =~= s.skip(naw));
                                        assert(me0.fail_wit(c + s, e, Option::Some(aa), naw + n));
                                    },
                                }
                            }
                            if me0.det() {
                                assert forall|s: Seq<u8>, i: (S::Item, T::Item), k: int| #[trigger]
                                    me0.produces(c + s, i, k) implies k >= n by {
                                    let naw = choose|naw: int| #[trigger] me0.prod_wit(
                                        c + s,
                                        i,
                                        k,
                                        naw,
                                    );
                                    assert(first.produces(c + s, i.0, naw));
                                }
                                assert forall|s: Seq<u8>, i: (S::Item, T::Item), k: int|
                                    k >= n && #[trigger] me0.produces(c + s, i, k) implies
                                    me.produces(s, i, k - n) by {
                                    let naw = choose|naw: int| #[trigger] me0.prod_wit(
                                        c + s,
                                        i,
                                        k,
                                        naw,
                                    );
                                    assert(first.produces(c + s, i.0, naw));
                                    assert(naw >= n);
                                    assert(f2.produces(s, i.0, naw - n));
                                    assert((c + s).skip(naw) =~= s.skip(naw - n));
                                    assert(second.produces(s.skip(naw - n), i.1, k - naw));
                                    assert(me.prod_wit(s, i, k - n, naw - n));
                                }
                            }
                        }
                        PollDec::Progress(me, n)
                    },
                    PollDec::Pending(f2) => {
                        let me = Chain { state: ChainState::First(f2, second) };
                        proof {
                            assert forall|s: Seq<u8>, i: (S::Item, T::Item), k: int|
                                #![trigger me.produces(s, i, k)]
                                #![trigger me0.produces(s, i, k)]
                                me.produces(s, i, k) == me0.produces(s, i, k) by {
                                if me.produces(s, i, k) {
                                    let naw = choose|naw: int| #[trigger] me.prod_wit(s, i, k, naw);
                                    assert(first.produces(s, i.0, naw));
                                    assert(me0.prod_wit(s, i, k, naw));
                                }
                                if me0.produces(s, i, k) {
                                    let naw = choose|naw: int| #[trigger] me0.prod_wit(s, i, k, naw);
                                    assert(f2.produces(s, i.0, naw));
                                    assert(me.prod_wit(s, i, k, naw));
                                }
                            }
                            assert forall|s: Seq<u8>, e: S::Error|
                                #![trigger me.fails_with(s, e)]
                                #![trigger me0.fails_with(s, e)]
                                me.fails_with(s, e) == me0.fails_with(s, e) by {
                                if me.fails_with(s, e) {
                                    let (aw, naw) = choose|aw: Option<S::Item>, naw: int|
                                        #[trigger] me.fail_wit(s, e, aw, naw);
                                    match aw {
                                        Option::None => {
                                            assert(first.fails_with(s, e));
                                        },
                                        Option::Some(aa) => {
                                            assert(first.produces(s, aa, naw));
                                        },
                                    }
                                    assert(me0.fail_wit(s, e, aw, naw));
                                }
                                if me0.fails_with(s, e) {
                                    let (aw, naw) = choose|aw: Option<S::Item>, naw: int|
                                        #[trigger] me0.fail_wit(s, e, aw, naw);
                                    match aw {
                                        Option::None => {
                                            assert(f2.fails_with(s, e));
                                        },
                                        Option::Some(aa) => {
                                            assert(f2.produces(s, aa, naw));
                                        },
                                    }
                                    assert(me.fail_wit(s, e, aw, naw));
                                }
                            }
                        }
                        PollDec::Pending(me)
                    },
                    PollDec::Errored(err) => {
                        proof {
                            if let DecodeError::DataError(e) = &err {
                                let m = r.pos() - r0.pos();
                                assert forall|s: Seq<u8>, mm: int|
                                    mm == m implies #[trigger] me0.fails_with(
                                    r0.window().take(mm) + s,
                                    *e,
                                ) by {
                                    assert(first.fails_with(r0.window().take(mm) + s, *e));
                                    assert(me0.fail_wit(
                                        r0.window().take(mm) + s,
                                        *e,
                                        Option::None,
                                        0,
                                    ));
                                }
                            }
                            if me0.eof_only() {
                                if let DecodeError::ReaderError(_) = &err {
                                    assert forall|i: (S::Item, T::Item), k: int| !me0.produces(
                                        r0.window(),
                                        i,
                                        k,
                                    ) by {
                                        if me0.produces(r0.window(), i, k) {
                                            let naw = choose|naw: int| #[trigger] me0.prod_wit(
                                                r0.window(),
                                                i,
                                                k,
                                                naw,
                                            );
                                            assert(!first.produces(r0.window(), i.0, naw));
                                        }
                                    }
                                }
                            }
                        }
                        PollDec::Errored(err)
                    },
                }
            },
            ChainState::Second(second, a) => {
                match second.poll_decode(r) {
                    PollDec::Done(b, n) => {
                        let ghost c = r0.window().take(n as int);
                        proof {
                            assert(c.len() == n as int);
                            assert forall|s: Seq<u8>| me0.produces(c + s, (a, b), n as int) by {
                                assert(second.produces(c + s, b, n as int));
                                assert(me0.prod_wit(c + s, (a, b), n as int, 0));
                            }
                            if me0.det() {
                                assert forall|s: Seq<u8>, i: (S::Item, T::Item), k: int| #[trigger]
                                    me0.produces(c + s, i, k) implies k >= n by {
                                    let naw = choose|naw: int| #[trigger] me0.prod_wit(
                                        c + s,
                                        i,
                                        k,
                                        naw,
                                    );
                                    assert(second.produces(c + s, i.1, k));
                                }
                            }
                        }
                        PollDec::Done((a, b), n)
                    },
                    PollDec::Progress(t2, n) => {
                        let ghost c = r0.window().take(n as int);
                        let me = Chain { state: ChainState::Second(t2, a) };
                        proof {
                            assert(c.len() == n as int);
                            assert forall|s: Seq<u8>, i: (S::Item, T::Item), k: int| #[trigger]
                                me.produces(s, i, k) implies me0.produces(c + s, i, k + n) by {
                                let naw = choose|naw: int| #[trigger] me.prod_wit(s, i, k, naw);
                                assert(second.produces(c + s, i.1, k + n));
                                assert(me0.prod_wit(c + s, i, k + n, 0));
                            }
                            assert forall|s: Seq<u8>, e: S::Error| #[trigger]
                                me.fails_with(s, e) implies me0.fails_with(c + s, e) by {
                                let (aw, naw) = choose|aw: Option<S::Item>, naw: int| #[trigger]
                                    me.fail_wit(s, e, aw, naw);
                                assert(second.fails_with(c + s, e));
                                assert(me0.fail_wit(c + s, e, Option::None, 0));
                            }
                            if me0.det() {
                                assert forall|s: Seq<u8>, i: (S::Item, T::Item), k: int| #[trigger]
                                    me0.produces(c + s, i, k) implies k >= n by {
                                    let naw = choose|naw: int| #[trigger] me0.prod_wit(
                                        c + s,
                                        i,
                                        k,
                                        naw,
                                    );
                                    assert(second.produces(c + s, i.1, k));
                                }
                                assert forall|s: Seq<u8>, i: (S::Item, T::Item), k: int|
                                    k >= n && #[trigger] me0.produces(c + s, i, k) implies
                                    me.produces(s, i, k - n) by {
                                    let naw = choose|naw: int| #[trigger] me0.prod_wit(
                                        c + s,
                                        i,
                                        k,
                                        naw,
                                    );
                                    assert(second.produces(c + s, i.1, k));
                                    assert(t2.produces(s, i.1, k - n));
                                    assert(me.prod_wit(s, i, k - n, 0));
                                }
                            }
                        }
                        PollDec::Progress(me, n)
                    },
                    PollDec::Pending(t2) => {
                        let me = Chain { state: ChainState::Second(t2, a) };
                        proof {
                            assert forall|s: Seq<u8>, i: (S::Item, T::Item), k: int|
                                #![trigger me.produces(s, i, k)]
                                #![trigger me0.produces(s, i, k)]
                                me.produces(s, i, k) == me0.produces(s, i, k) by {
                                if me.produces(s, i, k) {
                                    let naw = choose|naw: int| #[trigger] me.prod_wit(s, i, k, naw);
                                    assert(t2.produces(s, i.1, k));
                                    assert(me0.prod_wit(s, i, k, 0));
                                }
                                if me0.produces(s, i, k) {
                                    let naw = choose|naw: int| #[trigger] me0.prod_wit(s, i, k, naw);
                                    assert(second.produces(s, i.1, k));
                                    assert(me.prod_wit(s, i, k, 0));
                                }
                            }
                            assert forall|s: Seq<u8>, e: S::Error|
                                #![trigger me.fails_with(s, e)]
                                #![trigger me0.fails_with(s, e)]
                                me.fails_with(s, e) == me0.fails_with(s, e) by {
                                if me.fails_with(s, e) {
                                    let (aw, naw) = choose|aw: Option<S::Item>, naw: int|
                                        #[trigger] me.fail_wit(s, e, aw, naw);
                                    assert(t2.fails_with(s, e));
                                    assert(me0.fail_wit(s, e, Option::None, 0));
                                }
                                if me0.fails_with(s, e) {
                                    let (aw, naw) = choose|aw: Option<S::Item>, naw: int|
                                        #[trigger] me0.fail_wit(s, e, aw, naw);
                                    assert(second.fails_with(s, e));
                                    assert(me.fail_wit(s, e, Option::None, 0));
                                }
                            }
                        }
                        PollDec::Pending(me)
                    },
                    PollDec::Errored(err) => {
                        proof {
                            if let DecodeError::DataError(e) = &err {
                                let m = r.pos() - r0.pos();
                                assert forall|s: Seq<u8>, mm: int|
                                    mm == m implies #[trigger] me0.fails_with(
                                    r0.window().take(mm) + s,
                                    *e,
                                ) by {
                                    assert(second.fails_with(r0.window().take(mm) + s, *e));
                                    assert(me0.fail_wit(
                                        r0.window().take(mm) + s,
                                        *e,
                                        Option::None,
                                        0,
                                    ));
                                }
                            }
                            if me0.eof_only() {
                                if let DecodeError::ReaderError(_) = &err {
                                    assert forall|i: (S::Item, T::Item), k: int| !me0.produces(
                                        r0.window(),
                                        i,
                                        k,
                                    ) by {
                                        if me0.produces(r0.window(), i, k) {
                                            let naw = choose|naw: int| #[trigger] me0.prod_wit(
                                                r0.window(),
                                                i,
                                                k,
                                                naw,
                                            );
                                            assert(!second.produces(r0.window(), i.1, k));
                                        }
                                    }
                                }
                            }
                        }
                        PollDec::Errored(err)
                    },
                }
            },
        }
    }
}

} // verus!
