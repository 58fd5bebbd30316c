//! Run a decoder, then use its item to construct the next decoder to run.

use vstd::prelude::*;

use crate::codec::Decodable;
use crate::codec::DecodeError;
use crate::codec::PollDec;
use crate::transport::Reader;

verus! {

enum AndThenState<S, T, F> {
    First(S, F),
    Second(T),
}

/// Runs decoder `S`; its item is handed to the continuation `F`, which builds
/// the decoder `T` that runs over the following bytes. This is the
/// data-dependent counterpart of `Chain`: the second decoder's shape may
/// depend on the first item. The continuation is invoked at most once, exactly
/// when the first decoder finishes.
pub struct AndThen<S, T, F> {
    state: AndThenState<S, T, F>,
}

impl<S: Decodable, T: Decodable<Error = S::Error>, F: FnOnce(S::Item) -> T> AndThen<S, T, F> {
    /// Witness form of `produces`: the first item `a`, the split point `na`,
    /// and the constructed second decoder `t`.
    closed spec fn prod_wit(
        self,
        s: Seq<u8>,
        item: T::Item,
        n: int,
        a: S::Item,
        na: int,
        t: T,
    ) -> bool {
        match self.state {
            AndThenState::First(f, cont) => {
                &&& 0 <= na <= n
                &&& na <= s.len()
                &&& f.produces(s, a, na)
                &&& call_ensures(cont, (a,), t)
                &&& t.produces(s.skip(na), item, n - na)
            },
            AndThenState::Second(t2) => {
                &&& na == 0
                &&& 0 <= n
                &&& t == t2
                &&& t2.produces(s, item, n)
            },
        }
    }

    /// Witness form of `fails_with`; `a == None` means the currently running
    /// decoder itself failed.
    closed spec fn fail_wit(
        self,
        s: Seq<u8>,
        e: S::Error,
        a: Option<S::Item>,
        na: int,
        t: T,
    ) -> bool {
        match self.state {
            AndThenState::First(f, cont) => match a {
                Option::None => na == 0 && f.fails_with(s, e),
                Option::Some(aa) => {
                    &&& 0 <= na <= s.len()
                    &&& f.produces(s, aa, na)
                    &&& call_ensures(cont, (aa,), t)
                    &&& t.fails_with(s.skip(na), e)
                },
            },
            AndThenState::Second(t2) => {
                &&& a == Option::<S::Item>::None
                &&& na == 0
                &&& t == t2
                &&& t2.fails_with(s, e)
            },
        }
    }

    /// Create a new `AndThen` which decodes via `first`, then via the decoder
    /// that `f` builds from the first item.
    pub fn new(first: S, f: F) -> (c: AndThen<S, T, F>)
        ensures
            (first.wf() && (forall|i: S::Item| call_requires(f, (i,))) && (forall|i: S::Item, t: T|
                #[trigger] call_ensures(f, (i,), t) ==> t.wf())) ==> c.wf(),
            forall|s: Seq<u8>, i: T::Item, n: int| #[trigger]
                c.produces(s, i, n) <==> exists|a: S::Item, na: int, t: T|
                    #![trigger first.produces(s, a, na), call_ensures(f, (a,), t)]
                    0 <= na <= n && na <= s.len() && first.produces(s, a, na) && call_ensures(
                        f,
                        (a,),
                        t,
                    ) && t.produces(s.skip(na), i, n - na),
            forall|s: Seq<u8>, e: S::Error| #[trigger]
                c.fails_with(s, e) <==> (first.fails_with(s, e) || exists|
                    a: S::Item,
                    na: int,
                    t: T,
                |
                    #![trigger first.produces(s, a, na), call_ensures(f, (a,), t)]
                    0 <= na <= s.len() && first.produces(s, a, na) && call_ensures(f, (a,), t)
                        && t.fails_with(s.skip(na), e)),
    {
        let c = AndThen { state: AndThenState::First(first, f) };
        proof {
            if first.wf() && (forall|i: S::Item| call_requires(f, (i,))) && (forall|
                i: S::Item,
                t: T,
            | #[trigger] call_ensures(f, (i,), t) ==> t.wf()) {
                assert(c.wf());
            }
            assert forall|s: Seq<u8>, i: T::Item, n: int| #[trigger]
                c.produces(s, i, n) == (exists|a: S::Item, na: int, t: T|
                    #![trigger first.produces(s, a, na), call_ensures(f, (a,), t)]
                    0 <= na <= n && na <= s.len() && first.produces(s, a, na) && call_ensures(
                        f,
                        (a,),
                        t,
                    ) && t.produces(s.skip(na), i, n - na)) by {
                if c.produces(s, i, n) {
                    let (a, na, t) = choose|a: S::Item, na: int, t: T| #[trigger] c.prod_wit(
                        s,
                        i,
                        n,
                        a,
                        na,
                        t,
                    );
                    assert(first.produces(s, a, na));
                }
                if exists|a: S::Item, na: int, t: T|
                    #![trigger first.produces(s, a, na), call_ensures(f, (a,), t)]
                    0 <= na <= n && na <= s.len() && first.produces(s, a, na) && call_ensures(
                        f,
                        (a,),
                        t,
                    ) && t.produces(s.skip(na), i, n - na) {
                    let (a, na, t) = choose|a: S::Item, na: int, t: T|
                        #![trigger first.produces(s, a, na), call_ensures(f, (a,), t)]
                        0 <= na <= n && na <= s.len() && first.produces(s, a, na) && call_ensures(
                            f,
                            (a,),
                            t,
                        ) && t.produces(s.skip(na), i, n - na);
                    assert(c.prod_wit(s, i, n, a, na, t));
                    assert(c.produces(s, i, n));
                }
            }
            assert forall|s: Seq<u8>, e: S::Error| #[trigger]
                c.fails_with(s, e) == (first.fails_with(s, e) || exists|a: S::Item, na: int, t: T|
                    #![trigger first.produces(s, a, na), call_ensures(f, (a,), t)]
                    0 <= na <= s.len() && first.produces(s, a, na) && call_ensures(f, (a,), t)
                        && t.fails_with(s.skip(na), e)) by {
                if c.fails_with(s, e) {
                    let (a, na, t) = choose|a: Option<S::Item>, na: int, t: T| #[trigger]
                        c.fail_wit(s, e, a, na, t);
                    if let Option::Some(aa) = a {
                        assert(first.produces(s, aa, na));
                    }
                }
                if first.fails_with(s, e) {
                    let t = vstd::pervasive::arbitrary::<T>();
                    assert(c.fail_wit(s, e, Option::None, 0, t));
                    assert(c.fails_with(s, e));
                }
                if exists|a: S::Item, na: int, t: T|
                    #![trigger first.produces(s, a, na), call_ensures(f, (a,), t)]
                    0 <= na <= s.len() && first.produces(s, a, na) && call_ensures(f, (a,), t)
                        && t.fails_with(s.skip(na), e) {
                    let (a, na, t) = choose|a: S::Item, na: int, t: T|
                        #![trigger first.produces(s, a, na), call_ensures(f, (a,), t)]
                        0 <= na <= s.len() && first.produces(s, a, na) && call_ensures(f, (a,), t)
                            && t.fails_with(s.skip(na), e);
                    assert(c.fail_wit(s, e, Option::Some(a), na, t));
                    assert(c.fails_with(s, e));
                }
            }
        }
        c
    }
}

impl<S: Decodable, T: Decodable<Error = S::Error>, F: FnOnce(S::Item) -> T> Decodable for AndThen<
    S,
    T,
    F,
> {
    type Item = T::Item;

    type Error = S::Error;

    closed spec fn wf(self) -> bool {
        match self.state {
            AndThenState::First(f, cont) => {
                &&& f.wf()
                &&& forall|i: S::Item| call_requires(cont, (i,))
                &&& forall|i: S::Item, t: T| #[trigger] call_ensures(cont, (i,), t) ==> t.wf()
            },
            AndThenState::Second(t) => t.wf(),
        }
    }

    closed spec fn produces(self, s: Seq<u8>, item: T::Item, n: int) -> bool {
        exists|a: S::Item, na: int, t: T| #[trigger] self.prod_wit(s, item, n, a, na, t)
    }

    closed spec fn fails_with(self, s: Seq<u8>, e: S::Error) -> bool {
        exists|a: Option<S::Item>, na: int, t: T| #[trigger] self.fail_wit(s, e, a, na, t)
    }

    closed spec fn eof_only(self) -> bool {
        match self.state {
            AndThenState::First(f, cont) => f.eof_only() && (forall|i: S::Item, t: T| #[trigger]
                call_ensures(cont, (i,), t) ==> t.eof_only()),
            AndThenState::Second(t) => t.eof_only(),
        }
    }

    closed spec fn bounded(self) -> bool {
        false
    }

    closed spec fn fuel(self) -> nat {
        0
    }

    closed spec fn det(self) -> bool {
        false
    }

    proof fn lemma_det_unique(self, s: Seq<u8>, i1: T::Item, n1: int, i2: T::Item, n2: int) {
    }

    fn poll_decode(self, r: &mut Reader) -> (res: PollDec<T::Item, Self, S::Error>) {
        let ghost r0 = *r;
        let ghost me0 = self;
        match self.state {
            AndThenState::First(first, cont) => {
                match first.poll_decode(r) {
                    PollDec::Done(a, n) => {
                        let ghost c = r0.window().take(n as int);
                        let ghost cont0 = cont;
                        proof {
                            assert(call_requires(cont0, (a,)));
                        }
                        let t = cont(a);
                        let me = AndThen { state: AndThenState::Second(t) };
                        proof {
                            assert(c.len() == n as int);
                            assert forall|s: Seq<u8>, i: T::Item, k: int| #[trigger]
                                me.produces(s, i, k) implies me0.produces(c + s, i, k + n) by {
                                let (aw, naw, tw) = choose|aw: S::Item, naw: int, tw: T| #[trigger]
                                    me.prod_wit(s, i, k, aw, naw, tw);
                                assert(first.produces(c + s, a, n as int));
                                assert((c + s).skip(n as int) =~= s);
                                assert(me0.prod_wit(c + s, i, k + n, a, n as int, t));
                            }
                            assert forall|s: Seq<u8>, e: S::Error| #[trigger]
                                me.fails_with(s, e) implies me0.fails_with(c + s, e) by {
                                let (aw, naw, tw) = choose|aw: Option<S::Item>, naw: int, tw: T|
                                    #[trigger] me.fail_wit(s, e, aw, naw, tw);
                                assert(first.produces(c + s, a, n as int));
                                assert((c + s).skip(n as int) =~= s);
                                assert(me0.fail_wit(c + s, e, Option::Some(a), n as int, t));
                            }
                        }
                        PollDec::Progress(me, n)
                    },
                    PollDec::Progress(f2, n) => {
                        let ghost c = r0.window().take(n as int);
                        let me = AndThen { state: AndThenState::First(f2, cont) };
                        proof {
                            assert(c.len() == n as int);
                            assert forall|s: Seq<u8>, i: T::Item, k: int| #[trigger]
                                me.produces(s, i, k) implies me0.produces(c + s, i, k + n) by {
                                let (aw, naw, tw) = choose|aw: S::Item, naw: int, tw: T| #[trigger]
                                    me.prod_wit(s, i, k, aw, naw, tw);
                                assert(first.produces(c + s, aw, naw + n));
                                assert((c + s).skip(naw + n) =~= s.skip(naw));
                                assert(me0.prod_wit(c + s, i, k + n, aw, naw + n, tw));
                            }
                            assert forall|s: Seq<u8>, e: S::Error| #[trigger]
                                me.fails_with(s, e) implies me0.fails_with(c + s, e) by {
                                let (aw, naw, tw) = choose|aw: Option<S::Item>, naw: int, tw: T|
                                    #[trigger] me.fail_wit(s, e, aw, naw, tw);
                                match aw {
                                    Option::None => {
                                        assert(first.fails_with(c + s, e));
                                        assert(me0.fail_wit(c + s, e, Option::None, 0, tw));
                                    },
                                    Option::Some(aa) => {
                                        assert(first.produces(c + s, aa, naw + n));
                                        assert((c + s).skip(naw + n) =~= s.skip(naw));
                                        assert(me0.fail_wit(
                                            c + s,
                                            e,
                                            Option::Some(aa),
                                            naw + n,
                                            tw,
                                        ));
                                    },
                                }
                            }
                        }
                        PollDec::Progress(me, n)
                    },
                    PollDec::Pending(f2) => {
                        let me = AndThen { state: AndThenState::First(f2, cont) };
                        proof {
                            assert forall|s: Seq<u8>, i: T::Item, k: int|
                                #![trigger me.produces(s, i, k)]
                                #![trigger me0.produces(s, i, k)]
                                me.produces(s, i, k) == me0.produces(s, i, k) by {
                                if me.produces(s, i, k) {
                                    let (aw, naw, tw) = choose|aw: S::Item, naw: int, tw: T|
                                        #[trigger] me.prod_wit(s, i, k, aw, naw, tw);
                                    assert(first.produces(s, aw, naw));
                                    assert(me0.prod_wit(s, i, k, aw, naw, tw));
                                }
                                if me0.produces(s, i, k) {
                                    let (aw, naw, tw) = choose|aw: S::Item, naw: int, tw: T|
                                        #[trigger] me0.prod_wit(s, i, k, aw, naw, tw);
                                    assert(f2.produces(s, aw, naw));
                                    assert(me.prod_wit(s, i, k, aw, naw, tw));
                                }
                            }
                            assert forall|s: Seq<u8>, e: S::Error|
                                #![trigger me.fails_with(s, e)]
                                #![trigger me0.fails_with(s, e)]
                                me.fails_with(s, e) == me0.fails_with(s, e) by {
                                if me.fails_with(s, e) {
                                    let (aw, naw, tw) = choose|aw: Option<S::Item>, naw: int, tw: T|
                                        #[trigger] me.fail_wit(s, e, aw, naw, tw);
                                    match aw {
                                        Option::None => {
                                            assert(first.fails_with(s, e));
                                        },
                                        Option::Some(aa) => {
                                            assert(first.produces(s, aa, naw));
                                        },
                                    }
                                    assert(me0.fail_wit(s, e, aw, naw, tw));
                                }
                                if me0.fails_with(s, e) {
                                    let (aw, naw, tw) = choose|aw: Option<S::Item>, naw: int, tw: T|
                                        #[trigger] me0.fail_wit(s, e, aw, naw, tw);
                                    match aw {
                                        Option::None => {
                                            assert(f2.fails_with(s, e));
                                        },
                                        Option::Some(aa) => {
                                            assert(f2.produces(s, aa, naw));
                                        },
                                    }
                                    assert(me.fail_wit(s, e, aw, naw, tw));
                                }
                            }
                        }
                        PollDec::Pending(me)
                    },
                    PollDec::Errored(err) => {
                        proof {
                            if let DecodeError::DataError(e) = &err {
                                let m = r.pos() - r0.pos();
                                assert forall|s: Seq<u8>, mm: int|
                                    mm == m implies #[trigger] me0.fails_with(
                                    r0.window().take(mm) + s,
                                    *e,
                                ) by {
                                    assert(first.fails_with(r0.window().take(mm) + s, *e));
                                    assert(me0.fail_wit(
                                        r0.window().take(mm) + s,
                                        *e,
                                        Option::None,
                                        0,
                                        vstd::pervasive::arbitrary::<T>(),
                                    ));
                                }
                            }
                            if me0.eof_only() {
                                if let DecodeError::ReaderError(_) = &err {
                                    assert forall|i: T::Item, k: int| !me0.produces(
                                        r0.window(),
                                        i,
                                        k,
                                    ) by {
                                        if me0.produces(r0.window(), i, k) {
                                            let (aw, naw, tw) = choose|
                                                aw: S::Item,
                                                naw: int,
                                                tw: T,
                                            | #[trigger] me0.prod_wit(r0.window(), i, k, aw, naw, tw);
                                            assert(!first.produces(r0.window(), aw, naw));
                                        }
                                    }
                                }
                            }
                        }
                        PollDec::Errored(err)
                    },
                }
            },
            AndThenState::Second(t) => {
                match t.poll_decode(r) {
                    PollDec::Done(b, n) => {
                        let ghost c = r0.window().take(n as int);
                        proof {
                            assert(c.len() == n as int);
                            assert forall|s: Seq<u8>| me0.produces(c + s, b, n as int) by {
                                assert(t.produces(c + s, b, n as int));
                                assert(me0.prod_wit(
                                    c + s,
                                    b,
                                    n as int,
                                    vstd::pervasive::arbitrary::<S::Item>(),
                                    0,
                                    t,
                                ));
                            }
                        }
                        PollDec::Done(b, n)
                    },
                    PollDec::Progress(t2, n) => {
                        let ghost c = r0.window().take(n as int);
                        let me = AndThen { state: AndThenState::Second(t2) };
                        proof {
                            assert(c.len() == n as int);
                            assert forall|s: Seq<u8>, i: T::Item, k: int| #[trigger]
                                me.produces(s, i, k) implies me0.produces(c + s, i, k + n) by {
                                let (aw, naw, tw) = choose|aw: S::Item, naw: int, tw: T| #[trigger]
                                    me.prod_wit(s, i, k, aw, naw, tw);
                                assert(t.produces(c + s, i, k + n));
                                assert(me0.prod_wit(c + s, i, k + n, aw, 0, t));
                            }
                            assert forall|s: Seq<u8>, e: S::Error| #[trigger]
                                me.fails_with(s, e) implies me0.fails_with(c + s, e) by {
                                let (aw, naw, tw) = choose|aw: Option<S::Item>, naw: int, tw: T|
                                    #[trigger] me.fail_wit(s, e, aw, naw, tw);
                                assert(t.fails_with(c + s, e));
                                assert(me0.fail_wit(c + s, e, Option::None, 0, t));
                            }
                        }
                        PollDec::Progress(me, n)
                    },
                    PollDec::Pending(t2) => {
                        let me = AndThen { state: AndThenState::Second(t2) };
                        proof {
                            assert forall|s: Seq<u8>, i: T::Item, k: int|
                                #![trigger me.produces(s, i, k)]
                                #![trigger me0.produces(s, i, k)]
                                me.produces(s, i, k) == me0.produces(s, i, k) by {
                                if me.produces(s, i, k) {
                                    let (aw, naw, tw) = choose|aw: S::Item, naw: int, tw: T|
                                        #[trigger] me.prod_wit(s, i, k, aw, naw, tw);
                                    assert(t2.produces(s, i, k));
                                    assert(me0.prod_wit(s, i, k, aw, 0, t));
                                }
                                if me0.produces(s, i, k) {
                                    let (aw, naw, tw) = choose|aw: S::Item, naw: int, tw: T|
                                        #[trigger] me0.prod_wit(s, i, k, aw, naw, tw);
                                    assert(t.produces(s, i, k));
                                    assert(me.prod_wit(s, i, k, aw, 0, t2));
                                }
                            }
                            assert forall|s: Seq<u8>, e: S::Error|
                                #![trigger me.fails_with(s, e)]
                                #![trigger me0.fails_with(s, e)]
                                me.fails_with(s, e) == me0.fails_with(s, e) by {
                                if me.fails_with(s, e) {
                                    let (aw, naw, tw) = choose|aw: Option<S::Item>, naw: int, tw: T|
                                        #[trigger] me.fail_wit(s, e, aw, naw, tw);
                                    assert(t2.fails_with(s, e));
                                    assert(me0.fail_wit(s, e, Option::None, 0, t));
                                }
                                if me0.fails_with(s, e) {
                                    let (aw, naw, tw) = choose|aw: Option<S::Item>, naw: int, tw: T|
                                        #[trigger] me0.fail_wit(s, e, aw, naw, tw);
                                    assert(t.fails_with(s, e));
                                    assert(me.fail_wit(s, e, Option::None, 0, t2));
                                }
                            }
                        }
                        PollDec::Pending(me)
                    },
                    PollDec::Errored(err) => {
                        proof {
                            if let DecodeError::DataError(e) = &err {
                                let m = r.pos() - r0.pos();
                                assert forall|s: Seq<u8>, mm: int|
                                    mm == m implies #[trigger] me0.fails_with(
                                    r0.window().take(mm) + s,
                                    *e,
                                ) by {
                                    assert(t.fails_with(r0.window().take(mm) + s, *e));
                                    assert(me0.fail_wit(
                                        r0.window().take(mm) + s,
                                        *e,
                                        Option::None,
                                        0,
                                        t,
                                    ));
                                }
                            }
                            if me0.eof_only() {
                                if let DecodeError::ReaderError(_) = &err {
                                    assert forall|i: T::Item, k: int| !me0.produces(
                                        r0.window(),
                                        i,
                                        k,
                                    ) by {
                                        if me0.produces(r0.window(), i, k) {
                                            let (aw, naw, tw) = choose|
                                                aw: S::Item,
                                                naw: int,
                                                tw: T,
                                            | #[trigger] me0.prod_wit(r0.window(), i, k, aw, naw, tw);
                                            assert(!t.produces(r0.window(), i, k));
                                        }
                                    }
                                }
                            }
                        }
                        PollDec::Errored(err)
                    },
                }
            },
        }
    }
}

} // verus!
