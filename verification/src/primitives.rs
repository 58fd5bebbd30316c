//! Fixed-width integer codecs: leaf decoders and encoders over big-endian
//! bytes, each an incremental state machine satisfying the codec contract.

use vstd::prelude::*;

use crate::codec::Decodable;
use crate::codec::DecodeError;
use crate::codec::Encodable;
use crate::codec::EncodableLen;
use crate::codec::PollDec;
use crate::codec::PollEnc;
use crate::transport::lemma_window_advance;
use crate::transport::ByteRead;
use crate::transport::ByteWrite;
use crate::transport::Reader;
use crate::transport::TransportError;
use crate::transport::Writer;

verus! {

/// Byte `i` of the 8-byte big-endian image of `v`.
pub open spec fn u64_be_byte(v: u64, i: int) -> u8 {
    ((v >> (((7 - i) * 8) as u64)) & 0xff) as u8
}

/// The 8-byte big-endian image of `v`.
pub open spec fn u64_be(v: u64) -> Seq<u8> {
    Seq::new(8, |i: int| u64_be_byte(v, i))
}

/// Fold the bytes of `s` into `acc`, most significant first.
pub open spec fn be_accum64(acc: u64, s: Seq<u8>) -> u64
    decreases s.len(),
{
    if s.len() <= 0 {
        acc
    } else {
        be_accum64((acc << 8) | (s[0] as u64), s.skip(1))
    }
}

/// Byte `i` of the 4-byte big-endian image of `v`.
pub open spec fn u32_be_byte(v: u32, i: int) -> u8 {
    ((v >> (((3 - i) * 8) as u32)) & 0xff) as u8
}

/// The 4-byte big-endian image of `v`.
pub open spec fn u32_be(v: u32) -> Seq<u8> {
    Seq::new(4, |i: int| u32_be_byte(v, i))
}

/// Fold the bytes of `s` into `acc`, most significant first.
pub open spec fn be_accum32(acc: u32, s: Seq<u8>) -> u32
    decreases s.len(),
{
    if s.len() <= 0 {
        acc
    } else {
        be_accum32((acc << 8) | (s[0] as u32), s.skip(1))
    }
}

proof fn lemma_be_accum64_snoc(acc: u64, s: Seq<u8>, b: u8)
    ensures
        be_accum64(acc, s.push(b)) == (be_accum64(acc, s) << 8) | (b as u64),
    decreases s.len(),
{
    reveal_with_fuel(be_accum64, 3);
    if s.len() == 0 {
        assert(s.push(b).skip(1) =~= Seq::<u8>::empty());
        assert(s.push(b)[0] == b);
    } else {
        assert(s.push(b).skip(1) =~= s.skip(1).push(b));
        assert(s.push(b)[0] == s[0]);
        lemma_be_accum64_snoc((acc << 8) | (s[0] as u64), s.skip(1), b);
    }
}

proof fn lemma_be_accum64_concat(acc: u64, c: Seq<u8>, t: Seq<u8>)
    ensures
        be_accum64(acc, c + t) == be_accum64(be_accum64(acc, c), t),
    decreases c.len(),
{
    reveal_with_fuel(be_accum64, 3);
    if c.len() == 0 {
        assert(c + t =~= t);
    } else {
        assert((c + t).skip(1) =~= c.skip(1) + t);
        assert((c + t)[0] == c[0]);
        lemma_be_accum64_concat((acc << 8) | (c[0] as u64), c.skip(1), t);
    }
}

proof fn lemma_be_accum32_snoc(acc: u32, s: Seq<u8>, b: u8)
    ensures
        be_accum32(acc, s.push(b)) == (be_accum32(acc, s) << 8) | (b as u32),
    decreases s.len(),
{
    reveal_with_fuel(be_accum32, 3);
    if s.len() == 0 {
        assert(s.push(b).skip(1) =~= Seq::<u8>::empty());
        assert(s.push(b)[0] == b);
    } else {
        assert(s.push(b).skip(1) =~= s.skip(1).push(b));
        assert(s.push(b)[0] == s[0]);
        lemma_be_accum32_snoc((acc << 8) | (s[0] as u32), s.skip(1), b);
    }
}

proof fn lemma_be_accum32_concat(acc: u32, c: Seq<u8>, t: Seq<u8>)
    ensures
        be_accum32(acc, c + t) == be_accum32(be_accum32(acc, c), t),
    decreases c.len(),
{
    reveal_with_fuel(be_accum32, 3);
    if c.len() == 0 {
        assert(c + t =~= t);
    } else {
        assert((c + t).skip(1) =~= c.skip(1) + t);
        assert((c + t)[0] == c[0]);
        lemma_be_accum32_concat((acc << 8) | (c[0] as u32), c.skip(1), t);
    }
}

/// Round-trip law: over any stream that begins with the big-endian image of
/// `v`, folding the first 8 bytes yields `v` again, however the transport
/// chunks them. Together with the constructor contracts this says that a fresh
/// `DecodeU64` run over `EncodeU64::new(v)`'s output produces exactly `v`
/// after 8 bytes.
pub proof fn lemma_u64_round_trip(v: u64, rest: Seq<u8>)
    ensures
        (u64_be(v) + rest).take(8) == u64_be(v),
        be_accum64(0, (u64_be(v) + rest).take(8)) == v,
{
    let s = u64_be(v);
    assert((s + rest).take(8) =~= s);
    assert(s[0] == (((v >> 56u64) & 0xff) as u8));
    assert(s[1] == (((v >> 48u64) & 0xff) as u8));
    assert(s[2] == (((v >> 40u64) & 0xff) as u8));
    assert(s[3] == (((v >> 32u64) & 0xff) as u8));
    assert(s[4] == (((v >> 24u64) & 0xff) as u8));
    assert(s[5] == (((v >> 16u64) & 0xff) as u8));
    assert(s[6] == (((v >> 8u64) & 0xff) as u8));
    assert(s[7] == (((v >> 0u64) & 0xff) as u8));
    let a1: u64 = (0u64 << 8) | (s[0] as u64);
    let a2: u64 = (a1 << 8) | (s[1] as u64);
    let a3: u64 = (a2 << 8) | (s[2] as u64);
    let a4: u64 = (a3 << 8) | (s[3] as u64);
    let a5: u64 = (a4 << 8) | (s[4] as u64);
    let a6: u64 = (a5 << 8) | (s[5] as u64);
    let a7: u64 = (a6 << 8) | (s[6] as u64);
    let a8: u64 = (a7 << 8) | (s[7] as u64);
    assert(s.skip(1)[0] == s[1] && s.skip(2)[0] == s[2] && s.skip(3)[0] == s[3] && s.skip(4)[0]
        == s[4] && s.skip(5)[0] == s[5] && s.skip(6)[0] == s[6] && s.skip(7)[0] == s[7]);
    assert(s.skip(1).skip(1) =~= s.skip(2));
    assert(s.skip(2).skip(1) =~= s.skip(3));
    assert(s.skip(3).skip(1) =~= s.skip(4));
    assert(s.skip(4).skip(1) =~= s.skip(5));
    assert(s.skip(5).skip(1) =~= s.skip(6));
    assert(s.skip(6).skip(1) =~= s.skip(7));
    assert(s.skip(7).skip(1) =~= s.skip(8));
    assert(s.skip(8).len() == 0);
    assert(be_accum64(0, s) == be_accum64(a1, s.skip(1)));
    assert(be_accum64(a1, s.skip(1)) == be_accum64(a2, s.skip(2)));
    assert(be_accum64(a2, s.skip(2)) == be_accum64(a3, s.skip(3)));
    assert(be_accum64(a3, s.skip(3)) == be_accum64(a4, s.skip(4)));
    assert(be_accum64(a4, s.skip(4)) == be_accum64(a5, s.skip(5)));
    assert(be_accum64(a5, s.skip(5)) == be_accum64(a6, s.skip(6)));
    assert(be_accum64(a6, s.skip(6)) == be_accum64(a7, s.skip(7)));
    assert(be_accum64(a7, s.skip(7)) == be_accum64(a8, s.skip(8)));
    assert(be_accum64(a8, s.skip(8)) == a8);
    assert(a8 == v) by (bit_vector)
        requires
            a1 == (0u64 << 8) | ((((v >> 56u64) & 0xff) as u8) as u64),
            a2 == (a1 << 8) | ((((v >> 48u64) & 0xff) as u8) as u64),
            a3 == (a2 << 8) | ((((v >> 40u64) & 0xff) as u8) as u64),
            a4 == (a3 << 8) | ((((v >> 32u64) & 0xff) as u8) as u64),
            a5 == (a4 << 8) | ((((v >> 24u64) & 0xff) as u8) as u64),
            a6 == (a5 << 8) | ((((v >> 16u64) & 0xff) as u8) as u64),
            a7 == (a6 << 8) | ((((v >> 8u64) & 0xff) as u8) as u64),
            a8 == (a7 << 8) | ((((v >> 0u64) & 0xff) as u8) as u64),
    ;
}

/// Round-trip law: over any stream that begins with the big-endian image of
/// `v`'s bit pattern, folding the first 4 bytes and reading them back as a
/// signed value yields `v` again. Together with the constructor contracts this
/// says that a fresh `DecodeI32` run over `EncodeI32::new(v)`'s output
/// produces exactly `v` after 4 bytes.
pub proof fn lemma_i32_round_trip(v: i32, rest: Seq<u8>)
    ensures
        (u32_be(v as u32) + rest).take(4) == u32_be(v as u32),
        be_accum32(0, (u32_be(v as u32) + rest).take(4)) as i32 == v,
{
    let u = v as u32;
    let s = u32_be(u);
    assert((s + rest).take(4) =~= s);
    assert(s[0] == (((u >> 24u32) & 0xff) as u8));
    assert(s[1] == (((u >> 16u32) & 0xff) as u8));
    assert(s[2] == (((u >> 8u32) & 0xff) as u8));
    assert(s[3] == (((u >> 0u32) & 0xff) as u8));
    let a1: u32 = (0u32 << 8) | (s[0] as u32);
    let a2: u32 = (a1 << 8) | (s[1] as u32);
    let a3: u32 = (a2 << 8) | (s[2] as u32);
    let a4: u32 = (a3 << 8) | (s[3] as u32);
    assert(s.skip(1)[0] == s[1] && s.skip(2)[0] == s[2] && s.skip(3)[0] == s[3]);
    assert(s.skip(1).skip(1) =~= s.skip(2));
    assert(s.skip(2).skip(1) =~= s.skip(3));
    assert(s.skip(3).skip(1) =~= s.skip(4));
    assert(s.skip(4).len() == 0);
    assert(be_accum32(0, s) == be_accum32(a1, s.skip(1)));
    assert(be_accum32(a1, s.skip(1)) == be_accum32(a2, s.skip(2)));
    assert(be_accum32(a2, s.skip(2)) == be_accum32(a3, s.skip(3)));
    assert(be_accum32(a3, s.skip(3)) == be_accum32(a4, s.skip(4)));
    assert(be_accum32(a4, s.skip(4)) == a4);
    assert(a4 as i32 == v) by (bit_vector)
        requires
            u == v as u32,
            a1 == (0u32 << 8) | ((((u >> 24u32) & 0xff) as u8) as u32),
            a2 == (a1 << 8) | ((((u >> 16u32) & 0xff) as u8) as u32),
            a3 == (a2 << 8) | ((((u >> 8u32) & 0xff) as u8) as u32),
            a4 == (a3 << 8) | ((((u >> 0u32) & 0xff) as u8) as u32),
    ;
}

/// The pair scenario: over any stream that begins with the image of `a`
/// followed by the image of `b`, the two parses split after exactly 4 bytes,
/// yield `a` and `b` back, and consume 4 + 8 = 12 bytes in all, however the
/// transport chunks the stream.
pub proof fn lemma_pair_round_trip(a: i32, b: u64, rest: Seq<u8>)
    ensures
        (u32_be(a as u32) + (u64_be(b) + rest)).take(4) == u32_be(a as u32),
        be_accum32(0, (u32_be(a as u32) + (u64_be(b) + rest)).take(4)) as i32 == a,
        (u32_be(a as u32) + (u64_be(b) + rest)).skip(4) == u64_be(b) + rest,
        be_accum64(0, (u64_be(b) + rest).take(8)) == b,
        u32_be(a as u32).len() + u64_be(b).len() == 12,
{
    lemma_i32_round_trip(a, u64_be(b) + rest);
    assert((u32_be(a as u32) + (u64_be(b) + rest)).skip(4) =~= u64_be(b) + rest);
    lemma_u64_round_trip(b, rest);
}

/// Decoder for a big-endian `u64`.
pub struct DecodeU64 {
    acc: u64,
    got: usize,
}

impl DecodeU64 {
    /// A fresh decoder that will consume 8 bytes.
    pub fn new() -> (d: DecodeU64)
        ensures
            d.wf(),
            d.eof_only(),
            d.bounded(),
            d.fuel() == 0,
            d.det(),
            forall|s: Seq<u8>, v: u64, n: int| #[trigger]
                d.produces(s, v, n) <==> (n == 8 && s.len() >= 8 && v == be_accum64(0, s.take(8))),
            forall|s: Seq<u8>, e: ()| !(#[trigger] d.fails_with(s, e)),
    {
        DecodeU64 { acc: 0, got: 0 }
    }
}

impl Decodable for DecodeU64 {
    type Item = u64;

    type Error = ();

    closed spec fn wf(self) -> bool {
        self.got <= 8
    }

    closed spec fn produces(self, s: Seq<u8>, item: u64, n: int) -> bool {
        &&& n == 8 - self.got
        &&& s.len() >= n
        &&& item == be_accum64(self.acc, s.take(n))
    }

    closed spec fn fails_with(self, s: Seq<u8>, e: ()) -> bool {
        false
    }

    closed spec fn eof_only(self) -> bool {
        true
    }

    closed spec fn bounded(self) -> bool {
        true
    }

    closed spec fn fuel(self) -> nat {
        0
    }

    closed spec fn det(self) -> bool {
        true
    }

    proof fn lemma_det_unique(self, s: Seq<u8>, i1: u64, n1: int, i2: u64, n2: int) {
    }

    #[verifier::loop_isolation(false)]
    fn poll_decode(self, r: &mut Reader) -> (res: PollDec<u64, Self, ()>) {
        let ghost r0 = *r;
        let mut acc = self.acc;
        let mut got = self.got;
        let mut n: usize = 0;
        loop
            invariant
                r.wf(),
                got <= 8,
                n <= 8,
                got == self.got + n,
                r.stream() == r0.stream(),
                r.is_open() == r0.is_open(),
                r.pos() == r0.pos() + n,
                crate::transport::cap_shrunk(r0, *r, n as int),
                n <= r0.window().len(),
                acc == be_accum64(self.acc, r0.window().take(n as int)),
            decreases 8 - got,
        {
            if got == 8 {
                break;
            }
            proof {
                lemma_window_advance(r0, *r, n as int);
            }
            match r.poll_byte() {
                ByteRead::Byte(b) => {
                    proof {
                        assert(r0.window().skip(n as int)[0] == r0.window()[n as int]);
                        assert(r0.window().take(n as int + 1) =~= r0.window().take(
                            n as int,
                        ).push(b));
                        lemma_be_accum64_snoc(self.acc, r0.window().take(n as int), b);
                    }
                    acc = (acc << 8) | (b as u64);
                    got = got + 1;
                    n = n + 1;
                },
                ByteRead::Pending => {
                    let me = DecodeU64 { acc, got };
                    if n > 0 {
                        proof {
                            step_forward_u64(self, me, r0.window().take(n as int), n as int);
                            step_backward_u64(self, me, r0.window().take(n as int), n as int);
                        }
                        return PollDec::Progress(me, n);
                    } else {
                        assert(forall|s: Seq<u8>, i: u64, k: int|
                            me.produces(s, i, k) <==> self.produces(s, i, k));
                        return PollDec::Pending(me);
                    }
                },
                ByteRead::Eof => {
                    proof {
                        lemma_window_advance(r0, *r, n as int);
                        assert(r.window().len() == 0);
                        assert(r0.window().len() == n);
                        assert(forall|i: u64, k: int| !self.produces(r0.window(), i, k));
                    }
                    return PollDec::Errored(DecodeError::ReaderError(
                        TransportError::UnexpectedEof,
                    ));
                },
            }
        }
        proof {
            assert forall|s: Seq<u8>|
                self.produces(r0.window().take(n as int) + s, acc, n as int) by {
                let c = r0.window().take(n as int);
                assert((c + s).take(n as int) =~= c);
            }
        }
        PollDec::Done(acc, n)
    }
}

/// After consuming the bytes `c`, the decoder `me` stands for the same
/// remaining work as `d` stood for beyond `c`.
proof fn step_forward_u64(d: DecodeU64, me: DecodeU64, c: Seq<u8>, n: int)
    requires
        c.len() == n,
        0 <= n,
        me.got == d.got + n,
        me.got <= 8,
        me.acc == be_accum64(d.acc, c),
    ensures
        forall|s: Seq<u8>, i: u64, k: int| #[trigger]
            me.produces(s, i, k) ==> d.produces(c + s, i, k + n),
{
    assert forall|s: Seq<u8>, i: u64, k: int| #[trigger]
        me.produces(s, i, k) implies d.produces(c + s, i, k + n) by {
        assert((c + s).take(k + n) =~= c + s.take(k));
        lemma_be_accum64_concat(d.acc, c, s.take(k));
    }
}

/// After consuming the bytes `c`, any parse of `d` extending `c` continues
/// exactly as a parse of `me`.
proof fn step_backward_u64(d: DecodeU64, me: DecodeU64, c: Seq<u8>, n: int)
    requires
        c.len() == n,
        0 <= n,
        me.got == d.got + n,
        me.got <= 8,
        me.acc == be_accum64(d.acc, c),
    ensures
        forall|s: Seq<u8>, i: u64, k: int|
            k >= n && #[trigger] d.produces(c + s, i, k) ==> me.produces(s, i, k - n),
{
    assert forall|s: Seq<u8>, i: u64, k: int|
        k >= n && #[trigger] d.produces(c + s, i, k) implies me.produces(s, i, k - n) by {
        assert((c + s).take(k) =~= c + s.take(k - n));
        lemma_be_accum64_concat(d.acc, c, s.take(k - n));
    }
}

/// Decoder for a big-endian `i32`.
pub struct DecodeI32 {
    acc: u32,
    got: usize,
}

impl DecodeI32 {
    /// A fresh decoder that will consume 4 bytes.
    pub fn new() -> (d: DecodeI32)
        ensures
            d.wf(),
            d.eof_only(),
            d.bounded(),
            d.fuel() == 0,
            d.det(),
            forall|s: Seq<u8>, v: i32, n: int| #[trigger]
                d.produces(s, v, n) <==> (n == 4 && s.len() >= 4 && v == be_accum32(
                    0,
                    s.take(4),
                ) as i32),
            forall|s: Seq<u8>, e: ()| !(#[trigger] d.fails_with(s, e)),
    {
        DecodeI32 { acc: 0, got: 0 }
    }
}

impl Decodable for DecodeI32 {
    type Item = i32;

    type Error = ();

    closed spec fn wf(self) -> bool {
        self.got <= 4
    }

    closed spec fn produces(self, s: Seq<u8>, item: i32, n: int) -> bool {
        &&& n == 4 - self.got
        &&& s.len() >= n
        &&& item == be_accum32(self.acc, s.take(n)) as i32
    }

    closed spec fn fails_with(self, s: Seq<u8>, e: ()) -> bool {
        false
    }

    closed spec fn eof_only(self) -> bool {
        true
    }

    closed spec fn bounded(self) -> bool {
        true
    }

    closed spec fn fuel(self) -> nat {
        0
    }

    closed spec fn det(self) -> bool {
        true
    }

    proof fn lemma_det_unique(self, s: Seq<u8>, i1: i32, n1: int, i2: i32, n2: int) {
    }

    #[verifier::loop_isolation(false)]
    fn poll_decode(self, r: &mut Reader) -> (res: PollDec<i32, Self, ()>) {
        let ghost r0 = *r;
        let mut acc = self.acc;
        let mut got = self.got;
        let mut n: usize = 0;
        loop
            invariant
                r.wf(),
                got <= 4,
                n <= 4,
                got == self.got + n,
                r.stream() == r0.stream(),
                r.is_open() == r0.is_open(),
                r.pos() == r0.pos() + n,
                crate::transport::cap_shrunk(r0, *r, n as int),
                n <= r0.window().len(),
                acc == be_accum32(self.acc, r0.window().take(n as int)),
            decreases 4 - got,
        {
            if got == 4 {
                break;
            }
            proof {
                lemma_window_advance(r0, *r, n as int);
            }
            match r.poll_byte() {
                ByteRead::Byte(b) => {
                    proof {
                        assert(r0.window().skip(n as int)[0] == r0.window()[n as int]);
                        assert(r0.window().take(n as int + 1) =~= r0.window().take(
                            n as int,
                        ).push(b));
                        lemma_be_accum32_snoc(self.acc, r0.window().take(n as int), b);
                    }
                    acc = (acc << 8) | (b as u32);
                    got = got + 1;
                    n = n + 1;
                },
                ByteRead::Pending => {
                    let me = DecodeI32 { acc, got };
                    if n > 0 {
                        proof {
                            step_forward_i32(self, me, r0.window().take(n as int), n as int);
                            step_backward_i32(self, me, r0.window().take(n as int), n as int);
                        }
                        return PollDec::Progress(me, n);
                    } else {
                        assert(forall|s: Seq<u8>, i: i32, k: int|
                            me.produces(s, i, k) <==> self.produces(s, i, k));
                        return PollDec::Pending(me);
                    }
                },
                ByteRead::Eof => {
                    proof {
                        lemma_window_advance(r0, *r, n as int);
                        assert(r.window().len() == 0);
                        assert(r0.window().len() == n);
                        assert(forall|i: i32, k: int| !self.produces(r0.window(), i, k));
                    }
                    return PollDec::Errored(DecodeError::ReaderError(
                        TransportError::UnexpectedEof,
                    ));
                },
            }
        }
        proof {
            assert forall|s: Seq<u8>|
                self.produces(r0.window().take(n as int) + s, acc as i32, n as int) by {
                let c = r0.window().take(n as int);
                assert((c + s).take(n as int) =~= c);
            }
        }
        PollDec::Done(acc as i32, n)
    }
}

/// After consuming the bytes `c`, the decoder `me` stands for the same
/// remaining work as `d` stood for beyond `c`.
proof fn step_forward_i32(d: DecodeI32, me: DecodeI32, c: Seq<u8>, n: int)
    requires
        c.len() == n,
        0 <= n,
        me.got == d.got + n,
        me.got <= 4,
        me.acc == be_accum32(d.acc, c),
    ensures
        forall|s: Seq<u8>, i: i32, k: int| #[trigger]
            me.produces(s, i, k) ==> d.produces(c + s, i, k + n),
{
    assert forall|s: Seq<u8>, i: i32, k: int| #[trigger]
        me.produces(s, i, k) implies d.produces(c + s, i, k + n) by {
        assert((c + s).take(k + n) =~= c + s.take(k));
        lemma_be_accum32_concat(d.acc, c, s.take(k));
    }
}

/// After consuming the bytes `c`, any parse of `d` extending `c` continues
/// exactly as a parse of `me`.
proof fn step_backward_i32(d: DecodeI32, me: DecodeI32, c: Seq<u8>, n: int)
    requires
        c.len() == n,
        0 <= n,
        me.got == d.got + n,
        me.got <= 4,
        me.acc == be_accum32(d.acc, c),
    ensures
        forall|s: Seq<u8>, i: i32, k: int|
            k >= n && #[trigger] d.produces(c + s, i, k) ==> me.produces(s, i, k - n),
{
    assert forall|s: Seq<u8>, i: i32, k: int|
        k >= n && #[trigger] d.produces(c + s, i, k) implies me.produces(s, i, k - n) by {
        assert((c + s).take(k) =~= c + s.take(k - n));
        lemma_be_accum32_concat(d.acc, c, s.take(k - n));
    }
}

/// Encoder for a big-endian `u64`.
pub struct EncodeU64 {
    v: u64,
    sent: usize,
}

impl EncodeU64 {
    /// A fresh encoder that will write the 8 big-endian bytes of `v`.
    pub fn new(v: u64) -> (c: EncodeU64)
        ensures
            c.wf(),
            c.bounded(),
            c.fuel() == 0,
            c.output() == u64_be(v),
    {
        let c = EncodeU64 { v, sent: 0 };
        proof {
            assert(c.output() =~= u64_be(v));
        }
        c
    }
}

impl Encodable for EncodeU64 {
    closed spec fn wf(self) -> bool {
        self.sent <= 8
    }

    closed spec fn output(self) -> Seq<u8> {
        u64_be(self.v).skip(self.sent as int)
    }

    closed spec fn bounded(self) -> bool {
        true
    }

    closed spec fn fuel(self) -> nat {
        0
    }

    #[verifier::loop_isolation(false)]
    fn poll_encode(self, w: &mut Writer) -> (res: PollEnc<Self>) {
        let ghost w0 = *w;
        let mut sent = self.sent;
        let mut n: usize = 0;
        loop
            invariant
                w.wf(),
                sent <= 8,
                n <= 8,
                sent == self.sent + n,
                n <= self.output().len(),
                n <= w0.accept_n(),
                w.written() == w0.written() + self.output().take(n as int),
                w.accept_n() == w0.accept_n() - n,
                w.is_shut() == w0.is_shut(),
            decreases 8 - sent,
        {
            if sent == 8 {
                break;
            }
            let shift: u64 = ((7 - sent) as u64) * 8;
            let b: u8 = ((self.v >> shift) & 0xff) as u8;
            assert(b == u64_be_byte(self.v, sent as int));
            match w.push_byte(b) {
                ByteWrite::Accepted => {
                    proof {
                        assert(self.output()[n as int] == u64_be_byte(self.v, sent as int));
                        assert(self.output().take(n as int + 1) =~= self.output().take(
                            n as int,
                        ).push(b));
                    }
                    sent = sent + 1;
                    n = n + 1;
                },
                ByteWrite::Pending => {
                    let me = EncodeU64 { v: self.v, sent };
                    proof {
                        assert(me.output() =~= self.output().skip(n as int));
                    }
                    if n > 0 {
                        return PollEnc::Progress(me, n);
                    }
                    return PollEnc::Pending(me);
                },
                ByteWrite::Refused => {
                    let me = EncodeU64 { v: self.v, sent };
                    proof {
                        assert(me.output() =~= self.output().skip(n as int));
                    }
                    if n > 0 {
                        return PollEnc::Progress(me, n);
                    }
                    return PollEnc::Errored(TransportError::WriteZero);
                },
            }
        }
        assert(self.output().take(n as int) =~= self.output());
        PollEnc::Done(n)
    }
}

impl EncodableLen for EncodeU64 {
    fn remaining_bytes(&self) -> (n: usize) {
        8 - self.sent
    }
}

/// Encoder for a big-endian `i32`.
pub struct EncodeI32 {
    bits: u32,
    sent: usize,
}

impl EncodeI32 {
    /// A fresh encoder that will write the 4 big-endian bytes of `v`.
    pub fn new(v: i32) -> (c: EncodeI32)
        ensures
            c.wf(),
            c.bounded(),
            c.fuel() == 0,
            c.output() == u32_be(v as u32),
    {
        let c = EncodeI32 { bits: v as u32, sent: 0 };
        proof {
            assert(c.output() =~= u32_be(v as u32));
        }
        c
    }
}

impl Encodable for EncodeI32 {
    closed spec fn wf(self) -> bool {
        self.sent <= 4
    }

    closed spec fn output(self) -> Seq<u8> {
        u32_be(self.bits).skip(self.sent as int)
    }

    closed spec fn bounded(self) -> bool {
        true
    }

    closed spec fn fuel(self) -> nat {
        0
    }

    #[verifier::loop_isolation(false)]
    fn poll_encode(self, w: &mut Writer) -> (res: PollEnc<Self>) {
        let ghost w0 = *w;
        let mut sent = self.sent;
        let mut n: usize = 0;
        loop
            invariant
                w.wf(),
                sent <= 4,
                n <= 4,
                sent == self.sent + n,
                n <= self.output().len(),
                n <= w0.accept_n(),
                w.written() == w0.written() + self.output().take(n as int),
                w.accept_n() == w0.accept_n() - n,
                w.is_shut() == w0.is_shut(),
            decreases 4 - sent,
        {
            if sent == 4 {
                break;
            }
            let shift: u32 = ((3 - sent) as u32) * 8;
            let b: u8 = ((self.bits >> shift) & 0xff) as u8;
            assert(b == u32_be_byte(self.bits, sent as int));
            match w.push_byte(b) {
                ByteWrite::Accepted => {
                    proof {
                        assert(self.output()[n as int] == u32_be_byte(self.bits, sent as int));
                        assert(self.output().take(n as int + 1) =~= self.output().take(
                            n as int,
                        ).push(b));
                    }
                    sent = sent + 1;
                    n = n + 1;
                },
                ByteWrite::Pending => {
                    let me = EncodeI32 { bits: self.bits, sent };
                    proof {
                        assert(me.output() =~= self.output().skip(n as int));
                    }
                    if n > 0 {
                        return PollEnc::Progress(me, n);
                    }
                    return PollEnc::Pending(me);
                },
                ByteWrite::Refused => {
                    let me = EncodeI32 { bits: self.bits, sent };
                    proof {
                        assert(me.output() =~= self.output().skip(n as int));
                    }
                    if n > 0 {
                        return PollEnc::Progress(me, n);
                    }
                    return PollEnc::Errored(TransportError::WriteZero);
                },
            }
        }
        assert(self.output().take(n as int) =~= self.output());
        PollEnc::Done(n)
    }
}

impl EncodableLen for EncodeI32 {
    fn remaining_bytes(&self) -> (n: usize) {
        4 - self.sent
    }
}

} // verus!
