//! Helpers for exercising codecs: run an encoder and a decoder concurrently
//! over an in-memory transport pair, or probe how a codec reacts to an
//! exhausted transport.

use vstd::prelude::*;

use crate::codec::Decodable;
use crate::codec::DecodeError;
use crate::codec::Encodable;
use crate::codec::EncodableLen;
use crate::codec::PollDec;
use crate::codec::PollEnc;
use crate::decoder;
use crate::encoder;
use crate::primitives::lemma_pair_round_trip;
use crate::primitives::u32_be;
use crate::primitives::u64_be;
use crate::primitives::DecodeI32;
use crate::primitives::DecodeU64;
use crate::primitives::EncodeI32;
use crate::primitives::EncodeU64;
use crate::transport::Reader;
use crate::transport::TransportError;
use crate::transport::Writer;

verus! {

/// Returns whether the given decoder fails with `UnexpectedEof` when fully
/// decoding the reader's bytes, treated as the complete stream. `steps` bounds
/// the number of resumption steps; `None`-like exhaustion of the budget
/// returns `false`.
pub fn unexpected_eof_errors<D: Decodable>(reader: Reader, dec: D, steps: usize) -> (res: bool)
    requires
        reader.wf(),
        dec.wf(),
{
    let mut r = reader;
    r.close();
    let mut d = dec;
    let mut left = steps;
    loop
        invariant
            r.wf(),
            d.wf(),
        decreases left,
    {
        if left == 0 {
            return false;
        }
        left = left - 1;
        match d.poll_decode(&mut r) {
            PollDec::Done(_, _) => {
                return false;
            },
            PollDec::Progress(d2, _) => {
                d = d2;
            },
            PollDec::Pending(d2) => {
                d = d2;
            },
            PollDec::Errored(err) => {
                return match err {
                    DecodeError::ReaderError(TransportError::UnexpectedEof) => true,
                    _ => false,
                };
            },
        }
    }
}

/// Returns whether the given encoder fails with `WriteZero` when fully
/// encoding into the given writer. The writer's allowance is topped up each
/// round, so only a closed writer makes the encoder fail: a `true` result
/// proves the writer was closed. `steps` bounds the number of resumption
/// steps; an exhausted budget returns `false`.
pub fn write_zero_errors<C: Encodable>(writer: Writer, co: C, steps: usize) -> (res: bool)
    requires
        writer.wf(),
        co.wf(),
    ensures
        res ==> writer.is_shut(),
{
    let mut w = writer;
    let mut c = co;
    let mut left = steps;
    loop
        invariant
            w.wf(),
            c.wf(),
            w.is_shut() == writer.is_shut(),
        decreases left,
    {
        if left == 0 {
            return false;
        }
        left = left - 1;
        if w.allowance() == 0 {
            w.allow(1);
        }
        match c.poll_encode(&mut w) {
            PollEnc::Done(_) => {
                return false;
            },
            PollEnc::Progress(c2, _) => {
                c = c2;
            },
            PollEnc::Pending(c2) => {
                c = c2;
            },
            PollEnc::Errored(err) => {
                return match err {
                    TransportError::WriteZero => true,
                    _ => false,
                };
            },
        }
    }
}

/// The decoder finishes with `item` after consuming exactly the first `m`
/// bytes of the encoder's output, on every stream extending them.
pub open spec fn finishes_at<D: Decodable, C: Encodable>(
    dec: D,
    co: C,
    item: D::Item,
    m: int,
) -> bool {
    forall|s: Seq<u8>| dec.produces(#[trigger] (co.output().take(m) + s), item, m)
}

/// The decoder finished with `item` at `m`, strictly inside the encoder's
/// output.
pub open spec fn finishes_early<D: Decodable, C: Encodable>(
    dec: D,
    co: C,
    item: D::Item,
    m: int,
) -> bool {
    0 <= m < co.output().len() && finishes_at(dec, co, item, m)
}

/// What a finished harness run means: an agreeing flag carries a decode of
/// the encoder's complete output; a disagreeing flag carries an item the
/// decoder finished with strictly before the output's end.
pub open spec fn codec_run_summary<D: Decodable, C: Encodable>(
    dec: D,
    co: C,
    res: Option<(D::Item, bool)>,
) -> bool {
    match res {
        Some(p) => {
            &&& p.1 ==> dec.produces(co.output(), p.0, co.output().len() as int)
            &&& !p.1 ==> exists|m: int| #[trigger] finishes_early(dec, co, p.0, m)
        },
        None => true,
    }
}

/// Run an encoder and a decoder concurrently: each round grants the writer a
/// one-byte allowance, resumes the encoder, hands every newly written byte to
/// the reader, and resumes the decoder; the reader is closed once the encoder
/// has finished and everything is forwarded. Returns the decoded item together
/// with the bytes written and the bytes read, or `None` if a codec failed or
/// the `steps` budget ran out.
///
/// On success the bytes written are exactly the encoder's declared output, and
/// the decoded item is one the decoder produces from that output after
/// consuming the reported number of bytes.
#[verifier::loop_isolation(false)]
#[verifier::rlimit(80)]
fn test_codec_intern<D: Decodable, C: Encodable>(
    reader: Reader,
    writer: Writer,
    dec: D,
    co: C,
    steps: usize,
) -> (res: Option<(D::Item, usize, usize)>)
    requires
        dec.wf(),
        co.wf(),
        reader.wf(),
        reader.stream().len() == 0,
        reader.pos() == 0,
        reader.is_open(),
        reader.cap() == None::<int>,
        writer.wf(),
        writer.written().len() == 0,
        !writer.is_shut(),
        writer.accept_n() == 0,
    ensures
        match res {
            Some(p) => {
                &&& p.1 == co.output().len()
                &&& 0 <= p.2 <= p.1
                &&& forall|s: Seq<u8>|
                    dec.produces(#[trigger] (co.output().take(p.2 as int) + s), p.0, p.2 as int)
            },
            None => true,
        },
{
    let mut r = reader;
    let mut w = writer;
    let mut enc: Option<C> = Some(co);
    let mut d: Option<D> = Some(dec);
    let mut written: usize = 0;
    let mut read: usize = 0;
    let mut fwd: usize = 0;
    let mut item: Option<D::Item> = None;
    let mut closed = false;
    let mut left = steps;
    loop
        invariant
            r.wf(),
            w.wf(),
            !w.is_shut(),
            w.accept_n() <= 1,
            enc matches Some(c) ==> c.wf() && c.output() == co.output().skip(written as int),
            enc is None ==> written == co.output().len(),
            written <= co.output().len(),
            w.written() == co.output().take(written as int),
            fwd <= w.written().len(),
            r.stream() == w.written().take(fwd as int),
            r.cap() == None::<int>,
            r.pos() == read,
            read <= r.stream().len(),
            r.is_open() == !closed,
            closed ==> enc is None && fwd == w.written().len(),
            d matches Some(dd) ==> dd.wf(),
            d matches Some(dd) ==> forall|s: Seq<u8>, i: D::Item, k: int| #[trigger]
                dd.produces(s, i, k) ==> dec.produces(
                    co.output().take(read as int) + s,
                    i,
                    k + read,
                ),
            d is None ==> match item {
                Some(it) => forall|s: Seq<u8>|
                    dec.produces(#[trigger] (co.output().take(read as int) + s), it, read as int),
                None => false,
            },
            d is None ==> read <= written,
        decreases left,
    {
        if left == 0 {
            return None;
        }
        left = left - 1;

        // Encoder round.
        match enc.take() {
            Some(c) => {
                if w.allowance() == 0 {
                    w.allow(1);
                }
                match c.poll_encode(&mut w) {
                    PollEnc::Done(n) => {
                        proof {
                            assert(co.output().take(written as int) + c.output() =~= co.output());
                            assert(co.output().take(written + n) =~= co.output());
                        }
                        written = written + n;
                    },
                    PollEnc::Progress(c2, n) => {
                        proof {
                            assert(c2.output() =~= co.output().skip(written + n));
                            assert(co.output().take(written as int) + c.output().take(n as int)
                                =~= co.output().take(written + n));
                        }
                        written = written + n;
                        enc = Some(c2);
                    },
                    PollEnc::Pending(c2) => {
                        enc = Some(c2);
                    },
                    PollEnc::Errored(_) => {
                        return None;
                    },
                }
            },
            None => {},
        }

        // Forward newly written bytes to the reader.
        if !closed {
            while fwd < w.len()
                invariant
                    r.wf(),
                    fwd <= w.written().len(),
                    r.stream() == w.written().take(fwd as int),
                    r.pos() == read,
                    r.cap() == None::<int>,
                    r.is_open(),
                    read <= r.stream().len(),
                decreases w.written().len() - fwd,
            {
                let b = w.byte_at(fwd);
                r.feed_byte(b);
                fwd = fwd + 1;
                proof {
                    assert(r.stream() =~= w.written().take(fwd as int));
                }
            }
        }

        // Close the reader once the whole output has arrived.
        if !closed {
            match enc {
                Some(_) => {},
                None => {
                    r.close();
                    closed = true;
                },
            }
        }

        // Decoder round.
        match d.take() {
            Some(dd) => {
                let ghost r_pre = r;
                let ghost d_pre = dd;
                match dd.poll_decode(&mut r) {
                    PollDec::Done(i, n) => {
                        proof {
                            assert forall|s: Seq<u8>|
                                dec.produces(
                                    #[trigger] (co.output().take(read + n) + s),
                                    i,
                                    read + n,
                                ) by {
                                let c2 = r_pre.window().take(n as int);
                                assert(d_pre.produces(c2 + s, i, n as int));
                                assert(co.output().take(read as int) + (c2 + s) =~= co.output().take(
                                    read + n,
                                ) + s);
                            }
                        }
                        read = read + n;
                        item = Some(i);
                    },
                    PollDec::Progress(d2, n) => {
                        proof {
                            assert forall|s: Seq<u8>, i: D::Item, k: int| #[trigger]
                                d2.produces(s, i, k) implies dec.produces(
                                co.output().take(read + n) + s,
                                i,
                                k + (read + n),
                            ) by {
                                let c2 = r_pre.window().take(n as int);
                                assert(d_pre.produces(c2 + s, i, k + n));
                                assert(co.output().take(read as int) + (c2 + s) =~= co.output().take(
                                    read + n,
                                ) + s);
                            }
                        }
                        read = read + n;
                        d = Some(d2);
                    },
                    PollDec::Pending(d2) => {
                        d = Some(d2);
                    },
                    PollDec::Errored(_) => {
                        return None;
                    },
                }
            },
            None => {},
        }

        // Both finished: report.
        let enc_done = match enc {
            Some(_) => false,
            None => true,
        };
        let dec_done = match d {
            Some(_) => false,
            None => true,
        };
        if enc_done && dec_done {
            match item.take() {
                Some(it) => {
                    return Some((it, written, read));
                },
                None => {
                    return None;
                },
            }
        }
    }
}

/// Run an encoder and a decoder concurrently over a fresh transport pair,
/// returning the decoded item and whether the encoder wrote exactly as many
/// bytes as the decoder consumed. Returns `None` if a codec failed or the
/// `steps` budget ran out.
pub fn test_codec<D: Decodable, C: Encodable>(
    reader: Reader,
    writer: Writer,
    dec: D,
    co: C,
    steps: usize,
) -> (res: Option<(D::Item, bool)>)
    requires
        dec.wf(),
        co.wf(),
        reader.wf(),
        reader.stream().len() == 0,
        reader.pos() == 0,
        reader.is_open(),
        reader.cap() == None::<int>,
        writer.wf(),
        writer.written().len() == 0,
        !writer.is_shut(),
        writer.accept_n() == 0,
    ensures
        codec_run_summary(dec, co, res),
{
    match test_codec_intern(reader, writer, dec, co, steps) {
        Some((it, written, read)) => {
            let agree = written == read;
            proof {
                if agree {
                    assert(co.output().take(read as int) + Seq::<u8>::empty() =~= co.output());
                } else {
                    assert((read as int) < co.output().len());
                    assert(finishes_at(dec, co, it, read as int));
                    assert(finishes_early(dec, co, it, read as int));
                }
                assert(agree ==> dec.produces(co.output(), it, co.output().len() as int));
                assert(!agree ==> exists|m: int| #[trigger] finishes_early(dec, co, it, m));
                let ghost pair = (it, agree);
                assert(pair.0 == it && pair.1 == agree);
                assert(codec_run_summary(dec, co, Some(pair)));
            }
            Some((it, agree))
        },
        None => None,
    }
}

/// Like `test_codec`, but additionally checks that the encoder wrote exactly
/// the number of bytes it declared up front via `remaining_bytes`.
pub fn test_codec_len<D: Decodable, C: EncodableLen>(
    reader: Reader,
    writer: Writer,
    dec: D,
    co: C,
    steps: usize,
) -> (res: Option<(D::Item, bool)>)
    requires
        dec.wf(),
        co.wf(),
        reader.wf(),
        reader.stream().len() == 0,
        reader.pos() == 0,
        reader.is_open(),
        reader.cap() == None::<int>,
        writer.wf(),
        writer.written().len() == 0,
        !writer.is_shut(),
        writer.accept_n() == 0,
    ensures
        codec_run_summary(dec, co, res),
{
    let expected = co.remaining_bytes();
    match test_codec_intern(reader, writer, dec, co, steps) {
        Some((it, written, read)) => {
            let agree = written == read && written == expected;
            proof {
                if agree {
                    assert(co.output().take(read as int) + Seq::<u8>::empty() =~= co.output());
                } else {
                    assert((read as int) < co.output().len());
                    assert(finishes_at(dec, co, it, read as int));
                    assert(finishes_early(dec, co, it, read as int));
                }
                assert(agree ==> dec.produces(co.output(), it, co.output().len() as int));
                assert(!agree ==> exists|m: int| #[trigger] finishes_early(dec, co, it, m));
                let ghost pair = (it, agree);
                assert(pair.0 == it && pair.1 == agree);
                assert(codec_run_summary(dec, co, Some(pair)));
            }
            Some((it, agree))
        },
        None => None,
    }
}

/// The concrete pair scenario, proved outright. Encoding the pair `(a, b)`
/// through chained encoders into a fresh transport under one-byte write
/// grants (maximal partial-write interruption), then decoding the stream
/// through chained decoders, always finishes: the decoded item is exactly
/// `(a, b)`, and the bytes written and the bytes read both equal 12 (4 + 8).
/// A body that fails, stalls, or returns anything else cannot meet this
/// contract.
#[verifier::loop_isolation(false)]
#[verifier::rlimit(100)]
pub fn round_trip_pair(a: i32, b: u64) -> (res: ((i32, u64), usize, usize))
    ensures
        res.0 == (a, b),
        res.1 == 12,
        res.2 == 12,
{
    let first = DecodeI32::new();
    let second = DecodeU64::new();
    let dec = decoder::chain(first, second);
    let e1 = EncodeI32::new(a);
    let e2 = EncodeU64::new(b);
    let co = encoder::chain(e1, e2);
    let ghost out = co.output();
    let ghost ab = ((a, b));
    proof {
        assert(out.len() == 12);
        lemma_pair_round_trip(a, b, Seq::<u8>::empty());
        assert(out =~= u32_be(a as u32) + (u64_be(b) + Seq::<u8>::empty()));
        assert(ab.0 == a && ab.1 == b);
        assert(out.take(4) == u32_be(a as u32));
        assert(first.produces(out, ab.0, 4));
        assert(out.skip(4) == u64_be(b) + Seq::<u8>::empty());
        assert(out.skip(4).take(8) =~= (u64_be(b) + Seq::<u8>::empty()).take(8));
        assert(second.produces(out.skip(4), ab.1, 8));
        assert(dec.produces(out, ab, 12));
        assert forall|s: Seq<u8>, e: ()| !dec.fails_with(s, e) by {
            if dec.fails_with(s, e) {
                if !first.fails_with(s, e) {
                    let (aw, naw) = choose|aw: i32, naw: int|
                        0 <= naw <= s.len() && #[trigger] first.produces(s, aw, naw)
                            && second.fails_with(s.skip(naw), e);
                    assert(!second.fails_with(s.skip(naw), e));
                }
            }
        }
    }
    let mut r = Reader::new();
    let mut w = Writer::new();

    // Encode everything, granting the writer one byte at a time.
    let mut enc = co;
    let mut written: usize = 0;
    loop
        invariant
            w.wf(),
            !w.is_shut(),
            w.accept_n() <= 1,
            enc.wf(),
            enc.bounded(),
            enc.output() == out.skip(written as int),
            written <= 12,
            w.written() == out.take(written as int),
        decreases enc.output().len(), enc.fuel(),
    {
        if w.allowance() == 0 {
            w.allow(1);
        }
        let ghost pre = enc;
        match enc.poll_encode(&mut w) {
            PollEnc::Done(n) => {
                proof {
                    assert(out.take(written as int) + pre.output() =~= out);
                    assert(out.take(written + n) =~= out);
                }
                written = written + n;
                break;
            },
            PollEnc::Progress(e2, n) => {
                proof {
                    assert(e2.output() =~= out.skip(written + n));
                    assert(out.take(written as int) + pre.output().take(n as int) =~= out.take(
                        written + n,
                    ));
                }
                written = written + n;
                enc = e2;
            },
            PollEnc::Pending(e2) => {
                proof {
                    assert(false);
                }
                enc = e2;
            },
            PollEnc::Errored(_) => {
                proof {
                    assert(false);
                }
                return vstd::pervasive::unreached();
            },
        }
    }
    proof {
        assert(written == 12);
        assert(w.written() =~= out);
    }

    // Hand the whole stream to the reader and declare it complete.
    let mut fwd: usize = 0;
    while fwd < w.len()
        invariant
            r.wf(),
            fwd <= w.written().len(),
            r.stream() == w.written().take(fwd as int),
            r.pos() == 0,
            r.is_open(),
            r.cap() == None::<int>,
        decreases w.written().len() - fwd,
    {
        let byte = w.byte_at(fwd);
        r.feed_byte(byte);
        fwd = fwd + 1;
        proof {
            assert(r.stream() =~= w.written().take(fwd as int));
        }
    }
    r.close();
    proof {
        assert(r.stream() =~= out);
    }

    // Decode; every outcome but completion or byte progress is impossible.
    let mut d = dec;
    let mut read: usize = 0;
    loop
        invariant
            r.wf(),
            r.stream() == out,
            !r.is_open(),
            r.cap() == None::<int>,
            r.pos() == read,
            read <= 12,
            d.wf(),
            d.bounded(),
            d.eof_only(),
            d.det(),
            d.produces(out.skip(read as int), ab, 12 - read),
            forall|s: Seq<u8>, e: ()| !(#[trigger] d.fails_with(s, e)),
        decreases 12 - read, d.fuel(),
    {
        let ghost r_pre = r;
        let ghost d_pre = d;
        proof {
            assert(r_pre.window() =~= out.skip(read as int));
        }
        match d.poll_decode(&mut r) {
            PollDec::Done(item, n) => {
                proof {
                    assert(d_pre.produces(
                        r_pre.window().take(n as int) + out.skip(read + n),
                        item,
                        n as int,
                    ));
                    assert(r_pre.window().take(n as int) + out.skip(read + n) =~= out.skip(
                        read as int,
                    ));
                    d_pre.lemma_det_unique(out.skip(read as int), item, n as int, ab, 12 - read);
                }
                let total = read + n;
                return (item, written, total);
            },
            PollDec::Progress(d2, n) => {
                proof {
                    assert(out.skip(read as int) =~= r_pre.window().take(n as int) + out.skip(
                        read + n,
                    ));
                    assert(d_pre.produces(
                        r_pre.window().take(n as int) + out.skip(read + n),
                        ab,
                        12 - read,
                    ));
                    assert(12 - read >= n);
                    assert(d2.produces(out.skip(read + n), ab, 12 - read - n));
                    assert forall|s: Seq<u8>, e: ()| !(#[trigger] d2.fails_with(s, e)) by {
                        if d2.fails_with(s, e) {
                            assert(d_pre.fails_with(r_pre.window().take(n as int) + s, e));
                        }
                    }
                }
                read = read + n;
                d = d2;
            },
            PollDec::Pending(d2) => {
                proof {
                    assert(false);
                }
                d = d2;
            },
            PollDec::Errored(err) => {
                proof {
                    match err {
                        DecodeError::DataError(e) => {
                            assert(d_pre.fails_with(
                                r_pre.window().take(r.pos() - r_pre.pos()) + Seq::<u8>::empty(),
                                e,
                            ));
                        },
                        DecodeError::ReaderError(_) => {
                            assert(!d_pre.produces(r_pre.window(), ab, 12 - read));
                        },
                    }
                    assert(false);
                }
                return vstd::pervasive::unreached();
            },
        }
    }
}

} // verus!
