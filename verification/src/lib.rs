//! Incremental, suspend/resume-capable codec combinators.
//!
//! A codec value represents the remaining work of decoding an item from, or
//! encoding a value into, a byte transport. Every resumption step consumes the
//! current codec value and returns either a final result, a new value holding
//! the remaining work, a suspension (the transport was not ready), or a
//! failure. The drivers in this crate own the transport and the codec value
//! for the duration of a run, resume the codec value as long as each step
//! moves bytes, and hand the transport back together with the result.

pub mod codec;
pub mod decoder;
pub mod encoder;
pub mod primitives;
pub mod testing;
pub mod transport;

use vstd::prelude::*;

use crate::codec::Decodable;
use crate::codec::DecodeError;
use crate::codec::Encodable;
use crate::codec::EncodableLen;
use crate::codec::PollDec;
use crate::codec::PollEnc;
use crate::transport::cap_shrunk;
use crate::transport::lemma_window_advance;
use crate::transport::Reader;
use crate::transport::TransportError;
use crate::transport::Writer;

verus! {

/// Outcome of one driver resumption.
pub enum DrivePoll<T, E> {
    /// The run finished; the transport is handed back with the result.
    Ready(T),
    /// The run is not finished; poll again, once the transport is ready if the
    /// last codec step was suspended.
    Pending,
    /// The run failed; the transport is handed back with the error.
    Errored(E),
}

/// Encode a value into a `Writer`, using an `Encodable`.
pub fn encode<C: Encodable>(writer: Writer, co: C) -> (c: Encoder<C>)
    ensures
        c.is_running(),
        c.run_writer() == writer,
        c.run_enc() == co,
        c.written_total() == 0,
{
    Encoder::new(writer, co)
}

/// Driver that fully encodes an `Encodable` into a `Writer`.
pub struct Encoder<C> {
    writer: Option<Writer>,
    enc: Option<C>,
    written: usize,
    stalled: bool,
}

impl<C: Encodable> Encoder<C> {
    /// The writer, while the run is live.
    pub closed spec fn run_writer(self) -> Writer {
        match self.writer {
            Some(w) => w,
            None => vstd::pervasive::arbitrary(),
        }
    }

    /// The encoder state, while the run is live.
    pub closed spec fn run_enc(self) -> C {
        match self.enc {
            Some(c) => c,
            None => vstd::pervasive::arbitrary(),
        }
    }

    /// Bytes written in the steps driven so far.
    pub closed spec fn written_total(self) -> int {
        self.written as int
    }

    /// Whether the run is still live: neither completed nor failed.
    pub closed spec fn is_running(self) -> bool {
        self.writer is Some && self.enc is Some
    }

    /// Whether the last poll yielded after a zero-byte progress step rather
    /// than because the writer was not ready; polling again continues at once.
    pub closed spec fn stalled(self) -> bool {
        self.stalled
    }

    /// Well-formedness of a live run.
    pub open spec fn wf_run(self) -> bool {
        &&& self.is_running()
        &&& self.run_writer().wf()
        &&& self.run_enc().wf()
        &&& 0 <= self.written_total() <= self.run_writer().written().len()
    }

    /// Create a new `Encoder` wrapping a `Writer` and consuming an `Encodable`.
    pub fn new(writer: Writer, enc: C) -> (c: Encoder<C>)
        ensures
            c.is_running(),
            c.run_writer() == writer,
            c.run_enc() == enc,
            c.written_total() == 0,
            !c.stalled(),
    {
        Encoder { writer: Some(writer), enc: Some(enc), written: 0, stalled: false }
    }

    /// The exact number of bytes this run will still write.
    pub fn remaining_bytes(&mut self) -> (n: usize)
        where C: EncodableLen
        requires
            old(self).wf_run(),
        ensures
            *final(self) == *old(self),
            n == old(self).run_enc().output().len(),
    {
        let enc = self.enc.take().unwrap();
        let remaining = enc.remaining_bytes();
        self.enc = Some(enc);
        remaining
    }

    /// Drive the encoder: after every step that writes bytes it resumes the
    /// encoder immediately, with no suspension in between. It stops at
    /// completion, on failure, or on `Pending` in exactly two cases, told
    /// apart by `stalled`: the writer had no allowance left (`!stalled`), or a
    /// step wrote nothing (`stalled`; a stage switch inside a combinator) —
    /// in the latter case polling again continues at once. Such yields keep
    /// each call bounded where an arbitrary `Encodable`'s zero-byte steps are
    /// not.
    #[verifier::loop_isolation(false)]
    pub fn poll(&mut self) -> (res: DrivePoll<(Writer, usize), (Writer, TransportError)>)
        requires
            old(self).wf_run(),
        ensures
            match res {
                DrivePoll::Ready((w2, total)) => {
                    &&& !final(self).is_running()
                    &&& w2.wf()
                    &&& w2.is_shut() == old(self).run_writer().is_shut()
                    &&& w2.written() == old(self).run_writer().written()
                        + old(self).run_enc().output()
                    &&& total - old(self).written_total() == old(self).run_enc().output().len()
                },
                DrivePoll::Pending => {
                    &&& final(self).wf_run()
                    &&& final(self).stalled() || final(self).run_writer().accept_n() == 0
                    &&& final(self).run_writer().is_shut() == old(self).run_writer().is_shut()
                    &&& final(self).run_enc().output() == old(self).run_enc().output().skip(
                        final(self).written_total() - old(self).written_total(),
                    )
                    &&& 0 <= final(self).written_total() - old(self).written_total()
                        <= old(self).run_enc().output().len()
                    &&& final(self).run_writer().written() == old(self).run_writer().written()
                        + old(self).run_enc().output().take(
                        final(self).written_total() - old(self).written_total(),
                    )
                },
                DrivePoll::Errored((w2, _)) => {
                    &&& !final(self).is_running()
                    &&& w2.wf()
                    &&& w2.is_shut() == old(self).run_writer().is_shut()
                    &&& exists|m: int|
                        0 <= m <= old(self).run_enc().output().len() && w2.written()
                            == old(self).run_writer().written() + #[trigger] old(self).run_enc().output().take(m)
                },
            },
    {
        let mut writer = self.writer.take().unwrap();
        let mut enc = self.enc.take().unwrap();
        let ghost w0 = writer;
        let ghost e0 = enc;
        let ghost written0 = self.written as int;
        loop
            invariant
                writer.wf(),
                enc.wf(),
                writer.is_shut() == w0.is_shut(),
                self.writer is None,
                self.enc is None,
                written0 <= self.written,
                self.written - written0 <= e0.output().len(),
                enc.output() == e0.output().skip(self.written - written0),
                writer.written() == w0.written() + e0.output().take(self.written - written0),
                self.written <= writer.written().len(),
            decreases enc.output().len(),
        {
            let ghost consumed = self.written - written0;
            match enc.poll_encode(&mut writer) {
                PollEnc::Done(n) => {
                    proof {
                        assert(e0.output().take(consumed) + enc.output() =~= e0.output());
                    }
                    let total = self.written + n;
                    return DrivePoll::Ready((writer, total));
                },
                PollEnc::Progress(e2, n) => {
                    proof {
                        assert(e2.output() =~= e0.output().skip(consumed + n));
                        assert(w0.written() + e0.output().take(consumed) + enc.output().take(
                            n as int,
                        ) =~= w0.written() + e0.output().take(consumed + n));
                    }
                    self.written = self.written + n;
                    enc = e2;
                    if n == 0 {
                        self.writer = Some(writer);
                        self.enc = Some(enc);
                        self.stalled = true;
                        return DrivePoll::Pending;
                    }
                },
                PollEnc::Pending(e2) => {
                    self.writer = Some(writer);
                    self.enc = Some(e2);
                    self.stalled = false;
                    return DrivePoll::Pending;
                },
                PollEnc::Errored(err) => {
                    return DrivePoll::Errored((writer, err));
                },
            }
        }
    }
}

/// Decode a value from a `Reader`, using a `Decodable`.
pub fn decode<D: Decodable>(reader: Reader, dec: D) -> (c: Decoder<D>)
    ensures
        c.is_running(),
        c.run_reader() == reader,
        c.run_dec() == dec,
        c.read_total() == 0,
{
    Decoder::new(reader, dec)
}

/// Driver that fully decodes a `Decodable` from a `Reader`.
pub struct Decoder<D> {
    reader: Option<Reader>,
    dec: Option<D>,
    read: usize,
    stalled: bool,
}

impl<D: Decodable> Decoder<D> {
    /// The reader, while the run is live.
    pub closed spec fn run_reader(self) -> Reader {
        match self.reader {
            Some(r) => r,
            None => vstd::pervasive::arbitrary(),
        }
    }

    /// The decoder state, while the run is live.
    pub closed spec fn run_dec(self) -> D {
        match self.dec {
            Some(d) => d,
            None => vstd::pervasive::arbitrary(),
        }
    }

    /// Bytes consumed in the steps driven so far.
    pub closed spec fn read_total(self) -> int {
        self.read as int
    }

    /// Whether the run is still live: neither completed nor failed.
    pub closed spec fn is_running(self) -> bool {
        self.reader is Some && self.dec is Some
    }

    /// Whether the last poll yielded after a zero-byte progress step rather
    /// than because the reader was not ready; polling again continues at once.
    pub closed spec fn stalled(self) -> bool {
        self.stalled
    }

    /// Well-formedness of a live run.
    pub open spec fn wf_run(self) -> bool {
        &&& self.is_running()
        &&& self.run_reader().wf()
        &&& self.run_dec().wf()
        &&& 0 <= self.read_total() <= self.run_reader().pos()
    }

    /// Create a new `Decoder` wrapping a `Reader` and consuming a `Decodable`.
    pub fn new(reader: Reader, dec: D) -> (c: Decoder<D>)
        ensures
            c.is_running(),
            c.run_reader() == reader,
            c.run_dec() == dec,
            c.read_total() == 0,
            !c.stalled(),
    {
        Decoder { reader: Some(reader), dec: Some(dec), read: 0, stalled: false }
    }

    /// Drive the decoder: after every step that consumes bytes it resumes the
    /// decoder immediately, with no suspension in between. It stops at
    /// completion, on failure, or on `Pending` in exactly two cases, told
    /// apart by `stalled`: the reader's window was empty (`!stalled`), or a
    /// step consumed nothing (`stalled`; a stage switch inside a combinator)
    /// — in the latter case polling again continues at once. Such yields keep
    /// each call bounded where an arbitrary `Decodable`'s zero-byte steps are
    /// not.
    #[verifier::loop_isolation(false)]
    pub fn poll(&mut self) -> (res: DrivePoll<
        (Reader, D::Item, usize),
        (Reader, DecodeError<D::Error>),
    >)
        requires
            old(self).wf_run(),
        ensures
            match res {
                DrivePoll::Ready((r2, item, total)) => {
                    &&& !final(self).is_running()
                    &&& r2.wf()
                    &&& r2.stream() == old(self).run_reader().stream()
                    &&& r2.is_open() == old(self).run_reader().is_open()
                    &&& total - old(self).read_total() == r2.pos() - old(self).run_reader().pos()
                    &&& 0 <= total - old(self).read_total() <= old(self).run_reader().window().len()
                    &&& cap_shrunk(old(self).run_reader(), r2, r2.pos() - old(self).run_reader().pos())
                    &&& forall|s: Seq<u8>, mm: int|
                        mm == r2.pos() - old(self).run_reader().pos() ==> #[trigger] old(self).run_dec().produces(old(self).run_reader().window().take(mm) + s, item, mm)
                },
                DrivePoll::Pending => {
                    &&& final(self).wf_run()
                    &&& final(self).stalled() || final(self).run_reader().window().len() == 0
                    &&& final(self).run_reader().stream() == old(self).run_reader().stream()
                    &&& final(self).run_reader().is_open() == old(self).run_reader().is_open()
                    &&& final(self).read_total() - old(self).read_total() == final(self).run_reader().pos() - old(self).run_reader().pos()
                    &&& 0 <= final(self).read_total() - old(self).read_total() <= old(self).run_reader().window().len()
                    &&& cap_shrunk(old(self).run_reader(), final(self).run_reader(), final(self).run_reader().pos() - old(self).run_reader().pos())
                    &&& forall|s: Seq<u8>, i: D::Item, k: int, mm: int|
                        #![trigger final(self).run_dec().produces(s, i, k), old(self).run_reader().window().take(mm)]
                        mm == final(self).run_reader().pos() - old(self).run_reader().pos()
                            && final(self).run_dec().produces(s, i, k) ==> old(self).run_dec().produces(
                            old(self).run_reader().window().take(mm) + s,
                            i,
                            k + mm,
                        )
                    &&& forall|s: Seq<u8>, e: D::Error, mm: int|
                        #![trigger final(self).run_dec().fails_with(s, e), old(self).run_reader().window().take(mm)]
                        mm == final(self).run_reader().pos() - old(self).run_reader().pos()
                            && final(self).run_dec().fails_with(s, e) ==> old(self).run_dec().fails_with(old(self).run_reader().window().take(mm) + s, e)
                },
                DrivePoll::Errored((r2, err)) => {
                    &&& !final(self).is_running()
                    &&& r2.wf()
                    &&& r2.stream() == old(self).run_reader().stream()
                    &&& r2.is_open() == old(self).run_reader().is_open()
                    &&& 0 <= r2.pos() - old(self).run_reader().pos() <= old(self).run_reader().window().len()
                    &&& match err {
                        DecodeError::DataError(e) => forall|s: Seq<u8>, mm: int|
                            mm == r2.pos() - old(self).run_reader().pos() ==> #[trigger] old(self).run_dec().fails_with(old(self).run_reader().window().take(mm) + s, e),
                        DecodeError::ReaderError(_) => true,
                    }
                },
            },
    {
        let mut reader = self.reader.take().unwrap();
        let mut dec = self.dec.take().unwrap();
        let ghost r0 = reader;
        let ghost d0 = dec;
        let ghost read0 = self.read as int;
        loop
            invariant
                reader.wf(),
                dec.wf(),
                reader.stream() == r0.stream(),
                reader.is_open() == r0.is_open(),
                self.reader is None,
                self.dec is None,
                read0 <= self.read,
                self.read - read0 == reader.pos() - r0.pos(),
                self.read - read0 <= r0.window().len(),
                cap_shrunk(r0, reader, self.read - read0),
                self.read <= reader.pos(),
                forall|s: Seq<u8>, i: D::Item, k: int| #[trigger]
                    dec.produces(s, i, k) ==> d0.produces(
                        r0.window().take(self.read - read0) + s,
                        i,
                        k + (self.read - read0),
                    ),
                forall|s: Seq<u8>, e: D::Error| #[trigger]
                    dec.fails_with(s, e) ==> d0.fails_with(
                        r0.window().take(self.read - read0) + s,
                        e,
                    ),
            decreases reader.window().len(),
        {
            let ghost consumed = self.read - read0;
            let ghost r_pre = reader;
            let ghost d_pre = dec;
            match dec.poll_decode(&mut reader) {
                PollDec::Done(item, n) => {
                    proof {
                        lemma_window_advance(r0, r_pre, consumed);
                        assert forall|s: Seq<u8>, mm: int|
                            mm == reader.pos() - r0.pos() implies #[trigger] d0.produces(
                            r0.window().take(mm) + s,
                            item,
                            mm,
                        ) by {
                            let c2 = r_pre.window().take(n as int);
                            assert(d_pre.produces(c2 + s, item, n as int));
                            assert(r0.window().take(consumed) + (c2 + s) =~= r0.window().take(mm)
                                + s);
                        }
                    }
                    let total = self.read + n;
                    return DrivePoll::Ready((reader, item, total));
                },
                PollDec::Progress(d2, n) => {
                    proof {
                        lemma_window_advance(r0, r_pre, consumed);
                        assert forall|s: Seq<u8>, i: D::Item, k: int| #[trigger]
                            d2.produces(s, i, k) implies d0.produces(
                            r0.window().take(consumed + n) + s,
                            i,
                            k + (consumed + n),
                        ) by {
                            let c2 = r_pre.window().take(n as int);
                            assert(d_pre.produces(c2 + s, i, k + n));
                            assert(r0.window().take(consumed) + (c2 + s) =~= r0.window().take(
                                consumed + n,
                            ) + s);
                        }
                        assert forall|s: Seq<u8>, e: D::Error| #[trigger]
                            d2.fails_with(s, e) implies d0.fails_with(
                            r0.window().take(consumed + n) + s,
                            e,
                        ) by {
                            let c2 = r_pre.window().take(n as int);
                            assert(d_pre.fails_with(c2 + s, e));
                            assert(r0.window().take(consumed) + (c2 + s) =~= r0.window().take(
                                consumed + n,
                            ) + s);
                        }
                        lemma_window_advance(r0, reader, consumed + n);
                    }
                    self.read = self.read + n;
                    dec = d2;
                    if n == 0 {
                        self.reader = Some(reader);
                        self.dec = Some(dec);
                        self.stalled = true;
                        return DrivePoll::Pending;
                    }
                },
                PollDec::Pending(d2) => {
                    self.reader = Some(reader);
                    self.dec = Some(d2);
                    self.stalled = false;
                    return DrivePoll::Pending;
                },
                PollDec::Errored(err) => {
                    proof {
                        if let DecodeError::DataError(e) = &err {
                            lemma_window_advance(r0, r_pre, consumed);
                            let step = reader.pos() - r_pre.pos();
                            assert forall|s: Seq<u8>, mm: int|
                                mm == reader.pos() - r0.pos() implies #[trigger] d0.fails_with(
                                r0.window().take(mm) + s,
                                *e,
                            ) by {
                                let c2 = r_pre.window().take(step);
                                assert(d_pre.fails_with(c2 + s, *e));
                                assert(r0.window().take(consumed) + (c2 + s) =~= r0.window().take(
                                    mm,
                                ) + s);
                            }
                        }
                    }
                    return DrivePoll::Errored((reader, err));
                },
            }
        }
    }
}

} // verus!
