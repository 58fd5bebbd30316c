use codec_util::codec::{Decodable, DecodeError, Encodable, EncodableLen, PollDec, PollEnc};
use codec_util::primitives::{DecodeI32, DecodeU64, EncodeI32, EncodeU64};
use codec_util::testing::{unexpected_eof_errors, write_zero_errors};
use codec_util::transport::{Reader, TransportError, Writer};

fn drain_encoder<C: Encodable>(mut c: C, w: &mut Writer) -> usize {
    let mut total = 0;
    loop {
        match c.poll_encode(w) {
            PollEnc::Done(n) => return total + n,
            PollEnc::Progress(c2, n) => {
                total += n;
                c = c2;
            }
            PollEnc::Pending(_) => panic!("writer ran out of allowance"),
            PollEnc::Errored(e) => panic!("encode failed: {:?}", e),
        }
    }
}

fn drain_decoder<D: Decodable>(mut d: D, r: &mut Reader) -> (D::Item, usize) {
    let mut total = 0;
    loop {
        match d.poll_decode(r) {
            PollDec::Done(item, n) => return (item, total + n),
            PollDec::Progress(d2, n) => {
                total += n;
                d = d2;
            }
            PollDec::Pending(_) => panic!("reader starved"),
            PollDec::Errored(_) => panic!("decode failed"),
        }
    }
}

#[test]
fn u64_encode_big_endian_bytes() {
    let mut w = Writer::new();
    w.allow(8);
    let n = drain_encoder(EncodeU64::new(0x0102030405060708), &mut w);
    assert_eq!(n, 8);
    assert_eq!(w.into_vec(), vec![1, 2, 3, 4, 5, 6, 7, 8]);
}

#[test]
fn u64_decode_full_buffer() {
    let mut r = Reader::from_vec(vec![1, 2, 3, 4, 5, 6, 7, 8]);
    let (v, n) = drain_decoder(DecodeU64::new(), &mut r);
    assert_eq!(v, 0x0102030405060708);
    assert_eq!(n, 8);
}

#[test]
fn i32_negative_round_trip() {
    let mut w = Writer::new();
    w.allow(4);
    let n = drain_encoder(EncodeI32::new(-7), &mut w);
    assert_eq!(n, 4);
    let bytes = w.into_vec();
    assert_eq!(bytes, vec![0xff, 0xff, 0xff, 0xf9]);
    let mut r = Reader::from_vec(bytes);
    let (v, n) = drain_decoder(DecodeI32::new(), &mut r);
    assert_eq!(v, -7);
    assert_eq!(n, 4);
}

#[test]
fn u64_decode_chunked_with_suspension() {
    let mut r = Reader::new();
    for b in [9u8, 8, 7] {
        r.feed_byte(b);
    }
    let d = DecodeU64::new();
    let d = match d.poll_decode(&mut r) {
        PollDec::Progress(d2, n) => {
            assert_eq!(n, 3);
            d2
        }
        _ => panic!("expected progress after three bytes"),
    };
    let d = match d.poll_decode(&mut r) {
        PollDec::Pending(d2) => d2,
        _ => panic!("expected suspension on a starved reader"),
    };
    for b in [6u8, 5, 4, 3, 2] {
        r.feed_byte(b);
    }
    match d.poll_decode(&mut r) {
        PollDec::Done(v, n) => {
            assert_eq!(n, 5);
            assert_eq!(v, 0x0908070605040302);
        }
        _ => panic!("expected completion"),
    }
}

#[test]
fn suspension_is_idempotent() {
    // Resuming a suspended decoder with no new bytes yields another
    // suspension and consumes nothing.
    let mut r = Reader::new();
    let d = DecodeU64::new();
    let d = match d.poll_decode(&mut r) {
        PollDec::Pending(d2) => d2,
        _ => panic!("expected suspension"),
    };
    let d = match d.poll_decode(&mut r) {
        PollDec::Pending(d2) => d2,
        _ => panic!("expected suspension again"),
    };
    for b in [0u8, 0, 0, 0, 0, 0, 0, 42] {
        r.feed_byte(b);
    }
    let (v, n) = drain_decoder(d, &mut r);
    assert_eq!(v, 42);
    assert_eq!(n, 8);
}

#[test]
fn u64_decode_eof_short_stream() {
    let mut r = Reader::from_vec(vec![1, 2, 3, 4, 5]);
    match DecodeU64::new().poll_decode(&mut r) {
        PollDec::Errored(DecodeError::ReaderError(TransportError::UnexpectedEof)) => {
            assert_eq!(r.consumed(), 5);
        }
        _ => panic!("expected an unexpected-eof transport error"),
    }
}

#[test]
fn unexpected_eof_helper_detects_truncation() {
    let r = Reader::from_vec(vec![1, 2, 3]);
    assert!(unexpected_eof_errors(r, DecodeU64::new(), 100));
    let r = Reader::from_vec(vec![1, 2, 3, 4, 5, 6, 7, 8]);
    assert!(!unexpected_eof_errors(r, DecodeU64::new(), 100));
}

#[test]
fn write_zero_helper_detects_closed_writer() {
    let mut w = Writer::new();
    w.close();
    assert!(write_zero_errors(w, EncodeU64::new(1), 100));
    let w = Writer::new();
    assert!(!write_zero_errors(w, EncodeU64::new(1), 100));
}

#[test]
fn encoder_partial_single_byte_writes() {
    let mut w = Writer::new();
    let mut c = EncodeI32::new(0x01020304);
    let mut total = 0;
    loop {
        w.allow(1);
        match c.poll_encode(&mut w) {
            PollEnc::Done(n) => {
                total += n;
                break;
            }
            PollEnc::Progress(c2, n) => {
                total += n;
                c = c2;
            }
            PollEnc::Pending(c2) => c = c2,
            PollEnc::Errored(e) => panic!("encode failed: {:?}", e),
        }
    }
    assert_eq!(total, 4);
    assert_eq!(w.into_vec(), vec![1, 2, 3, 4]);
}

#[test]
fn remaining_bytes_counts_down() {
    let c = EncodeU64::new(7);
    assert_eq!(c.remaining_bytes(), 8);
    let mut w = Writer::new();
    w.allow(3);
    match c.poll_encode(&mut w) {
        PollEnc::Progress(c2, n) => {
            assert_eq!(n, 3);
            assert_eq!(c2.remaining_bytes(), 5);
        }
        _ => panic!("expected progress"),
    }
}
