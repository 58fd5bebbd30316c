use codec_util::codec::{Decodable, DecodeError, Encodable, EncodableLen, PollDec, PollEnc};
use codec_util::decoder;
use codec_util::decoder::{chain, AndThen, DecodeExact, DecodeExactError};
use codec_util::encoder;
use codec_util::primitives::{DecodeI32, DecodeU64, EncodeI32, EncodeU64};
use codec_util::transport::{Reader, TransportError, Writer};

fn drain<D: Decodable>(mut d: D, r: &mut Reader) -> (D::Item, usize) {
    let mut total = 0;
    loop {
        match d.poll_decode(r) {
            PollDec::Done(item, n) => return (item, total + n),
            PollDec::Progress(d2, n) => {
                total += n;
                d = d2;
            }
            PollDec::Pending(_) => panic!("reader starved"),
            PollDec::Errored(_) => panic!("decode failed"),
        }
    }
}

fn pair_bytes(a: i32, b: u64) -> Vec<u8> {
    let mut w = Writer::new();
    w.allow(12);
    let mut c = encoder::chain(EncodeI32::new(a), EncodeU64::new(b));
    loop {
        match c.poll_encode(&mut w) {
            PollEnc::Done(_) => break,
            PollEnc::Progress(c2, _) => c = c2,
            _ => panic!("encode failed"),
        }
    }
    w.into_vec()
}

#[test]
fn chain_decodes_pair_with_summed_bytes() {
    let bytes = pair_bytes(-7, 42);
    assert_eq!(bytes.len(), 12);
    let mut r = Reader::from_vec(bytes);
    let ((a, b), n) = drain(chain(DecodeI32::new(), DecodeU64::new()), &mut r);
    assert_eq!(a, -7);
    assert_eq!(b, 42);
    assert_eq!(n, 12);
}

#[test]
fn chain_encoder_concatenates_outputs() {
    let bytes = pair_bytes(0x01020304, 0x05060708090a0b0c);
    assert_eq!(bytes, vec![1, 2, 3, 4, 5, 6, 7, 8, 9, 10, 11, 12]);
    let c = encoder::chain(EncodeI32::new(1), EncodeU64::new(2));
    assert_eq!(c.remaining_bytes(), 12);
}

#[test]
fn chain_reports_first_completion_as_progress() {
    let bytes = pair_bytes(5, 6);
    let mut r = Reader::from_vec(bytes);
    let d = chain(DecodeI32::new(), DecodeU64::new());
    // The first stage finishes in one step; its completion is reported as
    // progress, never as the combined completion.
    let d = match d.poll_decode(&mut r) {
        PollDec::Progress(d2, n) => {
            assert_eq!(n, 4);
            d2
        }
        _ => panic!("expected progress at the stage switch"),
    };
    match d.poll_decode(&mut r) {
        PollDec::Done((a, b), n) => {
            assert_eq!((a, b), (5, 6));
            assert_eq!(n, 8);
        }
        _ => panic!("expected completion of the second stage"),
    }
}

#[test]
fn map_applies_function_to_final_item() {
    let mut r = Reader::from_vec(vec![0, 0, 0, 0, 0, 0, 0, 9]);
    let (v, n) = drain(decoder::map(DecodeU64::new(), |x: u64| x + 1), &mut r);
    assert_eq!(v, 10);
    assert_eq!(n, 8);
}

#[test]
fn map_byte_counts_match_inner() {
    let mut r = Reader::new();
    for b in [0u8, 0, 0] {
        r.feed_byte(b);
    }
    let d = decoder::map(DecodeU64::new(), |x: u64| x * 2);
    let d = match d.poll_decode(&mut r) {
        PollDec::Progress(d2, n) => {
            assert_eq!(n, 3);
            d2
        }
        _ => panic!("expected progress"),
    };
    for b in [0u8, 0, 0, 0, 21] {
        r.feed_byte(b);
    }
    match d.poll_decode(&mut r) {
        PollDec::Done(v, n) => {
            assert_eq!(v, 42);
            assert_eq!(n, 5);
        }
        _ => panic!("expected completion"),
    }
}

#[test]
fn and_then_builds_second_decoder_from_item() {
    // A tag selects how the payload is transformed.
    let mut bytes = vec![0, 0, 0, 3];
    bytes.extend_from_slice(&[0, 0, 0, 0, 0, 0, 0, 5]);
    let mut r = Reader::from_vec(bytes);
    let d = AndThen::new(DecodeI32::new(), |tag: i32| {
        decoder::map(DecodeU64::new(), move |v: u64| v * (tag as u64))
    });
    let (v, n) = drain(d, &mut r);
    assert_eq!(v, 15);
    assert_eq!(n, 12);
}

#[test]
fn decode_exact_succeeds_on_exact_budget() {
    let mut r = Reader::from_vec(vec![0, 0, 0, 0, 0, 0, 0, 77, 1, 2, 3]);
    let (v, n) = drain(DecodeExact::new(DecodeU64::new(), 8), &mut r);
    assert_eq!(v, 77);
    assert_eq!(n, 8);
}

#[test]
fn decode_exact_rejects_early_finish() {
    let mut r = Reader::from_vec(vec![0, 0, 0, 0, 0, 0, 0, 77, 1, 2]);
    match DecodeExact::new(DecodeU64::new(), 10).poll_decode(&mut r) {
        PollDec::Errored(DecodeError::DataError(DecodeExactError::Early(item, k))) => {
            assert_eq!(item, 77);
            assert_eq!(k, 8);
        }
        _ => panic!("expected the early data error"),
    }
}

#[test]
fn decode_exact_caps_overrunning_decoder() {
    // The inner decoder needs 8 bytes but the budget is 5: it observes
    // exhaustion at the cap and fails as if the transport had ended.
    let mut r = Reader::from_vec(vec![1, 2, 3, 4, 5, 6, 7, 8]);
    match DecodeExact::new(DecodeU64::new(), 5).poll_decode(&mut r) {
        PollDec::Errored(DecodeError::ReaderError(TransportError::UnexpectedEof)) => {
            assert_eq!(r.consumed(), 5);
        }
        _ => panic!("expected exhaustion at the cap"),
    }
}

#[test]
fn decode_exact_wraps_inner_data_error() {
    let mut r = Reader::from_vec(vec![0, 0, 0, 0, 0, 0, 0, 1, 9, 9]);
    // Inner decoder: an exact wrapper that finishes early, producing a data
    // error; the outer wrapper reports it as its inner error.
    let inner = DecodeExact::new(DecodeU64::new(), 9);
    let d = DecodeExact::new(inner, 9);
    let mut cur = d;
    loop {
        match cur.poll_decode(&mut r) {
            PollDec::Errored(DecodeError::DataError(DecodeExactError::Inner(
                DecodeExactError::Early(item, k),
            ))) => {
                assert_eq!(item, 1);
                assert_eq!(k, 8);
                break;
            }
            PollDec::Progress(d2, _) => cur = d2,
            _ => panic!("expected the wrapped early error"),
        }
    }
}
