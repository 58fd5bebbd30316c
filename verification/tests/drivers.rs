use codec_util::codec::DecodeError;
use codec_util::decoder;
use codec_util::encoder;
use codec_util::primitives::{DecodeI32, DecodeU64, EncodeI32, EncodeU64};
use codec_util::testing::{round_trip_pair, test_codec, test_codec_len};
use codec_util::transport::{Reader, TransportError, Writer};
use codec_util::{decode, encode, DrivePoll};

#[test]
fn driver_decodes_pair_from_full_buffer() {
    let mut w = Writer::new();
    w.allow(12);
    let mut e = encode(w, encoder::chain(EncodeI32::new(-7), EncodeU64::new(42)));
    let bytes = loop {
        match e.poll() {
            DrivePoll::Ready((w2, total)) => {
                assert_eq!(total, 12);
                break w2.into_vec();
            }
            DrivePoll::Pending => {}
            DrivePoll::Errored(_) => panic!("encode failed"),
        }
    };
    let mut d = decode(
        Reader::from_vec(bytes),
        decoder::chain(DecodeI32::new(), DecodeU64::new()),
    );
    loop {
        match d.poll() {
            DrivePoll::Ready((_, item, total)) => {
                assert_eq!(item, (-7, 42));
                assert_eq!(total, 12);
                break;
            }
            DrivePoll::Pending => {}
            DrivePoll::Errored(_) => panic!("decode failed"),
        }
    }
}

#[test]
fn driver_encoder_reports_remaining_bytes() {
    let mut w = Writer::new();
    w.allow(12);
    let mut e = encode(w, encoder::chain(EncodeI32::new(1), EncodeU64::new(2)));
    assert_eq!(e.remaining_bytes(), 12);
}

#[test]
fn driver_surfaces_eof_with_reader() {
    let mut d = decode(Reader::from_vec(vec![1, 2, 3]), DecodeU64::new());
    loop {
        match d.poll() {
            DrivePoll::Errored((r, DecodeError::ReaderError(TransportError::UnexpectedEof))) => {
                assert_eq!(r.consumed(), 3);
                break;
            }
            DrivePoll::Pending => {}
            _ => panic!("expected an eof failure"),
        }
    }
}

#[test]
fn driver_suspends_on_starved_reader() {
    let mut d = decode(Reader::new(), DecodeU64::new());
    match d.poll() {
        DrivePoll::Pending => {}
        _ => panic!("expected suspension"),
    }
    match d.poll() {
        DrivePoll::Pending => {}
        _ => panic!("expected suspension again"),
    }
}

#[test]
fn concurrent_codec_round_trips_pair() {
    // Encoding (-7, 42) and decoding it concurrently, with one-byte write
    // grants forcing maximal interruption, yields the pair back with
    // matching byte counts of 12.
    let out = test_codec_len(
        Reader::new(),
        Writer::new(),
        decoder::chain(DecodeI32::new(), DecodeU64::new()),
        encoder::chain(EncodeI32::new(-7), EncodeU64::new(42)),
        200,
    );
    match out {
        Some((item, agree)) => {
            assert_eq!(item, (-7, 42));
            assert!(agree);
        }
        None => panic!("harness did not finish"),
    }
}

#[test]
fn concurrent_codec_single_value() {
    let out = test_codec(
        Reader::new(),
        Writer::new(),
        DecodeU64::new(),
        EncodeU64::new(0xdeadbeef00c0ffee),
        200,
    );
    match out {
        Some((item, agree)) => {
            assert_eq!(item, 0xdeadbeef00c0ffee);
            assert!(agree);
        }
        None => panic!("harness did not finish"),
    }
}

#[test]
fn concurrent_codec_mapped_decoder() {
    let out = test_codec(
        Reader::new(),
        Writer::new(),
        decoder::map(DecodeU64::new(), |x: u64| x ^ 1),
        EncodeU64::new(6),
        200,
    );
    match out {
        Some((item, agree)) => {
            assert_eq!(item, 7);
            assert!(agree);
        }
        None => panic!("harness did not finish"),
    }
}

#[test]
fn round_trip_pair_entry() {
    let (item, written, read) = round_trip_pair(-7, 42);
    assert_eq!(item, (-7, 42));
    assert_eq!(written, 12);
    assert_eq!(read, 12);
}

#[test]
fn driver_encode_fails_on_closed_writer() {
    let mut w = Writer::new();
    w.close();
    let mut e = encode(w, EncodeU64::new(5));
    loop {
        match e.poll() {
            DrivePoll::Errored((w2, TransportError::WriteZero)) => {
                assert_eq!(w2.len(), 0);
                break;
            }
            DrivePoll::Pending => {}
            _ => panic!("expected a write-zero failure"),
        }
    }
}

#[test]
fn harness_flags_early_finishing_decoder() {
    // The decoder needs 4 bytes while the encoder writes 8: the run finishes,
    // but the agreement flag is false and the item covers only the prefix.
    let out = test_codec(
        Reader::new(),
        Writer::new(),
        DecodeI32::new(),
        EncodeU64::new(0x0102030405060708),
        200,
    );
    match out {
        Some((item, agree)) => {
            assert!(!agree);
            assert_eq!(item, 0x01020304);
        }
        None => panic!("harness did not finish"),
    }
}
