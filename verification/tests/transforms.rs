//! Tests for the individual transforms: concrete scenarios, edge cases
//! and round trips.

use stackpack::arith::{arith_decode, arith_encode};
use stackpack::bsc::{bsc_decode, bsc_encode};
use stackpack::bwt::{bwt_decode, bwt_encode};
use stackpack::compressor::{ArithmeticCoding, Compressor, DecompressionError};
use stackpack::mtf::{mtf_decode, mtf_encode};
use stackpack::mutator::MutateError;
use stackpack::rle::Rle;
use stackpack::sample;

const SHORT_TEXT: &[u8] =
    b"Hello, Entropy! This is a short data string to test small inputs. It has little repetition, but it should still be handled correctly.";
const MID_TEXT: &[u8] = b"This is a longer string to test the compression algorithm. It should be able to handle various lengths and characters. \
    We need to ensure that our compression algorithms work efficiently with different kinds of text patterns, including repeated words, \
    special characters like !@#$%^&*(), numbers 0123456789, and varying sentence structures. The longer the test data, the more likely \
    we are to catch edge cases in our implementation.";
const EMPTY_DATA: &[u8] = &[];

fn cases() -> Vec<&'static [u8]> {
    vec![SHORT_TEXT, MID_TEXT, EMPTY_DATA, b"aaaaaaaaaaaaaaaaaaaaaaaaaaaaaaaa", b"banana"]
}

#[test]
fn mtf_encodes_runs_to_zero() {
    // "a" starts at index 97; after the first emit it sits at the front
    let mut buf = Vec::new();
    mtf_encode(b"aaaa", &mut buf).unwrap();
    assert_eq!(buf, vec![97, 0, 0, 0]);
    let mut back = Vec::new();
    mtf_decode(&buf, &mut back).unwrap();
    assert_eq!(back, b"aaaa");
}

#[test]
fn mtf_empty_is_empty() {
    let mut buf = vec![9, 9, 9];
    mtf_encode(b"", &mut buf).unwrap();
    assert!(buf.is_empty());
    let mut back = vec![7];
    mtf_decode(&buf, &mut back).unwrap();
    assert!(back.is_empty());
}

#[test]
fn mtf_roundtrips() {
    for case in cases() {
        let mut enc = Vec::new();
        mtf_encode(case, &mut enc).unwrap();
        let mut dec = Vec::new();
        mtf_decode(&enc, &mut dec).unwrap();
        assert_eq!(dec, case);
    }
}

#[test]
fn bwt_banana() {
    // sorted rotations of "banana" end in "nnbaaa"; the original text's
    // rotation sorts to row 3
    let mut buf = Vec::new();
    bwt_encode(b"banana", &mut buf).unwrap();
    assert_eq!(buf, vec![3, 0, 0, 0, b'n', b'n', b'b', b'a', b'a', b'a']);
    let mut back = Vec::new();
    bwt_decode(&buf, &mut back).unwrap();
    assert_eq!(back, b"banana");
}

#[test]
fn bwt_short_input_passes_through() {
    let mut buf = Vec::new();
    bwt_encode(b"ab", &mut buf).unwrap();
    assert_eq!(buf, b"ab");
    let mut back = Vec::new();
    bwt_decode(b"ab", &mut back).unwrap();
    assert_eq!(back, b"ab");
}

#[test]
fn bwt_decoder_edge_frames() {
    // a zero primary index over an empty payload decodes to nothing
    let mut out = Vec::new();
    bwt_decode(&[0x00, 0x00, 0x00, 0x00], &mut out).unwrap();
    assert!(out.is_empty());
    // a primary index beyond the payload is malformed
    let mut out2 = Vec::new();
    let err = bwt_decode(&[0xFF, 0xFF, 0xFF, 0xFF, 0x41], &mut out2).unwrap_err();
    assert_eq!(err, MutateError::MalformedInput);
}

#[test]
fn bwt_roundtrips() {
    for case in cases() {
        let mut enc = Vec::new();
        bwt_encode(case, &mut enc).unwrap();
        let mut dec = Vec::new();
        bwt_decode(&enc, &mut dec).unwrap();
        assert_eq!(dec, case);
    }
}

#[test]
fn rle_picks_the_best_pattern() {
    // five repeats of "AB" become one chunk {L=2, R=4, "AB"}
    let rle = Rle { debug: false };
    let enc = rle.rle_encode(b"ABABABABAB");
    assert_eq!(enc, vec![2, 4, 65, 66]);
    let dec = rle.rle_decode(&enc).unwrap();
    assert_eq!(dec, b"ABABABABAB");
}

#[test]
fn rle_rejects_truncated_chunks() {
    let rle = Rle { debug: false };
    assert_eq!(rle.rle_decode(&[5]).unwrap_err(), MutateError::MalformedInput);
    assert_eq!(rle.rle_decode(&[3, 0, 1, 2]).unwrap_err(), MutateError::MalformedInput);
}

#[test]
fn rle_roundtrip_tests() {
    let rle = Rle { debug: false };
    for case in cases() {
        let enc = rle.rle_encode(case);
        let dec = rle.rle_decode(&enc).unwrap();
        assert_eq!(dec, case);
    }
}

#[test]
fn arith_roundtrip_tests() {
    for case in cases() {
        let mut enc = Vec::new();
        arith_encode(case, &mut enc).unwrap();
        assert!(!enc.is_empty());
        let mut dec = Vec::new();
        arith_decode(&enc, &mut dec).unwrap();
        assert_eq!(dec, case);
    }
}

#[test]
fn arith_handles_long_inputs_and_rescaling() {
    // enough symbols to push the model total past its cap, so both sides
    // walk through a frequency rescale
    let mut data = vec![b'a'; 70_000];
    for (i, b) in data.iter_mut().enumerate() {
        if i % 97 == 0 {
            *b = (i % 251) as u8;
        }
    }
    let mut enc = Vec::new();
    arith_encode(&data, &mut enc).unwrap();
    let mut dec = Vec::new();
    arith_decode(&enc, &mut dec).unwrap();
    assert_eq!(dec, data);
}

#[test]
fn arith_rejects_empty_input() {
    let mut out = Vec::new();
    assert_eq!(arith_decode(b"", &mut out).unwrap_err(), MutateError::MalformedInput);
}

#[test]
fn arith_decode_of_garbage_terminates() {
    // garbage either decodes to some bytes before the stream runs dry, or
    // fails; it must never hang
    let garbage: Vec<u8> = (0..64u8).map(|x| x.wrapping_mul(37).wrapping_add(11)).collect();
    let mut out = Vec::new();
    let _ = arith_decode(&garbage, &mut out);
}

#[test]
fn bsc_stores_literal_frames() {
    let mut enc = Vec::new();
    bsc_encode(b"hello", &mut enc).unwrap();
    assert_eq!(enc, vec![5, 0, 0, 0, 5, 0, 0, 0, b'h', b'e', b'l', b'l', b'o']);
    let mut dec = Vec::new();
    bsc_decode(&enc, &mut dec).unwrap();
    assert_eq!(dec, b"hello");
}

#[test]
fn bsc_roundtrips() {
    for case in cases() {
        let mut enc = Vec::new();
        bsc_encode(case, &mut enc).unwrap();
        let mut dec = Vec::new();
        bsc_decode(&enc, &mut dec).unwrap();
        assert_eq!(dec, case);
    }
}

#[test]
fn bsc_validates_frames() {
    let mut out = Vec::new();
    // truncated header
    assert_eq!(bsc_decode(&[1, 2, 3], &mut out).unwrap_err(), MutateError::MalformedInput);
    // zero block size
    assert_eq!(
        bsc_decode(&[0, 0, 0, 0, 0, 0, 0, 0], &mut out).unwrap_err(),
        MutateError::MalformedInput
    );
    // compressed size above block size
    assert_eq!(
        bsc_decode(&[1, 0, 0, 0, 2, 0, 0, 0, 9, 9], &mut out).unwrap_err(),
        MutateError::MalformedInput
    );
    // body shorter than the compressed size
    assert_eq!(
        bsc_decode(&[4, 0, 0, 0, 4, 0, 0, 0, 1], &mut out).unwrap_err(),
        MutateError::MalformedInput
    );
    // a really compressed frame needs the external primitive
    assert_eq!(
        bsc_decode(&[4, 0, 0, 0, 2, 0, 0, 0, 1, 1], &mut out).unwrap_err(),
        MutateError::ExternalStage
    );
}

#[test]
fn sample_transform_is_an_involution() {
    let mut once = Vec::new();
    sample::drive_mutation(b"wololooo", &mut once).unwrap();
    assert_ne!(once, b"wololooo");
    let mut twice = Vec::new();
    sample::revert_mutation(&once, &mut twice).unwrap();
    assert_eq!(twice, b"wololooo");
}

#[test]
fn compressor_trait_roundtrips() {
    let mut arith = ArithmeticCoding;
    arith.test_roundtrip(SHORT_TEXT).unwrap();
    let mut rle = Rle { debug: false };
    rle.test_roundtrip(MID_TEXT).unwrap();
}

#[test]
fn compressor_trait_surfaces_decode_errors() {
    let mut arith = ArithmeticCoding;
    let mut out = Vec::new();
    assert_eq!(
        arith.decompress_bytes(b"", &mut out).unwrap_err(),
        DecompressionError::InvalidInput
    );
}
