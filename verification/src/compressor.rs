//! The one-shot compressor interface, as the round-trip tester uses it.

use vstd::prelude::*;

use crate::arith::{arith_decode, arith_decode_spec, arith_encode, arith_encode_spec};
use crate::mutator::MutateError;
use crate::registered::bytes_eq;
use crate::rle::{rle_decode_spec, rle_encode_rel, Rle};

verus! {

/// Why decompression failed.
#[derive(Clone, Copy, PartialEq, Eq, Structural, Debug)]
pub enum DecompressionError {
    /// The input data was malformed and could not be decoded.
    InvalidInput,
    /// The decoder failed internally.
    InternalDecoderError,
}

/// A one-shot compressor. `compress_ok` says which inputs compress,
/// `compress_rel` relates an input to its compressed form, and
/// `decompress_rel` relates compressed bytes to the whole outcome of
/// decompression.
pub trait Compressor: Sized {
    spec fn compress_ok(&self, input: Seq<u8>) -> bool;

    spec fn compress_rel(&self, input: Seq<u8>, output: Seq<u8>) -> bool;

    spec fn decompress_rel(&self, input: Seq<u8>, r: Result<Seq<u8>, DecompressionError>) -> bool;

    /// Compress `data` into `buf`, discarding `buf`'s previous contents.
    fn compress_bytes(&mut self, data: &[u8], buf: &mut Vec<u8>)
        requires
            old(self).compress_ok(data@),
        ensures
            *final(self) == *old(self),
            old(self).compress_rel(data@, final(buf)@),
    ;

    /// Decompress `data` into `buf`, discarding `buf`'s previous contents.
    fn decompress_bytes(&mut self, data: &[u8], buf: &mut Vec<u8>) -> (r: Result<
        (),
        DecompressionError,
    >)
        ensures
            *final(self) == *old(self),
            match r {
                Ok(()) => old(self).decompress_rel(data@, Ok(final(buf)@)),
                Err(e) => old(self).decompress_rel(data@, Err(e)),
            },
    ;

    /// Compress `data`, decompress the result, and report whether the
    /// round trip reproduced the input exactly.
    fn test_roundtrip(&mut self, data: &[u8]) -> (r: Result<(), DecompressionError>)
        requires
            old(self).compress_ok(data@),
        ensures
            *final(self) == *old(self),
            r is Ok ==> exists|c: Seq<u8>|
                {
                    &&& #[trigger] old(self).compress_rel(data@, c)
                    &&& old(self).decompress_rel(c, Ok(data@))
                },
    {
        let mut compressed: Vec<u8> = Vec::new();
        self.compress_bytes(data, &mut compressed);
        let mut decompressed: Vec<u8> = Vec::new();
        match self.decompress_bytes(compressed.as_slice(), &mut decompressed) {
            Ok(()) => {
                if bytes_eq(data, decompressed.as_slice()) {
                    Ok(())
                } else {
                    Err(DecompressionError::InvalidInput)
                }
            },
            Err(e) => Err(e),
        }
    }
}

/// The adaptive arithmetic coder as a one-shot compressor.
#[derive(Clone, Copy, PartialEq, Eq, Structural, Debug)]
pub struct ArithmeticCoding;

impl ArithmeticCoding {
    /// The fresh 257-symbol model both directions start from.
    pub fn get_model() -> (m: crate::arith::Model)
        ensures
            crate::arith::model_inv(m),
    {
        crate::arith::get_model()
    }
}

impl Compressor for ArithmeticCoding {
    open spec fn compress_ok(&self, input: Seq<u8>) -> bool {
        input.len() <= u32::MAX
    }

    open spec fn compress_rel(&self, input: Seq<u8>, output: Seq<u8>) -> bool {
        output == arith_encode_spec(input) && output.len() >= 1
    }

    open spec fn decompress_rel(&self, input: Seq<u8>, r: Result<Seq<u8>, DecompressionError>) -> bool {
        r == match arith_decode_spec(input) {
            Ok(s) => Ok::<Seq<u8>, DecompressionError>(s),
            Err(_) => Err::<Seq<u8>, DecompressionError>(DecompressionError::InvalidInput),
        }
    }

    fn compress_bytes(&mut self, data: &[u8], buf: &mut Vec<u8>) {
        let r = arith_encode(data, buf);
        proof {
            assert(r is Ok);
        }
    }

    fn decompress_bytes(&mut self, data: &[u8], buf: &mut Vec<u8>) -> (r: Result<
        (),
        DecompressionError,
    >) {
        match arith_decode(data, buf) {
            Ok(()) => Ok(()),
            Err(_) => Err(DecompressionError::InvalidInput),
        }
    }
}

impl Compressor for Rle {
    open spec fn compress_ok(&self, input: Seq<u8>) -> bool {
        true
    }

    open spec fn compress_rel(&self, input: Seq<u8>, output: Seq<u8>) -> bool {
        rle_encode_rel(input, output)
    }

    open spec fn decompress_rel(&self, input: Seq<u8>, r: Result<Seq<u8>, DecompressionError>) -> bool {
        r == match rle_decode_spec(input) {
            Ok(s) => Ok::<Seq<u8>, DecompressionError>(s),
            Err(_) => Err::<Seq<u8>, DecompressionError>(DecompressionError::InvalidInput),
        }
    }

    fn compress_bytes(&mut self, data: &[u8], buf: &mut Vec<u8>) {
        let out = self.rle_encode(data);
        *buf = out;
    }

    fn decompress_bytes(&mut self, data: &[u8], buf: &mut Vec<u8>) -> (r: Result<
        (),
        DecompressionError,
    >) {
        match self.rle_decode(data) {
            Ok(out) => {
                *buf = out;
                Ok(())
            },
            Err(MutateError::MalformedInput) => Err(DecompressionError::InvalidInput),
            Err(_) => Err(DecompressionError::InvalidInput),
        }
    }
}

} // verus!
