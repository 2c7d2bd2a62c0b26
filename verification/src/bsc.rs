//! The block-framed general-purpose coder.
//!
//! Each block is framed as a four-byte little-endian original size, a
//! four-byte little-endian compressed size and then the compressed bytes;
//! a block whose compressed size equals its original size is stored
//! literally. Blocks are at most `2^31 - 1` bytes, so oversized inputs are
//! split. The external block compressor itself runs in the application
//! layer: the verified encoder here emits stored (literal) frames, which
//! the format's literal rule makes valid, and the verified decoder handles
//! stored frames itself while a frame that needs the external primitive
//! surfaces `ExternalStage` for the application runner to handle. Frame
//! parsing and validation are shared through `bsc_next_frame`.

use vstd::prelude::*;

use crate::bwt::{u32_le_bytes, u32_le_val};
use crate::mutator::MutateError;

verus! {

pub const BSC_MAX_BLOCK: usize = 0x7FFFFFFF;

/// The stored-frame encoding of `data`: blocks of at most `BSC_MAX_BLOCK`
/// bytes, each framed with equal original and compressed sizes.
pub open spec fn bsc_store_spec(data: Seq<u8>) -> Seq<u8>
    decreases data.len(),
{
    if data.len() == 0 {
        Seq::empty()
    } else {
        let bs = if data.len() <= 0x7FFFFFFF {
            data.len() as int
        } else {
            0x7FFFFFFF
        };
        u32_le_bytes(bs) + u32_le_bytes(bs) + data.take(bs) + bsc_store_spec(data.skip(bs))
    }
}

/// Meaning of the framed stream from `pos` on. A frame header must be
/// complete, sizes must be positive, fit the signed 32-bit range the
/// format inherits, and satisfy `compressed <= original`; the compressed
/// bytes must be present. A stored frame decodes to its own bytes; a
/// frame that was really compressed needs the external primitive.
pub open spec fn bsc_decode_from(data: Seq<u8>, pos: int) -> Result<Seq<u8>, MutateError>
    decreases data.len() - pos,
    when 0 <= pos
{
    if pos >= data.len() {
        Ok(Seq::empty())
    } else if pos + 8 > data.len() {
        Err(MutateError::MalformedInput)
    } else {
        let bs = u32_le_val(data.subrange(pos, pos + 4));
        let cs = u32_le_val(data.subrange(pos + 4, pos + 8));
        if bs <= 0 || cs <= 0 || bs > 0x7FFFFFFF || cs > 0x7FFFFFFF || cs > bs {
            Err(MutateError::MalformedInput)
        } else if pos + 8 + cs > data.len() {
            Err(MutateError::MalformedInput)
        } else if cs == bs {
            match bsc_decode_from(data, pos + 8 + cs) {
                Ok(rest) => Ok(data.subrange(pos + 8, pos + 8 + cs) + rest),
                Err(e) => Err(e),
            }
        } else {
            Err(MutateError::ExternalStage)
        }
    }
}

/// What `bsc_decode` computes.
pub open spec fn bsc_decode_spec(data: Seq<u8>) -> Result<Seq<u8>, MutateError> {
    bsc_decode_from(data, 0)
}

/// Decoding only looks at the bytes from `pos` on.
proof fn lemma_bsc_decode_shift(a: Seq<u8>, b: Seq<u8>, pos: int)
    requires
        0 <= pos,
    ensures
        bsc_decode_from(a + b, a.len() + pos) == bsc_decode_from(b, pos),
    decreases b.len() - pos,
{
    let al = a.len() as int;
    if pos >= b.len() {
    } else if pos + 8 > b.len() {
    } else {
        assert((a + b).subrange(al + pos, al + pos + 4) =~= b.subrange(pos, pos + 4));
        assert((a + b).subrange(al + pos + 4, al + pos + 8) =~= b.subrange(pos + 4, pos + 8));
        let bs = u32_le_val(b.subrange(pos, pos + 4));
        let cs = u32_le_val(b.subrange(pos + 4, pos + 8));
        if bs <= 0 || cs <= 0 || bs > 0x7FFFFFFF || cs > 0x7FFFFFFF || cs > bs {
        } else if pos + 8 + cs > b.len() {
        } else if cs == bs {
            lemma_bsc_decode_shift(a, b, pos + 8 + cs);
            assert((a + b).subrange(al + pos + 8, al + pos + 8 + cs) =~= b.subrange(
                pos + 8,
                pos + 8 + cs,
            ));
        } else {
        }
    }
}

/// The little-endian bytes of a frame size read back as that size.
proof fn lemma_u32_le_val_of_bytes(x: int)
    requires
        0 <= x <= 0x7FFFFFFF,
    ensures
        u32_le_val(u32_le_bytes(x)) == x,
{
    let hb = u32_le_bytes(x);
    assert(hb[0] == (x % 256) as u8 && hb[1] == ((x / 256) % 256) as u8 && hb[2] == ((x / 65536)
        % 256) as u8 && hb[3] == ((x / 16777216) % 256) as u8);
    assert(x == (x % 256) + 256 * ((x / 256) % 256) + 65536 * ((x / 65536) % 256) + 16777216 * ((x
        / 16777216) % 256)) by (nonlinear_arith)
        requires
            0 <= x <= 0x7FFFFFFF,
    ;
}

/// Round-trip law for the stored-frame encoder: decoding what it produces
/// recovers the original bytes, for every byte sequence.
#[verifier::rlimit(100)]
pub proof fn lemma_bsc_roundtrip(data: Seq<u8>)
    ensures
        bsc_decode_spec(bsc_store_spec(data)) == Ok::<Seq<u8>, MutateError>(data),
    decreases data.len(),
{
    if data.len() == 0 {
        assert(data =~= Seq::<u8>::empty());
        assert(bsc_decode_spec(bsc_store_spec(data)) == Ok::<Seq<u8>, MutateError>(data));
    } else {
        let bs = if data.len() <= 0x7FFFFFFF {
            data.len() as int
        } else {
            0x7FFFFFFF
        };
        let head = u32_le_bytes(bs) + u32_le_bytes(bs) + data.take(bs);
        let rest = bsc_store_spec(data.skip(bs));
        let whole = bsc_store_spec(data);
        assert(whole == head + rest);
        lemma_bsc_roundtrip(data.skip(bs));
        lemma_bsc_decode_shift(head, rest, 0);
        assert(head.len() == 8 + bs);
        let hb = u32_le_bytes(bs);
        assert(whole.subrange(0, 4) =~= hb);
        assert(whole.subrange(4, 8) =~= hb);
        lemma_u32_le_val_of_bytes(bs);
        assert(whole.subrange(8, 8 + bs) =~= data.take(bs));
        assert(bsc_decode_from(whole, 8 + bs) == bsc_decode_from(rest, 0));
        assert(bsc_decode_from(whole, 0) == Ok::<Seq<u8>, MutateError>(
            data.take(bs) + data.skip(bs),
        ));
        assert(data.take(bs) + data.skip(bs) =~= data);
    }
}

/// Append the four little-endian bytes of `v`.
fn push_u32_le(buf: &mut Vec<u8>, v: u32)
    ensures
        final(buf)@ == old(buf)@ + u32_le_bytes(v as int),
{
    buf.push((v % 256) as u8);
    buf.push(((v / 256) % 256) as u8);
    buf.push(((v / 65536) % 256) as u8);
    buf.push(((v / 16777216) % 256) as u8);
    proof {
        assert(buf@ =~= old(buf)@ + u32_le_bytes(v as int));
    }
}

/// Read and validate the frame header at `pos`: the block size, the
/// compressed size and the offset of the compressed bytes. Fails exactly
/// when the framed-stream meaning fails at `pos` with a malformed header.
pub fn bsc_next_frame(data: &[u8], pos: usize) -> (r: Result<(u32, u32, usize), MutateError>)
    requires
        pos < data@.len(),
    ensures
        match r {
            Ok((bs, cs, body)) => {
                &&& pos + 8 <= data@.len()
                &&& bs as int == u32_le_val(data@.subrange(pos as int, pos + 4))
                &&& cs as int == u32_le_val(data@.subrange(pos + 4, pos + 8))
                &&& 1 <= cs <= bs <= 0x7FFFFFFF
                &&& body == pos + 8
                &&& body + cs <= data@.len()
            },
            Err(e) => {
                &&& e == MutateError::MalformedInput
                &&& bsc_decode_from(data@, pos as int) == Err::<Seq<u8>, MutateError>(e)
            },
        },
{
    if data.len() - pos < 8 {
        return Err(MutateError::MalformedInput);
    }
    let b0 = data[pos] as u32;
    let b1 = data[pos + 1] as u32;
    let b2 = data[pos + 2] as u32;
    let b3 = data[pos + 3] as u32;
    let bs = b0 + 256 * (b1 + 256 * (b2 + 256 * b3));
    let c0 = data[pos + 4] as u32;
    let c1 = data[pos + 5] as u32;
    let c2 = data[pos + 6] as u32;
    let c3 = data[pos + 7] as u32;
    let cs = c0 + 256 * (c1 + 256 * (c2 + 256 * c3));
    proof {
        let h = data@.subrange(pos as int, pos + 4);
        assert(h[0] == data@[pos as int] && h[1] == data@[pos + 1] && h[2] == data@[pos + 2]
            && h[3] == data@[pos + 3]);
        let h2 = data@.subrange(pos + 4, pos + 8);
        assert(h2[0] == data@[pos + 4] && h2[1] == data@[pos + 5] && h2[2] == data@[pos + 6]
            && h2[3] == data@[pos + 7]);
    }
    if bs == 0 || cs == 0 || bs > 0x7FFFFFFF || cs > 0x7FFFFFFF || cs > bs {
        return Err(MutateError::MalformedInput);
    }
    if data.len() - (pos + 8) < cs as usize {
        return Err(MutateError::MalformedInput);
    }
    Ok((bs, cs, pos + 8))
}

/// Encode `data` as stored frames.
#[verifier::loop_isolation(false)]
pub fn bsc_encode(data: &[u8], buf: &mut Vec<u8>) -> (r: Result<(), MutateError>)
    ensures
        r is Ok,
        final(buf)@ == bsc_store_spec(data@),
{
    buf.clear();
    proof {
        assert(data@.skip(0) =~= data@);
        assert(Seq::<u8>::empty() + bsc_store_spec(data@) =~= bsc_store_spec(data@));
    }
    let mut pos: usize = 0;
    while pos < data.len()
        invariant
            0 <= pos <= data@.len(),
            bsc_store_spec(data@) == buf@ + bsc_store_spec(data@.skip(pos as int)),
        decreases data@.len() - pos,
    {
        let remaining = data.len() - pos;
        let bs: usize = if remaining <= BSC_MAX_BLOCK {
            remaining
        } else {
            BSC_MAX_BLOCK
        };
        let ghost pre = buf@;
        push_u32_le(buf, bs as u32);
        push_u32_le(buf, bs as u32);
        let mut j: usize = 0;
        while j < bs
            invariant
                0 <= j <= bs,
                pos + bs <= data@.len(),
                buf@ == pre + u32_le_bytes(bs as int) + u32_le_bytes(bs as int) + data@.subrange(
                    pos as int,
                    pos + j,
                ),
            decreases bs - j,
        {
            buf.push(data[pos + j]);
            proof {
                assert(data@.subrange(pos as int, pos + j + 1) =~= data@.subrange(
                    pos as int,
                    pos + j,
                ).push(data@[pos + j]));
                assert(buf@ =~= pre + u32_le_bytes(bs as int) + u32_le_bytes(bs as int)
                    + data@.subrange(pos as int, pos + j + 1));
            }
            j = j + 1;
        }
        proof {
            let tail = data@.skip(pos as int);
            assert(tail.len() == data@.len() - pos);
            let tbs = if tail.len() <= 0x7FFFFFFF {
                tail.len() as int
            } else {
                0x7FFFFFFF
            };
            assert(tbs == bs as int);
            assert(tail.take(bs as int) =~= data@.subrange(pos as int, pos + bs));
            assert(tail.skip(bs as int) =~= data@.skip(pos + bs));
            assert(bsc_store_spec(tail) == u32_le_bytes(bs as int) + u32_le_bytes(bs as int)
                + tail.take(bs as int) + bsc_store_spec(tail.skip(bs as int)));
            assert(buf@ + bsc_store_spec(data@.skip(pos + bs)) =~= pre + bsc_store_spec(tail));
        }
        pos = pos + bs;
    }
    proof {
        assert(data@.skip(pos as int).len() == 0);
        assert(buf@ + bsc_store_spec(data@.skip(pos as int)) =~= buf@);
    }
    Ok(())
}

/// Decode a framed stream of stored blocks. A frame holding really
/// compressed bytes surfaces `ExternalStage` for the application runner;
/// layout violations are malformed.
#[verifier::loop_isolation(false)]
pub fn bsc_decode(data: &[u8], buf: &mut Vec<u8>) -> (r: Result<(), MutateError>)
    ensures
        match bsc_decode_spec(data@) {
            Ok(s) => r is Ok && final(buf)@ == s,
            Err(e) => r == Err::<(), MutateError>(e),
        },
{
    buf.clear();
    let mut pos: usize = 0;
    while pos < data.len()
        invariant
            0 <= pos <= data@.len(),
            match bsc_decode_from(data@, pos as int) {
                Ok(rest) => bsc_decode_spec(data@) == Ok::<Seq<u8>, MutateError>(buf@ + rest),
                Err(e) => bsc_decode_spec(data@) == Err::<Seq<u8>, MutateError>(e),
            },
        decreases data@.len() - pos,
    {
        let (bs, cs, body) = match bsc_next_frame(data, pos) {
            Ok(t) => t,
            Err(e) => {
                return Err(e);
            },
        };
        if cs != bs {
            return Err(MutateError::ExternalStage);
        }
        let ghost pre = buf@;
        let csu = cs as usize;
        let mut j: usize = 0;
        while j < csu
            invariant
                0 <= j <= csu,
                body + csu <= data@.len(),
                buf@ == pre + data@.subrange(body as int, body + j),
            decreases csu - j,
        {
            buf.push(data[body + j]);
            proof {
                assert(data@.subrange(body as int, body + j + 1) =~= data@.subrange(
                    body as int,
                    body + j,
                ).push(data@[body + j]));
                assert(buf@ =~= pre + data@.subrange(body as int, body + j + 1));
            }
            j = j + 1;
        }
        proof {
            let rr = bsc_decode_from(data@, body + csu);
            if rr is Ok {
                let tail = rr->Ok_0;
                assert(buf@ + tail =~= pre + (data@.subrange(body as int, body + csu) + tail));
            }
        }
        pos = body + csu;
    }
    Ok(())
}

} // verus!
