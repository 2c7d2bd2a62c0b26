//! Adaptive arithmetic coding.
//!
//! A 48-bit integer range coder over a 257-symbol adaptive model: the 256
//! byte values plus one explicit end-of-stream symbol. Every symbol starts
//! with frequency one; coding a symbol increments its frequency, and the
//! model halves all frequencies when the total reaches a fixed cap, so the
//! encoder and decoder walk identical model states. Bits are packed
//! MSB-first and the output is padded to a whole byte. Decoding stops at
//! the end-of-stream symbol; a stream that never reaches it, or that asks
//! for more bits than it holds, fails as malformed instead of looping.

use vstd::prelude::*;

use vstd::arithmetic::div_mod::{
    lemma_div_is_ordered, lemma_div_pos_is_pos, lemma_hoist_over_denominator,
    lemma_multiply_divide_le,
};
use vstd::arithmetic::mul::lemma_mul_inequality;
use vstd::arithmetic::power2::{
    lemma2_to64, lemma2_to64_rest, lemma_pow2_pos, lemma_pow2_strictly_increases,
    lemma_pow2_unfold, pow2,
};

use crate::mutator::MutateError;
use crate::rle::{lemma_seq_repeat_unsnoc, seq_repeat};

verus! {

pub const ARI_TOP: u64 = 0x1000000000000;

pub const ARI_HALF: u64 = 0x800000000000;

pub const ARI_QUARTER: u64 = 0x400000000000;

pub const ARI_THREEQ: u64 = 0xC00000000000;

pub const ARI_MAX_TOTAL: u32 = 65536;

pub const ARI_EOF: usize = 256;

/// Sum of the first `i` frequencies.
pub open spec fn freq_sum(f: Seq<u32>, i: int) -> int
    decreases i,
{
    if i <= 0 {
        0
    } else {
        freq_sum(f, i - 1) + f[i - 1]
    }
}

/// The adaptive frequency model: a count for each of the 257 symbols.
pub struct Model {
    pub freq: Vec<u32>,
    pub total: u32,
}

/// Model well-formedness: 257 strictly positive counts whose sum is
/// `total`, bounded so every range-coder product fits its word.
pub open spec fn model_inv(m: Model) -> bool {
    &&& m.freq@.len() == 257
    &&& (forall|s: int| 0 <= s < 257 ==> 1 <= #[trigger] m.freq@[s])
    &&& m.total as int == freq_sum(m.freq@, 257)
    &&& m.total <= 65793
}

proof fn lemma_freq_sum_mono(f: Seq<u32>, i: int, j: int)
    requires
        0 <= i <= j,
    ensures
        freq_sum(f, i) <= freq_sum(f, j),
    decreases j - i,
{
    if i < j {
        lemma_freq_sum_mono(f, i, j - 1);
    }
}

proof fn lemma_freq_sum_nonneg(f: Seq<u32>, i: int)
    ensures
        freq_sum(f, i) >= 0,
    decreases i,
{
    if i > 0 {
        lemma_freq_sum_nonneg(f, i - 1);
    }
}

proof fn lemma_freq_sum_update(f: Seq<u32>, s: int, v: u32, i: int)
    requires
        0 <= s < f.len(),
        i <= f.len(),
    ensures
        freq_sum(f.update(s, v), i) == if s < i {
            freq_sum(f, i) + v - f[s]
        } else {
            freq_sum(f, i)
        },
    decreases i,
{
    if i > 0 {
        lemma_freq_sum_update(f, s, v, i - 1);
        assert(freq_sum(f.update(s, v), i) == freq_sum(f.update(s, v), i - 1) + f.update(s, v)[i
            - 1]);
        if i - 1 == s {
            assert(f.update(s, v)[i - 1] == v);
        } else {
            assert(f.update(s, v)[i - 1] == f[i - 1]);
        }
    }
}

/// Sums only read the first `i` entries.
proof fn lemma_freq_sum_agree(f: Seq<u32>, g: Seq<u32>, i: int)
    requires
        forall|t: int| 0 <= t < i ==> f[t] == g[t],
    ensures
        freq_sum(f, i) == freq_sum(g, i),
    decreases i,
{
    if i > 0 {
        lemma_freq_sum_agree(f, g, i - 1);
    }
}

/// With every entry at least one, the sum is at least the entry count.
proof fn lemma_freq_sum_lower(f: Seq<u32>, i: int)
    requires
        forall|t: int| 0 <= t < i ==> 1 <= #[trigger] f[t],
    ensures
        freq_sum(f, i) >= i,
    decreases i,
{
    if i > 0 {
        lemma_freq_sum_lower(f, i - 1);
    }
}

/// The fresh model: every symbol has frequency one.
#[verifier::loop_isolation(false)]
pub fn get_model() -> (m: Model)
    ensures
        model_inv(m),
        forall|s: int| 0 <= s < 257 ==> #[trigger] m.freq@[s] == 1,
{
    let mut freq: Vec<u32> = Vec::new();
    let mut i: usize = 0;
    while i < 257
        invariant
            0 <= i <= 257,
            freq@.len() == i,
            forall|s: int| 0 <= s < i ==> #[trigger] freq@[s] == 1,
            freq_sum(freq@, i as int) == i,
        decreases 257 - i,
    {
        let ghost before = freq@;
        freq.push(1);
        proof {
            lemma_freq_sum_agree(freq@, before, i as int);
            assert(freq_sum(freq@, i + 1 as int) == freq_sum(freq@, i as int) + freq@[i as int]);
        }
        i = i + 1;
    }
    Model { freq, total: 257 }
}

/// Cumulative range of symbol `s`: the sum of all frequencies below it,
/// and that sum plus its own frequency.
#[verifier::loop_isolation(false)]
fn cum_range(m: &Model, s: usize) -> (r: (u32, u32))
    requires
        model_inv(*m),
        s < 257,
    ensures
        r.0 as int == freq_sum(m.freq@, s as int),
        r.1 as int == freq_sum(m.freq@, s as int + 1),
        r.0 < r.1 <= m.total,
{
    let mut cum: u32 = 0;
    let mut j: usize = 0;
    while j < s
        invariant
            0 <= j <= s < 257,
            cum as int == freq_sum(m.freq@, j as int),
        decreases s - j,
    {
        proof {
            lemma_freq_sum_mono(m.freq@, j + 1 as int, 257);
            lemma_freq_sum_nonneg(m.freq@, j as int);
        }
        cum = cum + m.freq[j];
        j = j + 1;
    }
    proof {
        lemma_freq_sum_mono(m.freq@, s as int + 1, 257);
        lemma_freq_sum_nonneg(m.freq@, s as int);
    }
    (cum, cum + m.freq[s])
}

/// Record symbol `s`: halve every count when the total hits the cap, then
/// increment the symbol's count.
#[verifier::loop_isolation(false)]
fn model_update(m: &mut Model, s: usize)
    requires
        model_inv(*old(m)),
        s < 257,
    ensures
        model_inv(*final(m)),
        final(m).freq@ == model_update_spec(old(m).freq@, s as int),
{
    if m.total >= ARI_MAX_TOTAL {
        let ghost oldf = m.freq@;
        let mut newtotal: u32 = 0;
        let mut j: usize = 0;
        while j < 257
            invariant
                0 <= j <= 257,
                m.freq@.len() == 257,
                forall|t: int| j <= t < 257 ==> #[trigger] m.freq@[t] == oldf[t],
                forall|t: int| 0 <= t < j ==> 1 <= #[trigger] m.freq@[t],
                forall|t: int| 0 <= t < j ==> #[trigger] m.freq@[t] == model_rescale_spec(oldf)[t],
                forall|t: int| 0 <= t < 257 ==> 1 <= #[trigger] oldf[t],
                newtotal as int == freq_sum(m.freq@, j as int),
                newtotal as int <= j + freq_sum(oldf, j as int) / 2,
                freq_sum(oldf, 257) <= 65793,
            decreases 257 - j,
        {
            let f = m.freq[j];
            proof {
                lemma_freq_sum_mono(oldf, j + 1 as int, 257);
                lemma_freq_sum_nonneg(oldf, j as int);
                assert(freq_sum(oldf, j + 1 as int) == freq_sum(oldf, j as int) + f);
            }
            let h = (f + 1) / 2;
            let ghost before = m.freq@;
            m.freq[j] = h;
            proof {
                lemma_freq_sum_update(before, j as int, h, j as int);
                assert(freq_sum(m.freq@, j as int) == freq_sum(before, j as int));
                assert(freq_sum(m.freq@, j + 1 as int) == freq_sum(m.freq@, j as int) + h);
                assert(h as int <= f as int / 2 + 1);
                assert(freq_sum(oldf, j as int) / 2 + f as int / 2 <= (freq_sum(oldf, j as int)
                    + f) / 2) by (nonlinear_arith);
            }
            newtotal = newtotal + h;
            j = j + 1;
        }
        m.total = newtotal;
        proof {
            lemma_freq_sum_nonneg(oldf, 257);
            assert(m.freq@ =~= model_rescale_spec(oldf));
        }
    }
    let f = m.freq[s];
    proof {
        lemma_freq_sum_mono(m.freq@, s as int + 1, 257);
        lemma_freq_sum_nonneg(m.freq@, s as int);
        assert(freq_sum(m.freq@, s as int + 1) == freq_sum(m.freq@, s as int) + f);
    }
    let ghost before2 = m.freq@;
    m.freq[s] = f + 1;
    m.total = m.total + 1;
    proof {
        lemma_freq_sum_update(before2, s as int, (f + 1) as u32, 257);
        assert(freq_sum(m.freq@, 257) == freq_sum(before2, 257) + 1);
        assert(m.freq@ == model_update_spec(old(m).freq@, s as int)) by {
            assert(m.freq@ =~= before2.update(s as int, (f + 1) as u32));
        }
    }
}

/// Every stored bit is zero or one.
pub open spec fn bits_ok(bits: Seq<u8>) -> bool {
    forall|i: int| 0 <= i < bits.len() ==> #[trigger] bits[i] <= 1
}

/// The encoder's abstract state: the coding interval, the count of
/// pending carry bits, and the bits emitted so far.
pub struct EncState {
    pub low: int,
    pub high: int,
    pub pending: int,
    pub bits: Seq<u8>,
}

/// Emitting a settled bit: the bit itself, then one opposite bit per
/// pending carry.
pub open spec fn emit_spec(st: EncState, bit: u8) -> EncState {
    EncState {
        low: st.low,
        high: st.high,
        pending: 0,
        bits: st.bits + seq![bit] + seq_repeat(seq![(1 - bit) as u8], st.pending),
    }
}

/// Renormalizing the interval: settled halves emit a bit and double; a
/// straddling middle half defers the bit and doubles.
pub open spec fn renorm_spec(st: EncState) -> EncState
    decreases ARI_TOP - (st.high - st.low),
    when 0 <= st.low < st.high <= ARI_TOP
{
    if st.high <= ARI_HALF {
        let e = emit_spec(st, 0);
        renorm_spec(EncState { low: 2 * st.low, high: 2 * st.high, pending: 0, bits: e.bits })
    } else if st.low >= ARI_HALF {
        let e = emit_spec(st, 1);
        renorm_spec(
            EncState {
                low: 2 * (st.low - ARI_HALF),
                high: 2 * (st.high - ARI_HALF),
                pending: 0,
                bits: e.bits,
            },
        )
    } else if st.low >= ARI_QUARTER && st.high <= ARI_THREEQ {
        renorm_spec(
            EncState {
                low: 2 * (st.low - ARI_QUARTER),
                high: 2 * (st.high - ARI_QUARTER),
                pending: st.pending + 1,
                bits: st.bits,
            },
        )
    } else {
        st
    }
}

/// Coding one symbol: narrow the interval to the symbol's cumulative
/// slice, then renormalize.
pub open spec fn encode_symbol_spec(f: Seq<u32>, s: int, st: EncState) -> EncState {
    let total = freq_sum(f, 257);
    let clo = freq_sum(f, s);
    let chi = freq_sum(f, s + 1);
    let range = st.high - st.low;
    renorm_spec(
        EncState {
            low: st.low + (range * clo) / total,
            high: st.low + (range * chi) / total,
            pending: st.pending,
            bits: st.bits,
        },
    )
}

/// Halving every count, rounding up so none reaches zero.
pub open spec fn model_rescale_spec(f: Seq<u32>) -> Seq<u32> {
    Seq::new(257, |i: int| ((f[i] + 1) / 2) as u32)
}

/// Recording a symbol: rescale at the cap, then increment its count.
pub open spec fn model_update_spec(f: Seq<u32>, s: int) -> Seq<u32> {
    let f2 = if freq_sum(f, 257) >= ARI_MAX_TOTAL {
        model_rescale_spec(f)
    } else {
        f
    };
    f2.update(s, (f2[s] + 1) as u32)
}

/// The flat starting model.
pub open spec fn init_freq() -> Seq<u32> {
    Seq::new(257, |i: int| 1u32)
}

/// The fresh encoder state.
pub open spec fn enc_init() -> EncState {
    EncState { low: 0, high: ARI_TOP as int, pending: 0, bits: Seq::empty() }
}

/// Model and encoder state after coding the first `k` bytes of `data`.
pub open spec fn enc_after(data: Seq<u8>, k: int) -> (Seq<u32>, EncState)
    decreases k,
{
    if k <= 0 {
        (init_freq(), enc_init())
    } else {
        let (f, st) = enc_after(data, k - 1);
        (
            model_update_spec(f, data[k - 1] as int),
            encode_symbol_spec(f, data[k - 1] as int, st),
        )
    }
}

/// Finishing: one more pending bit, the quarter-deciding bit, then
/// padding to a whole byte.
pub open spec fn finish_spec(st: EncState) -> Seq<u8> {
    let st1 = EncState { low: st.low, high: st.high, pending: st.pending + 1, bits: st.bits };
    let bits = if st.low < ARI_QUARTER {
        emit_spec(st1, 0).bits
    } else {
        emit_spec(st1, 1).bits
    };
    bits + seq_repeat(seq![0u8], (8 - (bits.len() as int) % 8) % 8)
}

/// The first `i` bytes packed from a padded bit sequence, MSB-first.
pub open spec fn pack_spec(bits: Seq<u8>, i: int) -> Seq<u8>
    decreases i,
{
    if i <= 0 {
        Seq::empty()
    } else {
        pack_spec(bits, i - 1).push(
            (bits[8 * (i - 1)] * 128 + bits[8 * (i - 1) + 1] * 64 + bits[8 * (i - 1) + 2] * 32
                + bits[8 * (i - 1) + 3] * 16 + bits[8 * (i - 1) + 4] * 8 + bits[8 * (i - 1) + 5]
                * 4 + bits[8 * (i - 1) + 6] * 2 + bits[8 * (i - 1) + 7]) as u8,
        )
    }
}

/// The bytes `arith_encode` produces for `data`.
pub open spec fn arith_encode_spec(data: Seq<u8>) -> Seq<u8> {
    let (f, st) = enc_after(data, data.len() as int);
    let st2 = encode_symbol_spec(f, 256, st);
    let bits = finish_spec(st2);
    pack_spec(bits, bits.len() as int / 8)
}

/// Append `bit`, then the opposite bit once for every pending carry.
#[verifier::loop_isolation(false)]
fn emit_bits(bits: &mut Vec<u8>, pending: &mut u64, bit: u8)
    requires
        bit <= 1,
        bits_ok(old(bits)@),
    ensures
        bits_ok(final(bits)@),
        *final(pending) == 0,
        final(bits)@.len() > old(bits)@.len(),
        final(bits)@ == old(bits)@ + seq![bit] + seq_repeat(
            seq![(1 - bit) as u8],
            *old(pending) as int,
        ),
{
    bits.push(bit);
    proof {
        assert(bits@ =~= old(bits)@ + seq![bit] + seq_repeat(seq![(1 - bit) as u8], 0));
    }
    while *pending > 0
        invariant
            bits_ok(bits@),
            bits@.len() > old(bits)@.len(),
            *pending <= *old(pending),
            bits@ == old(bits)@ + seq![bit] + seq_repeat(
                seq![(1 - bit) as u8],
                *old(pending) - *pending,
            ),
        decreases *pending,
    {
        bits.push(1 - bit);
        proof {
            lemma_seq_repeat_unsnoc(seq![(1 - bit) as u8], *old(pending) - *pending + 1);
            assert(bits@ =~= old(bits)@ + seq![bit] + seq_repeat(
                seq![(1 - bit) as u8],
                *old(pending) - *pending + 1,
            ));
        }
        *pending = *pending - 1;
    }
}

/// A fully renormalized coder interval.
pub open spec fn renormed(low: u64, high: u64) -> bool {
    &&& low < high <= ARI_TOP
    &&& !(high <= ARI_HALF)
    &&& !(low >= ARI_HALF)
    &&& !(low >= ARI_QUARTER && high <= ARI_THREEQ)
}

/// Renormalize the encoder interval, emitting the settled bits.
fn enc_renorm(low: &mut u64, high: &mut u64, pending: &mut u64, bits: &mut Vec<u8>)
    requires
        *old(low) < *old(high) <= ARI_TOP,
        *old(pending) <= 0x00FF_FFFF_FFFF_FFFF,
        bits_ok(old(bits)@),
    ensures
        bits_ok(final(bits)@),
        renormed(*final(low), *final(high)),
        *final(pending) <= *old(pending) + 48,
        ({
            let st0 = EncState {
                low: *old(low) as int,
                high: *old(high) as int,
                pending: *old(pending) as int,
                bits: old(bits)@,
            };
            let st1 = EncState {
                low: *final(low) as int,
                high: *final(high) as int,
                pending: *final(pending) as int,
                bits: final(bits)@,
            };
            renorm_spec(st0) == st1
        }),
{
    let ghost p0 = *pending;
    let ghost r0 = (*old(high) - *old(low)) as int;
    let ghost st0 = EncState {
        low: *old(low) as int,
        high: *old(high) as int,
        pending: *old(pending) as int,
        bits: old(bits)@,
    };
    proof {
        lemma2_to64();
        lemma2_to64_rest();
        assert((*pending - p0) as nat == 0);
        assert(pow2(0) == 1);
        assert(r0 * pow2((*pending - p0) as nat) == r0) by (nonlinear_arith)
            requires
                pow2((*pending - p0) as nat) == 1,
        ;
    }
    #[verifier::loop_isolation(true)]
    loop
        invariant_except_break
            *low < *high <= ARI_TOP,
            bits_ok(bits@),
            *pending <= p0 + 48,
            p0 <= 0x00FF_FFFF_FFFF_FFFF,
            r0 >= 1,
            (*high - *low) as int >= r0,
            *pending >= p0 ==> (*high - *low) as int >= r0 * pow2((*pending - p0) as nat),
            renorm_spec(st0) == renorm_spec(
                EncState {
                    low: *low as int,
                    high: *high as int,
                    pending: *pending as int,
                    bits: bits@,
                },
            ),
        ensures
            bits_ok(bits@),
            renormed(*low, *high),
            *pending <= p0 + 48,
            renorm_spec(st0) == renorm_spec(
                EncState {
                    low: *low as int,
                    high: *high as int,
                    pending: *pending as int,
                    bits: bits@,
                },
            ),
        decreases ARI_TOP - (*high - *low),
    {
        proof {
            lemma2_to64();
            lemma2_to64_rest();
        }
        let ghost drange = (*high - *low) as int;
        let ghost stpre = EncState {
            low: *low as int,
            high: *high as int,
            pending: *pending as int,
            bits: bits@,
        };
        if *high <= ARI_HALF {
            emit_bits(bits, pending, 0);
            *low = 2 * *low;
            *high = 2 * *high;
            proof {
                assert(pow2(0) == 1);
                if *pending >= p0 {
                    assert(*pending == 0 && p0 == 0);
                    assert(r0 * pow2((*pending - p0) as nat) == r0) by (nonlinear_arith)
                        requires
                            pow2((*pending - p0) as nat) == 1,
                    ;
                }
                let stnew = EncState {
                    low: *low as int,
                    high: *high as int,
                    pending: *pending as int,
                    bits: bits@,
                };
                assert(renorm_spec(stpre) == renorm_spec(stnew)) by {
                    assert(stnew == (EncState {
                        low: 2 * stpre.low,
                        high: 2 * stpre.high,
                        pending: 0,
                        bits: emit_spec(stpre, 0).bits,
                    }));
                }
            }
        } else if *low >= ARI_HALF {
            emit_bits(bits, pending, 1);
            *low = 2 * (*low - ARI_HALF);
            *high = 2 * (*high - ARI_HALF);
            proof {
                assert(pow2(0) == 1);
                if *pending >= p0 {
                    assert(*pending == 0 && p0 == 0);
                    assert(r0 * pow2((*pending - p0) as nat) == r0) by (nonlinear_arith)
                        requires
                            pow2((*pending - p0) as nat) == 1,
                    ;
                }
                let stnew = EncState {
                    low: *low as int,
                    high: *high as int,
                    pending: *pending as int,
                    bits: bits@,
                };
                assert(renorm_spec(stpre) == renorm_spec(stnew)) by {
                    assert(stnew == (EncState {
                        low: 2 * (stpre.low - ARI_HALF),
                        high: 2 * (stpre.high - ARI_HALF),
                        pending: 0,
                        bits: emit_spec(stpre, 1).bits,
                    }));
                }
            }
        } else if *low >= ARI_QUARTER && *high <= ARI_THREEQ {
            proof {
                // the interval is still at most a half, so fewer than 48
                // doublings can have happened
                assert((*high - *low) <= ARI_HALF);
                if *pending >= p0 {
                    let d = (*pending - p0) as nat;
                    lemma_pow2_pos(d);
                    if d >= 48 {
                        if d > 48 {
                            lemma_pow2_strictly_increases(48, d);
                        }
                        assert(pow2(d) >= pow2(48));
                        assert(r0 * pow2(d) >= pow2(d)) by (nonlinear_arith)
                            requires
                                r0 >= 1 && pow2(d) >= 1,
                        ;
                        assert(false);
                    }
                    lemma_pow2_unfold((d + 1) as nat);
                    lemma_pow2_pos((d + 1) as nat);
                    assert(pow2((d + 1) as nat) == 2 * pow2(d));
                    assert(2 * drange >= r0 * pow2((d + 1) as nat)) by (nonlinear_arith)
                        requires
                            drange >= r0 * pow2(d),
                            pow2((d + 1) as nat) == 2 * pow2(d),
                            r0 >= 1,
                            pow2(d) >= 1,
                    ;
                } else {
                    assert(pow2(0) == 1);
                }
            }
            let ghost pend_pre = *pending;
            *pending = *pending + 1;
            *low = 2 * (*low - ARI_QUARTER);
            *high = 2 * (*high - ARI_QUARTER);
            proof {
                let stnew = EncState {
                    low: *low as int,
                    high: *high as int,
                    pending: *pending as int,
                    bits: bits@,
                };
                assert(renorm_spec(stpre) == renorm_spec(stnew)) by {
                    assert(stnew == (EncState {
                        low: 2 * (stpre.low - ARI_QUARTER),
                        high: 2 * (stpre.high - ARI_QUARTER),
                        pending: stpre.pending + 1,
                        bits: stpre.bits,
                    }));
                }
                if *pending >= p0 {
                    if pend_pre >= p0 {
                        let d = (pend_pre - p0) as nat;
                        assert((*pending - p0) as nat == d + 1);
                        assert((*high - *low) as int == 2 * drange);
                    } else {
                        assert(*pending == p0);
                        assert((*pending - p0) as nat == 0);
                        assert(pow2(0) == 1);
                        assert(r0 * pow2((*pending - p0) as nat) == r0) by (nonlinear_arith)
                            requires
                                pow2((*pending - p0) as nat) == 1,
                        ;
                    }
                }
            }
        } else {
            proof {
                let stcur = EncState {
                    low: *low as int,
                    high: *high as int,
                    pending: *pending as int,
                    bits: bits@,
                };
                assert(renorm_spec(stcur) == stcur);
            }
            break ;
        }
    }
}

/// Narrow the interval to the cumulative slice `[clo, chi)` of `total`.
fn narrow_interval(low: u64, high: u64, clo: u32, chi: u32, total: u32) -> (r: (u64, u64))
    requires
        low < high <= ARI_TOP,
        (high - low) >= total,
        clo < chi <= total,
        total >= 1,
    ensures
        low <= r.0 < r.1 <= high,
        r.0 as int == low + ((high - low) as int * (clo as int)) / (total as int),
        r.1 as int == low + ((high - low) as int * (chi as int)) / (total as int),
{
    let range = high - low;
    let t = total as u128;
    proof {
        let rr = range as int;
        assert(rr * (clo as int) <= 0x1000000000000 * 0xFFFFFFFF && rr * (chi as int)
            <= 0x1000000000000 * 0xFFFFFFFF && rr * (clo as int) >= 0 && rr * (chi as int) >= 0)
            by (nonlinear_arith)
            requires
                0 <= rr <= 0x1000000000000 && 0 <= clo <= 0xFFFFFFFF && 0 <= chi <= 0xFFFFFFFF,
        ;
    }
    let ql128 = ((range as u128) * (clo as u128)) / t;
    let qh128 = ((range as u128) * (chi as u128)) / t;
    proof {
        let rr = range as int;
        let tt = total as int;
        let cl = clo as int;
        let ch = chi as int;
        lemma_mul_inequality(ch, tt, rr);
        assert(ch * rr <= tt * rr);
        assert(rr * ch == ch * rr && rr * tt == tt * rr) by (nonlinear_arith);
        lemma_multiply_divide_le(rr * ch, tt, rr);
        assert((rr * ch) / tt <= rr);
        lemma_div_pos_is_pos(rr * cl, tt);
        assert(rr * cl >= 0) by (nonlinear_arith)
            requires
                rr >= 0 && cl >= 0,
        ;
        // the slice is non-empty: chi is at least clo + 1
        lemma_mul_inequality(cl + 1, ch, rr);
        assert((cl + 1) * rr <= ch * rr);
        assert(rr * ch >= rr * cl + rr) by (nonlinear_arith)
            requires
                (cl + 1) * rr <= ch * rr,
        ;
        assert(rr * cl + tt <= rr * ch);
        lemma_hoist_over_denominator(rr * cl, 1, total as nat);
        assert((rr * cl) / tt + 1 == (rr * cl + tt) / tt);
        lemma_div_is_ordered(rr * cl + tt, rr * ch, tt);
        assert((rr * cl) / tt < (rr * ch) / tt);
        assert((rr * cl) / tt >= 0);
    }
    let ql = ql128 as u64;
    let qh = qh128 as u64;
    (low + ql, low + qh)
}

/// Encode one symbol and renormalize.
fn encode_symbol(
    m: &Model,
    s: usize,
    low: &mut u64,
    high: &mut u64,
    pending: &mut u64,
    bits: &mut Vec<u8>,
)
    requires
        model_inv(*m),
        s < 257,
        renormed(*old(low), *old(high)),
        *old(pending) <= 0x00FF_FFFF_FFFF_FFFF,
        bits_ok(old(bits)@),
    ensures
        bits_ok(final(bits)@),
        renormed(*final(low), *final(high)),
        *final(pending) <= *old(pending) + 48,
        ({
            let st0 = EncState {
                low: *old(low) as int,
                high: *old(high) as int,
                pending: *old(pending) as int,
                bits: old(bits)@,
            };
            let st1 = EncState {
                low: *final(low) as int,
                high: *final(high) as int,
                pending: *final(pending) as int,
                bits: final(bits)@,
            };
            st1 == encode_symbol_spec(m.freq@, s as int, st0)
        }),
{
    let ghost st0 = EncState {
        low: *old(low) as int,
        high: *old(high) as int,
        pending: *old(pending) as int,
        bits: old(bits)@,
    };
    let (clo, chi) = cum_range(m, s);
    proof {
        // a renormalized interval is wider than a quarter, and so wider
        // than any model total
        assert(*old(high) - *old(low) > ARI_QUARTER);
    }
    let (nl, nh) = narrow_interval(*low, *high, clo, chi, m.total);
    *low = nl;
    *high = nh;
    proof {
        let stmid = EncState {
            low: *low as int,
            high: *high as int,
            pending: *pending as int,
            bits: bits@,
        };
        assert(stmid == (EncState {
            low: st0.low + ((st0.high - st0.low) * freq_sum(m.freq@, s as int)) / freq_sum(
                m.freq@,
                257,
            ),
            high: st0.low + ((st0.high - st0.low) * freq_sum(m.freq@, s as int + 1)) / freq_sum(
                m.freq@,
                257,
            ),
            pending: st0.pending,
            bits: st0.bits,
        }));
    }
    enc_renorm(low, high, pending, bits);
}

/// Pack a 0/1 bit sequence, already padded to whole bytes, MSB-first.
#[verifier::loop_isolation(false)]
fn pack_bits(bits: &Vec<u8>, buf: &mut Vec<u8>)
    requires
        bits_ok(bits@),
        bits@.len() % 8 == 0,
    ensures
        final(buf)@.len() == bits@.len() / 8,
        final(buf)@ == pack_spec(bits@, bits@.len() as int / 8),
{
    buf.clear();
    let nb = bits.len() / 8;
    let mut i: usize = 0;
    while i < nb
        invariant
            0 <= i <= nb,
            nb == bits@.len() / 8,
            8 * nb <= bits@.len(),
            buf@.len() == i,
            buf@ == pack_spec(bits@, i as int),
        decreases nb - i,
    {
        let base = 8 * i;
        let byte = bits[base] * 128 + bits[base + 1] * 64 + bits[base + 2] * 32 + bits[base + 3]
            * 16 + bits[base + 4] * 8 + bits[base + 5] * 4 + bits[base + 6] * 2 + bits[base + 7];
        buf.push(byte);
        i = i + 1;
    }
}

/// Arithmetic-code `data` into `buf`: each byte, then the end-of-stream
/// symbol, finished and padded to a whole byte. Inputs beyond the size
/// field's range are rejected; everything else encodes.
pub fn arith_encode(data: &[u8], buf: &mut Vec<u8>) -> (r: Result<(), MutateError>)
    ensures
        data@.len() <= u32::MAX ==> r is Ok && final(buf)@.len() >= 1 && final(buf)@
            == arith_encode_spec(data@),
        data@.len() > u32::MAX ==> r == Err::<(), MutateError>(MutateError::InputTooLarge),
{
    buf.clear();
    if data.len() > u32::MAX as usize {
        return Err(MutateError::InputTooLarge);
    }
    let mut m = get_model();
    proof {
        assert(m.freq@ =~= init_freq());
    }
    encode_data_with_model(data, &mut m, buf);
    Ok(())
}

/// Range-code every byte of `data` and the end-of-stream symbol against
/// the evolving model `m`, leaving the padded bit stream in `buf`.
#[verifier::loop_isolation(false)]
pub fn encode_data_with_model(data: &[u8], m: &mut Model, buf: &mut Vec<u8>)
    requires
        model_inv(*old(m)),
        old(m).freq@ == init_freq(),
        data@.len() <= u32::MAX,
    ensures
        model_inv(*final(m)),
        final(buf)@.len() >= 1,
        final(buf)@ == arith_encode_spec(data@),
{
    buf.clear();
    let mut low: u64 = 0;
    let mut high: u64 = ARI_TOP;
    let mut pending: u64 = 0;
    let mut bits: Vec<u8> = Vec::new();
    let mut k: usize = 0;
    proof {
        assert(enc_after(data@, 0) == (init_freq(), enc_init()));
    }
    while k < data.len()
        invariant
            0 <= k <= data@.len(),
            data@.len() <= u32::MAX,
            model_inv(*m),
            renormed(low, high),
            bits_ok(bits@),
            pending <= 48 * (k as u64 + 1),
            m.freq@ == enc_after(data@, k as int).0,
            (EncState {
                low: low as int,
                high: high as int,
                pending: pending as int,
                bits: bits@,
            }) == enc_after(data@, k as int).1,
        decreases data@.len() - k,
    {
        let ghost fpre = m.freq@;
        encode_symbol(m, data[k] as usize, &mut low, &mut high, &mut pending, &mut bits);
        model_update(m, data[k] as usize);
        proof {
            assert(enc_after(data@, k + 1).0 == model_update_spec(fpre, data@[k as int] as int));
            assert(enc_after(data@, k + 1).1 == encode_symbol_spec(
                fpre,
                data@[k as int] as int,
                enc_after(data@, k as int).1,
            ));
        }
        k = k + 1;
    }
    let ghost fmain = m.freq@;
    let ghost stmain = EncState {
        low: low as int,
        high: high as int,
        pending: pending as int,
        bits: bits@,
    };
    encode_symbol(m, ARI_EOF, &mut low, &mut high, &mut pending, &mut bits);
    let ghost st2 = EncState {
        low: low as int,
        high: high as int,
        pending: pending as int,
        bits: bits@,
    };
    proof {
        assert(st2 == encode_symbol_spec(fmain, 256, stmain));
    }
    // settle the interval: one more bit decides the final quarter
    pending = pending + 1;
    if low < ARI_QUARTER {
        emit_bits(&mut bits, &mut pending, 0);
    } else {
        emit_bits(&mut bits, &mut pending, 1);
    }
    let ghost emitted = bits@;
    proof {
        let st1 = EncState { low: st2.low, high: st2.high, pending: st2.pending + 1, bits: st2.bits };
        if st2.low < ARI_QUARTER {
            assert(emitted == emit_spec(st1, 0).bits);
        } else {
            assert(emitted == emit_spec(st1, 1).bits);
        }
    }
    let pad = (8 - bits.len() % 8) % 8;
    let mut j: usize = 0;
    proof {
        assert(bits@ =~= emitted + seq_repeat(seq![0u8], 0));
    }
    while j < pad
        invariant
            0 <= j <= pad,
            pad < 8,
            bits_ok(bits@),
            bits@.len() >= 1,
            (bits@.len() + pad - j) % 8 == 0,
            bits@ == emitted + seq_repeat(seq![0u8], j as int),
        decreases pad - j,
    {
        bits.push(0);
        proof {
            lemma_seq_repeat_unsnoc(seq![0u8], j + 1);
            assert(bits@ =~= emitted + seq_repeat(seq![0u8], j + 1));
        }
        j = j + 1;
    }
    proof {
        assert(pad as int == (8 - (emitted.len() as int) % 8) % 8);
        assert(bits@ == finish_spec(st2));
    }
    pack_bits(&bits, buf);
    proof {
        assert(final(buf)@ == arith_encode_spec(data@)) by {
            assert(enc_after(data@, data@.len() as int).0 == fmain);
            assert(enc_after(data@, data@.len() as int).1 == stmain);
        }
    }
}

/// The power of two that selects bit `r` of a byte, MSB-first.
pub open spec fn bit_weight(r: int) -> u8 {
    if r == 0 {
        128
    } else if r == 1 {
        64
    } else if r == 2 {
        32
    } else if r == 3 {
        16
    } else if r == 4 {
        8
    } else if r == 5 {
        4
    } else if r == 6 {
        2
    } else {
        1
    }
}

/// Bit `pos` of `data`, MSB-first; bits past the end read as zero.
pub open spec fn bit_at(data: Seq<u8>, pos: int) -> u8 {
    if pos / 8 >= data.len() {
        0
    } else {
        (data[pos / 8] / bit_weight(pos % 8)) % 2
    }
}

/// The decoder's abstract state: the coding interval, the code value and
/// the count of bits consumed.
pub struct DecState {
    pub low: int,
    pub high: int,
    pub code: int,
    pub consumed: int,
}

/// Renormalizing the decoder interval, shifting fresh bits into the code
/// value; a step past the bit budget is malformed.
pub open spec fn dec_renorm_spec(data: Seq<u8>, limit: int, st: DecState) -> Result<
    DecState,
    MutateError,
>
    decreases ARI_TOP - (st.high - st.low),
    when 0 <= st.low < st.high <= ARI_TOP
{
    if st.high <= ARI_HALF {
        if st.consumed >= limit {
            Err(MutateError::MalformedInput)
        } else {
            dec_renorm_spec(
                data,
                limit,
                DecState {
                    low: 2 * st.low,
                    high: 2 * st.high,
                    code: 2 * st.code + bit_at(data, st.consumed),
                    consumed: st.consumed + 1,
                },
            )
        }
    } else if st.low >= ARI_HALF {
        if st.consumed >= limit {
            Err(MutateError::MalformedInput)
        } else {
            dec_renorm_spec(
                data,
                limit,
                DecState {
                    low: 2 * (st.low - ARI_HALF),
                    high: 2 * (st.high - ARI_HALF),
                    code: 2 * (st.code - ARI_HALF) + bit_at(data, st.consumed),
                    consumed: st.consumed + 1,
                },
            )
        }
    } else if st.low >= ARI_QUARTER && st.high <= ARI_THREEQ {
        if st.consumed >= limit {
            Err(MutateError::MalformedInput)
        } else {
            dec_renorm_spec(
                data,
                limit,
                DecState {
                    low: 2 * (st.low - ARI_QUARTER),
                    high: 2 * (st.high - ARI_QUARTER),
                    code: 2 * (st.code - ARI_QUARTER) + bit_at(data, st.consumed),
                    consumed: st.consumed + 1,
                },
            )
        }
    } else {
        Ok(st)
    }
}

/// Renormalization only moves the bit count forward, never past the
/// budget, and widens the interval.
proof fn lemma_dec_renorm_spec_props(data: Seq<u8>, limit: int, st: DecState)
    requires
        0 <= st.low < st.high <= ARI_TOP,
        st.consumed <= limit,
    ensures
        match dec_renorm_spec(data, limit, st) {
            Ok(st2) => {
                &&& st.consumed <= st2.consumed <= limit
                &&& 0 <= st2.low < st2.high <= ARI_TOP
                &&& st2.high - st2.low >= st.high - st.low
                &&& (st2.consumed == st.consumed ==> st2.high - st2.low == st.high - st.low)
            },
            Err(e) => e == MutateError::MalformedInput,
        },
    decreases ARI_TOP - (st.high - st.low),
{
    if st.high <= ARI_HALF {
        if st.consumed < limit {
            lemma_dec_renorm_spec_props(
                data,
                limit,
                DecState {
                    low: 2 * st.low,
                    high: 2 * st.high,
                    code: 2 * st.code + bit_at(data, st.consumed),
                    consumed: st.consumed + 1,
                },
            );
        }
    } else if st.low >= ARI_HALF {
        if st.consumed < limit {
            lemma_dec_renorm_spec_props(
                data,
                limit,
                DecState {
                    low: 2 * (st.low - ARI_HALF),
                    high: 2 * (st.high - ARI_HALF),
                    code: 2 * (st.code - ARI_HALF) + bit_at(data, st.consumed),
                    consumed: st.consumed + 1,
                },
            );
        }
    } else if st.low >= ARI_QUARTER && st.high <= ARI_THREEQ {
        if st.consumed < limit {
            lemma_dec_renorm_spec_props(
                data,
                limit,
                DecState {
                    low: 2 * (st.low - ARI_QUARTER),
                    high: 2 * (st.high - ARI_QUARTER),
                    code: 2 * (st.code - ARI_QUARTER) + bit_at(data, st.consumed),
                    consumed: st.consumed + 1,
                },
            );
        }
    }
}

/// Read bit `pos` of `data`, MSB-first; bits past the end read as zero.
fn read_bit(data: &[u8], pos: u64) -> (b: u8)
    ensures
        b <= 1,
        b == bit_at(data@, pos as int),
{
    let bi = pos / 8;
    if bi >= data.len() as u64 {
        return 0;
    }
    let byte = data[bi as usize];
    let r = pos % 8;
    let p: u8 = if r == 0 {
        128
    } else if r == 1 {
        64
    } else if r == 2 {
        32
    } else if r == 3 {
        16
    } else if r == 4 {
        8
    } else if r == 5 {
        4
    } else if r == 6 {
        2
    } else {
        1
    };
    (byte / p) % 2
}

/// The symbol whose cumulative slice holds `v`: the smallest `s` with
/// `freq_sum(f, s + 1) > v`, or the end-of-stream symbol.
pub open spec fn find_symbol_spec(f: Seq<u32>, v: int, s: int) -> int
    decreases 257 - s,
    when 0 <= s <= 256
{
    if s >= 256 {
        256
    } else if freq_sum(f, s + 1) > v {
        s
    } else {
        find_symbol_spec(f, v, s + 1)
    }
}

/// One decoded stream, starting from model `f`, state `st` and the bytes
/// `out` already produced: symbols are decoded and appended until the
/// end-of-stream symbol; a stream that cannot be subdivided, leaves the
/// code value outside the chosen slice, exhausts its bit budget or stops
/// narrowing is malformed.
pub open spec fn dec_run_spec(
    data: Seq<u8>,
    limit: int,
    f: Seq<u32>,
    st: DecState,
    out: Seq<u8>,
) -> Result<Seq<u8>, MutateError>
    decreases limit - st.consumed, st.high - st.low,
    when 0 <= st.low < st.high <= ARI_TOP && 0 <= st.consumed <= limit
    via dec_run_spec_decreases
{
    let total = freq_sum(f, 257);
    let range = st.high - st.low;
    if range < total || total < 1 {
        Err(MutateError::MalformedInput)
    } else {
        let v = ((st.code - st.low + 1) * total - 1) / range;
        if v >= total {
            Err(MutateError::MalformedInput)
        } else {
            let s = find_symbol_spec(f, v, 0);
            if s == 256 {
                Ok(out)
            } else {
                let nl = st.low + (range * freq_sum(f, s)) / total;
                let nh = st.low + (range * freq_sum(f, s + 1)) / total;
                if !(nl <= st.code && st.code < nh && nl < nh && nh <= st.high && st.low <= nl) {
                    Err(MutateError::MalformedInput)
                } else {
                    let f2 = model_update_spec(f, s);
                    match dec_renorm_spec(
                        data,
                        limit,
                        DecState { low: nl, high: nh, code: st.code, consumed: st.consumed },
                    ) {
                        Err(e) => Err(e),
                        Ok(st2) => if st2.consumed == st.consumed && st2.high - st2.low >= range {
                            Err(MutateError::MalformedInput)
                        } else {
                            dec_run_spec(data, limit, f2, st2, out.push(s as u8))
                        },
                    }
                }
            }
        }
    }
}

#[via_fn]
proof fn dec_run_spec_decreases(data: Seq<u8>, limit: int, f: Seq<u32>, st: DecState, out: Seq<u8>) {
    let total = freq_sum(f, 257);
    let range = st.high - st.low;
    if range >= total && total >= 1 {
        let v = ((st.code - st.low + 1) * total - 1) / range;
        if v < total {
            let s = find_symbol_spec(f, v, 0);
            if s != 256 {
                let nl = st.low + (range * freq_sum(f, s)) / total;
                let nh = st.low + (range * freq_sum(f, s + 1)) / total;
                if nl <= st.code && st.code < nh && nl < nh && nh <= st.high && st.low <= nl {
                    lemma_dec_renorm_spec_props(
                        data,
                        limit,
                        DecState { low: nl, high: nh, code: st.code, consumed: st.consumed },
                    );
                }
            }
        }
    }
}

/// The code value formed by the first `j` bits of `data`.
pub open spec fn code_fold(data: Seq<u8>, j: int) -> int
    decreases j,
{
    if j <= 0 {
        0
    } else {
        2 * code_fold(data, j - 1) + bit_at(data, j - 1)
    }
}

/// What `arith_decode` computes.
pub open spec fn arith_decode_spec(data: Seq<u8>) -> Result<Seq<u8>, MutateError> {
    if data.len() == 0 || data.len() > u32::MAX {
        Err(MutateError::MalformedInput)
    } else {
        dec_run_spec(
            data,
            8 * (data.len() as int) + 64,
            init_freq(),
            DecState {
                low: 0,
                high: ARI_TOP as int,
                code: code_fold(data, 48),
                consumed: 48,
            },
            Seq::empty(),
        )
    }
}

/// Renormalize the decoder interval, shifting fresh bits into the code
/// value. Fails when the stream would need more bits than it can supply.
fn dec_renorm(
    low: &mut u64,
    high: &mut u64,
    code: &mut u64,
    data: &[u8],
    consumed: &mut u64,
    limit: u64,
) -> (r: Result<(), MutateError>)
    requires
        *old(low) < *old(high) <= ARI_TOP,
        *old(low) <= *old(code) < *old(high),
        *old(consumed) <= limit,
        limit <= 0x0000_FFFF_FFFF_FFFF,
    ensures
        *final(consumed) >= *old(consumed),
        *final(consumed) <= limit,
        match r {
            Ok(()) => {
                &&& renormed(*final(low), *final(high))
                &&& *final(low) <= *final(code) < *final(high)
                &&& *final(high) - *final(low) >= *old(high) - *old(low)
                &&& (*final(consumed) == *old(consumed) ==> *final(high) - *final(low) == *old(
                    high,
                ) - *old(low))
            },
            Err(e) => e == MutateError::MalformedInput,
        },
        ({
            let st0 = DecState {
                low: *old(low) as int,
                high: *old(high) as int,
                code: *old(code) as int,
                consumed: *old(consumed) as int,
            };
            let st1 = DecState {
                low: *final(low) as int,
                high: *final(high) as int,
                code: *final(code) as int,
                consumed: *final(consumed) as int,
            };
            dec_renorm_spec(data@, limit as int, st0) == match r {
                Ok(()) => Ok::<DecState, MutateError>(st1),
                Err(e) => Err::<DecState, MutateError>(e),
            }
        }),
{
    let ghost st0 = DecState {
        low: *old(low) as int,
        high: *old(high) as int,
        code: *old(code) as int,
        consumed: *old(consumed) as int,
    };
    #[verifier::loop_isolation(true)]
    loop
        invariant_except_break
            *low < *high <= ARI_TOP,
            *low <= *code < *high,
            *old(consumed) <= *consumed <= limit,
            limit <= 0x0000_FFFF_FFFF_FFFF,
            *high - *low >= *old(high) - *old(low),
            *consumed == *old(consumed) ==> *high - *low == *old(high) - *old(low),
            st0 == (DecState {
                low: *old(low) as int,
                high: *old(high) as int,
                code: *old(code) as int,
                consumed: *old(consumed) as int,
            }),
            dec_renorm_spec(data@, limit as int, st0) == dec_renorm_spec(
                data@,
                limit as int,
                DecState {
                    low: *low as int,
                    high: *high as int,
                    code: *code as int,
                    consumed: *consumed as int,
                },
            ),
        ensures
            *old(consumed) <= *consumed <= limit,
            renormed(*low, *high),
            *low <= *code < *high,
            *high - *low >= *old(high) - *old(low),
            *consumed == *old(consumed) ==> *high - *low == *old(high) - *old(low),
            dec_renorm_spec(data@, limit as int, st0) == Ok::<DecState, MutateError>(
                DecState {
                    low: *low as int,
                    high: *high as int,
                    code: *code as int,
                    consumed: *consumed as int,
                },
            ),
        decreases ARI_TOP - (*high - *low),
    {
        let ghost stpre = DecState {
            low: *low as int,
            high: *high as int,
            code: *code as int,
            consumed: *consumed as int,
        };
        if *high <= ARI_HALF {
            if *consumed >= limit {
                proof {
                    assert(dec_renorm_spec(data@, limit as int, stpre) == Err::<
                        DecState,
                        MutateError,
                    >(MutateError::MalformedInput));
                }
                return Err(MutateError::MalformedInput);
            }
            let b = read_bit(data, *consumed);
            *consumed = *consumed + 1;
            *low = 2 * *low;
            *high = 2 * *high;
            *code = 2 * *code + b as u64;
            proof {
                assert((DecState {
                    low: *low as int,
                    high: *high as int,
                    code: *code as int,
                    consumed: *consumed as int,
                }) == (DecState {
                    low: 2 * stpre.low,
                    high: 2 * stpre.high,
                    code: 2 * stpre.code + bit_at(data@, stpre.consumed),
                    consumed: stpre.consumed + 1,
                }));
            }
        } else if *low >= ARI_HALF {
            if *consumed >= limit {
                proof {
                    assert(dec_renorm_spec(data@, limit as int, stpre) == Err::<
                        DecState,
                        MutateError,
                    >(MutateError::MalformedInput));
                }
                return Err(MutateError::MalformedInput);
            }
            let b = read_bit(data, *consumed);
            *consumed = *consumed + 1;
            *low = 2 * (*low - ARI_HALF);
            *high = 2 * (*high - ARI_HALF);
            *code = 2 * (*code - ARI_HALF) + b as u64;
            proof {
                assert((DecState {
                    low: *low as int,
                    high: *high as int,
                    code: *code as int,
                    consumed: *consumed as int,
                }) == (DecState {
                    low: 2 * (stpre.low - ARI_HALF),
                    high: 2 * (stpre.high - ARI_HALF),
                    code: 2 * (stpre.code - ARI_HALF) + bit_at(data@, stpre.consumed),
                    consumed: stpre.consumed + 1,
                }));
            }
        } else if *low >= ARI_QUARTER && *high <= ARI_THREEQ {
            if *consumed >= limit {
                proof {
                    assert(dec_renorm_spec(data@, limit as int, stpre) == Err::<
                        DecState,
                        MutateError,
                    >(MutateError::MalformedInput));
                }
                return Err(MutateError::MalformedInput);
            }
            let b = read_bit(data, *consumed);
            *consumed = *consumed + 1;
            *low = 2 * (*low - ARI_QUARTER);
            *high = 2 * (*high - ARI_QUARTER);
            *code = 2 * (*code - ARI_QUARTER) + b as u64;
            proof {
                assert((DecState {
                    low: *low as int,
                    high: *high as int,
                    code: *code as int,
                    consumed: *consumed as int,
                }) == (DecState {
                    low: 2 * (stpre.low - ARI_QUARTER),
                    high: 2 * (stpre.high - ARI_QUARTER),
                    code: 2 * (stpre.code - ARI_QUARTER) + bit_at(data@, stpre.consumed),
                    consumed: stpre.consumed + 1,
                }));
            }
        } else {
            proof {
                assert(dec_renorm_spec(data@, limit as int, stpre) == Ok::<DecState, MutateError>(
                    stpre,
                ));
            }
            break ;
        }
    }
    Ok(())
}

/// Decode an arithmetic-coded stream from `data` into `buf`, stopping at
/// the end-of-stream symbol. Empty input is malformed, as is any stream
/// that exhausts its bits or stops narrowing before reaching it.
pub fn arith_decode(data: &[u8], buf: &mut Vec<u8>) -> (r: Result<(), MutateError>)
    ensures
        match arith_decode_spec(data@) {
            Ok(s) => r is Ok && final(buf)@ == s,
            Err(e) => r == Err::<(), MutateError>(e),
        },
        data@.len() == 0 ==> r == Err::<(), MutateError>(MutateError::MalformedInput),
{
    buf.clear();
    if data.len() == 0 {
        return Err(MutateError::MalformedInput);
    }
    if data.len() > u32::MAX as usize {
        return Err(MutateError::MalformedInput);
    }
    let mut m = get_model();
    proof {
        assert(m.freq@ =~= init_freq());
    }
    decode_data_with_model(data, &mut m, buf)
}

/// Decode symbols against the evolving model `m` until the end-of-stream
/// symbol, a malformed condition, or bit exhaustion.
#[verifier::loop_isolation(false)]
pub fn decode_data_with_model(data: &[u8], m: &mut Model, buf: &mut Vec<u8>) -> (r: Result<
    (),
    MutateError,
>)
    requires
        model_inv(*old(m)),
        old(m).freq@ == init_freq(),
        1 <= data@.len() <= u32::MAX,
    ensures
        ({
            let start = DecState {
                low: 0,
                high: ARI_TOP as int,
                code: code_fold(data@, 48),
                consumed: 48,
            };
            let run = dec_run_spec(
                data@,
                8 * (data@.len() as int) + 64,
                init_freq(),
                start,
                Seq::empty(),
            );
            match run {
                Ok(s) => r is Ok && final(buf)@ == s,
                Err(e) => r == Err::<(), MutateError>(e),
            }
        }),
{
    buf.clear();
    let mut low: u64 = 0;
    let mut high: u64 = ARI_TOP;
    let limit: u64 = 8 * (data.len() as u64) + 64;
    let mut consumed: u64 = 0;
    let mut code: u64 = 0;
    proof {
        lemma2_to64();
        lemma2_to64_rest();
    }
    let mut j: usize = 0;
    while j < 48
        invariant
            0 <= j <= 48,
            consumed == j,
            limit <= 0x0000_00FF_FFFF_FFFF,
            code < pow2(j as nat),
            code as int == code_fold(data@, j as int),
        decreases 48 - j,
    {
        proof {
            lemma2_to64();
            lemma2_to64_rest();
            lemma_pow2_unfold((j + 1) as nat);
            if (j as nat) < 47 {
                lemma_pow2_strictly_increases(j as nat, 47);
            }
            assert(pow2(j as nat) <= pow2(47));
        }
        let b = read_bit(data, consumed);
        code = 2 * code + b as u64;
        consumed = consumed + 1;
        j = j + 1;
    }
    proof {
        lemma2_to64();
        lemma2_to64_rest();
        assert(pow2(48) == ARI_TOP);
    }
    let ghost start = DecState {
        low: 0,
        high: ARI_TOP as int,
        code: code_fold(data@, 48),
        consumed: 48,
    };
    loop
        invariant
            model_inv(*m),
            low < high <= ARI_TOP,
            low <= code < high,
            consumed <= limit,
            limit == 8 * (data@.len() as int) + 64,
            limit <= 0x0000_00FF_FFFF_FFFF,
            data@.len() > 0,
            start == (DecState {
                low: 0,
                high: ARI_TOP as int,
                code: code_fold(data@, 48),
                consumed: 48,
            }),
            dec_run_spec(data@, limit as int, init_freq(), start, Seq::empty())
                == dec_run_spec(
                data@,
                limit as int,
                m.freq@,
                DecState {
                    low: low as int,
                    high: high as int,
                    code: code as int,
                    consumed: consumed as int,
                },
                buf@,
            ),
        decreases limit - consumed, high - low,
    {
        let ghost stcur = DecState {
            low: low as int,
            high: high as int,
            code: code as int,
            consumed: consumed as int,
        };
        let ghost fcur = m.freq@;
        let c0 = consumed;
        let r0 = high - low;
        let range = high - low;
        if range < m.total as u64 {
            return Err(MutateError::MalformedInput);
        }
        let t = m.total as u128;
        proof {
            lemma_freq_sum_lower(m.freq@, 257);
            let x = (code - low + 1) as int;
            assert(x * (m.total as int) >= 1 && x * (m.total as int) <= 0x2000000000000
                * 0x20000) by (nonlinear_arith)
                requires
                    1 <= x <= 0x1000000000000 && 1 <= m.total <= 65793,
            ;
        }
        let v128 = (((code - low + 1) as u128) * t - 1) / (range as u128);
        if v128 >= t {
            return Err(MutateError::MalformedInput);
        }
        let v = v128 as u32;
        // find the symbol whose cumulative slice holds v
        let mut s: usize = 0;
        let mut cum: u32 = 0;
        #[verifier::loop_isolation(true)]
        loop
            invariant_except_break
                0 <= s <= 256,
                model_inv(*m),
                cum as int == freq_sum(m.freq@, s as int),
                cum <= v,
                v < m.total,
                find_symbol_spec(m.freq@, v as int, 0) == find_symbol_spec(
                    m.freq@,
                    v as int,
                    s as int,
                ),
            ensures
                s <= 256,
                model_inv(*m),
                cum as int == freq_sum(m.freq@, s as int),
                cum <= v,
                v < cum + m.freq@[s as int],
                find_symbol_spec(m.freq@, v as int, 0) == s as int,
            decreases 256 - s,
        {
            let f = m.freq[s];
            proof {
                lemma_freq_sum_mono(m.freq@, s as int + 1, 257);
                lemma_freq_sum_nonneg(m.freq@, s as int);
                assert(freq_sum(m.freq@, s as int + 1) == freq_sum(m.freq@, s as int) + f);
            }
            if cum + f > v {
                proof {
                    if s < 256 {
                        assert(find_symbol_spec(m.freq@, v as int, s as int) == s as int);
                    }
                }
                break ;
            }
            proof {
                if s == 256 {
                    assert(cum + f == freq_sum(m.freq@, 257));
                    assert(false);
                }
                assert(find_symbol_spec(m.freq@, v as int, s as int) == find_symbol_spec(
                    m.freq@,
                    v as int,
                    s as int + 1,
                ));
            }
            cum = cum + f;
            s = s + 1;
        }
        if s == ARI_EOF {
            return Ok(());
        }
        let f = m.freq[s];
        proof {
            lemma_freq_sum_mono(m.freq@, s as int + 1, 257);
            lemma_freq_sum_nonneg(m.freq@, s as int);
            assert(freq_sum(m.freq@, s as int + 1) == freq_sum(m.freq@, s as int) + f);
            assert(ARI_QUARTER >= m.total);
        }
        let (nl, nh) = narrow_interval(low, high, cum, cum + f, m.total);
        if !(nl <= code && code < nh) {
            return Err(MutateError::MalformedInput);
        }
        low = nl;
        high = nh;
        buf.push(s as u8);
        model_update(m, s);
        let ghost stnarrow = DecState {
            low: low as int,
            high: high as int,
            code: code as int,
            consumed: consumed as int,
        };
        match dec_renorm(&mut low, &mut high, &mut code, data, &mut consumed, limit) {
            Ok(()) => {},
            Err(e) => {
                proof {
                    assert(dec_renorm_spec(data@, limit as int, stnarrow) == Err::<
                        DecState,
                        MutateError,
                    >(e));
                }
                return Err(e);
            },
        }
        proof {
            assert(dec_renorm_spec(data@, limit as int, stnarrow) == Ok::<DecState, MutateError>(
                DecState {
                    low: low as int,
                    high: high as int,
                    code: code as int,
                    consumed: consumed as int,
                },
            ));
        }
        if consumed == c0 && high - low >= r0 {
            // the stream is not narrowing: treat it as malformed rather
            // than loop forever
            return Err(MutateError::MalformedInput);
        }
    }
}

} // verus!
