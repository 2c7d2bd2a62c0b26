//! Move-to-front coding.
//!
//! A 256-entry table starts as the identity permutation of byte values.
//! Encoding a byte emits its current table index and moves that entry to the
//! front; decoding reads an index, emits the byte found there and performs
//! the same move, so both directions walk identical table states.

use vstd::prelude::*;

use crate::mutator::MutateError;

verus! {

/// The identity table: entry `i` holds byte `i`.
pub open spec fn mtf_init_table() -> Seq<u8> {
    Seq::new(256, |i: int| i as u8)
}

/// `t` with the entry at `idx` moved to the front; entries before `idx`
/// shift one place towards the back.
pub open spec fn mtf_move_to_front(t: Seq<u8>, idx: int) -> Seq<u8> {
    seq![t[idx]] + t.subrange(0, idx) + t.subrange(idx + 1, t.len() as int)
}

pub open spec fn mtf_table_has(t: Seq<u8>, b: u8) -> bool {
    exists|i: int| 0 <= i < t.len() && t[i] == b
}

/// The position of byte `b` in table `t` (unique when `t` is a permutation).
pub open spec fn mtf_index(t: Seq<u8>, b: u8) -> int {
    choose|i: int| 0 <= i < t.len() && t[i] == b
}

/// A full table: 256 entries in which every byte value appears.
pub open spec fn mtf_table_valid(t: Seq<u8>) -> bool {
    &&& t.len() == 256
    &&& forall|b: u8| mtf_table_has(t, b)
}

/// Indices emitted when encoding `data` starting from table `t`.
pub open spec fn mtf_encode_from(t: Seq<u8>, data: Seq<u8>) -> Seq<u8>
    decreases data.len(),
{
    if data.len() == 0 {
        Seq::empty()
    } else {
        let idx = mtf_index(t, data[0]);
        seq![idx as u8] + mtf_encode_from(mtf_move_to_front(t, idx), data.skip(1))
    }
}

/// Bytes recovered when decoding the index stream `data` starting from `t`.
pub open spec fn mtf_decode_from(t: Seq<u8>, data: Seq<u8>) -> Seq<u8>
    decreases data.len(),
{
    if data.len() == 0 {
        Seq::empty()
    } else {
        let idx = data[0] as int;
        seq![t[idx]] + mtf_decode_from(mtf_move_to_front(t, idx), data.skip(1))
    }
}

/// The table reached after encoding `data` from table `t`.
pub open spec fn mtf_enc_table_after(t: Seq<u8>, data: Seq<u8>) -> Seq<u8>
    decreases data.len(),
{
    if data.len() == 0 {
        t
    } else {
        mtf_enc_table_after(mtf_move_to_front(t, mtf_index(t, data[0])), data.skip(1))
    }
}

/// The table reached after decoding the index stream `data` from table `t`.
pub open spec fn mtf_dec_table_after(t: Seq<u8>, data: Seq<u8>) -> Seq<u8>
    decreases data.len(),
{
    if data.len() == 0 {
        t
    } else {
        mtf_dec_table_after(mtf_move_to_front(t, data[0] as int), data.skip(1))
    }
}

/// What `mtf_encode` computes.
pub open spec fn mtf_encode_spec(data: Seq<u8>) -> Seq<u8> {
    mtf_encode_from(mtf_init_table(), data)
}

/// What `mtf_decode` computes.
pub open spec fn mtf_decode_spec(data: Seq<u8>) -> Seq<u8> {
    mtf_decode_from(mtf_init_table(), data)
}

pub proof fn lemma_mtf_init_table_valid()
    ensures
        mtf_table_valid(mtf_init_table()),
{
    assert forall|b: u8| mtf_table_has(mtf_init_table(), b) by {
        assert(mtf_init_table()[b as int] == b);
    }
}

pub proof fn lemma_mtf_move_preserves_valid(t: Seq<u8>, idx: int)
    requires
        mtf_table_valid(t),
        0 <= idx < 256,
    ensures
        mtf_table_valid(mtf_move_to_front(t, idx)),
{
    let t2 = mtf_move_to_front(t, idx);
    assert(t2.len() == 256);
    assert forall|b: u8| mtf_table_has(t2, b) by {
        assert(mtf_table_has(t, b));
        let i = choose|i: int| 0 <= i < t.len() && t[i] == b;
        if i == idx {
            assert(t2[0] == b);
        } else if i < idx {
            assert(t2[i + 1] == t.subrange(0, idx)[i]);
            assert(t2[i + 1] == b);
        } else {
            assert(t2[i] == t.subrange(idx + 1, t.len() as int)[i - idx - 1]);
            assert(t2[i] == b);
        }
    }
}

proof fn lemma_mtf_encode_snoc(t: Seq<u8>, data: Seq<u8>, b: u8)
    ensures
        mtf_encode_from(t, data.push(b)) == mtf_encode_from(t, data).push(
            mtf_index(mtf_enc_table_after(t, data), b) as u8,
        ),
        mtf_enc_table_after(t, data.push(b)) == mtf_move_to_front(
            mtf_enc_table_after(t, data),
            mtf_index(mtf_enc_table_after(t, data), b),
        ),
    decreases data.len(),
{
    reveal_with_fuel(mtf_encode_from, 3);
    reveal_with_fuel(mtf_enc_table_after, 3);
    if data.len() == 0 {
        assert(data.push(b).skip(1) =~= data);
        assert(data.push(b)[0] == b);
        assert(mtf_encode_from(t, data.push(b)) =~= mtf_encode_from(t, data).push(
            mtf_index(mtf_enc_table_after(t, data), b) as u8,
        ));
    } else {
        let idx = mtf_index(t, data[0]);
        let t2 = mtf_move_to_front(t, idx);
        assert(data.push(b)[0] == data[0]);
        assert(data.push(b).skip(1) =~= data.skip(1).push(b));
        lemma_mtf_encode_snoc(t2, data.skip(1), b);
        assert(mtf_encode_from(t, data.push(b)) =~= mtf_encode_from(t, data).push(
            mtf_index(mtf_enc_table_after(t, data), b) as u8,
        ));
    }
}

proof fn lemma_mtf_decode_snoc(t: Seq<u8>, data: Seq<u8>, b: u8)
    ensures
        mtf_decode_from(t, data.push(b)) == mtf_decode_from(t, data).push(
            mtf_dec_table_after(t, data)[b as int],
        ),
        mtf_dec_table_after(t, data.push(b)) == mtf_move_to_front(
            mtf_dec_table_after(t, data),
            b as int,
        ),
    decreases data.len(),
{
    reveal_with_fuel(mtf_decode_from, 3);
    reveal_with_fuel(mtf_dec_table_after, 3);
    if data.len() == 0 {
        assert(data.push(b).skip(1) =~= data);
        assert(data.push(b)[0] == b);
        assert(mtf_decode_from(t, data.push(b)) =~= mtf_decode_from(t, data).push(
            mtf_dec_table_after(t, data)[b as int],
        ));
    } else {
        let idx = data[0] as int;
        let t2 = mtf_move_to_front(t, idx);
        assert(data.push(b)[0] == data[0]);
        assert(data.push(b).skip(1) =~= data.skip(1).push(b));
        lemma_mtf_decode_snoc(t2, data.skip(1), b);
        assert(mtf_decode_from(t, data.push(b)) =~= mtf_decode_from(t, data).push(
            mtf_dec_table_after(t, data)[b as int],
        ));
    }
}

proof fn lemma_mtf_roundtrip_from(t: Seq<u8>, data: Seq<u8>)
    requires
        mtf_table_valid(t),
    ensures
        mtf_decode_from(t, mtf_encode_from(t, data)) == data,
    decreases data.len(),
{
    if data.len() == 0 {
    } else {
        assert(mtf_table_has(t, data[0]));
        let idx = mtf_index(t, data[0]);
        assert(0 <= idx < 256 && t[idx] == data[0]);
        let t2 = mtf_move_to_front(t, idx);
        lemma_mtf_move_preserves_valid(t, idx);
        lemma_mtf_roundtrip_from(t2, data.skip(1));
        let enc = mtf_encode_from(t, data);
        assert(enc[0] == idx as u8);
        assert(enc.skip(1) =~= mtf_encode_from(t2, data.skip(1)));
        assert(mtf_decode_from(t, enc) =~= data);
    }
}

/// Round-trip law: decoding an encoding recovers the original bytes,
/// for every byte sequence.
pub proof fn lemma_mtf_roundtrip(data: Seq<u8>)
    ensures
        mtf_decode_spec(mtf_encode_spec(data)) == data,
{
    lemma_mtf_init_table_valid();
    lemma_mtf_roundtrip_from(mtf_init_table(), data);
}

/// `p` records the position of every table entry: `p[t[i]] == i`.
pub open spec fn mtf_pos_inverse(t: Seq<u8>, p: Seq<u8>) -> bool {
    &&& t.len() == 256
    &&& p.len() == 256
    &&& forall|i: int| 0 <= i < 256 ==> p[#[trigger] t[i] as int] == i as u8
}

/// Move the entry at `idx` to the front of `alphabet`, shifting the entries
/// before it back by one and keeping `pos` as the table's position index.
fn table_move_to_front(alphabet: &mut Vec<u8>, pos: &mut Vec<u8>, idx: u8)
    requires
        mtf_pos_inverse(old(alphabet)@, old(pos)@),
    ensures
        final(alphabet)@ == mtf_move_to_front(old(alphabet)@, idx as int),
        mtf_pos_inverse(final(alphabet)@, final(pos)@),
{
    let ghost t0 = alphabet@;
    let ghost i0 = idx as int;
    if idx == 0 {
        proof {
            assert(mtf_move_to_front(t0, 0) =~= t0);
        }
        return ;
    }
    let b = alphabet[idx as usize];
    let mut j: usize = idx as usize;
    while j > 0
        invariant
            0 <= j <= i0,
            0 < i0 < 256,
            b == t0[i0],
            alphabet.len() == 256,
            pos.len() == 256,
            forall|m: int| 0 <= m <= j ==> alphabet@[m] == t0[m],
            forall|m: int| j < m <= i0 ==> alphabet@[m] == t0[m - 1],
            forall|m: int| i0 < m < 256 ==> alphabet@[m] == t0[m],
            forall|m: int| 0 <= m < j ==> pos@[#[trigger] t0[m] as int] == m as u8,
            forall|m: int| j <= m < i0 ==> pos@[#[trigger] t0[m] as int] == (m + 1) as u8,
            forall|m: int| i0 <= m < 256 ==> pos@[#[trigger] t0[m] as int] == m as u8,
            forall|m1: int, m2: int|
                0 <= m1 < 256 && 0 <= m2 < 256 && m1 != m2 ==> t0[m1] != t0[m2],
        decreases j,
    {
        let v = alphabet[j - 1];
        assert(v == t0[j - 1]);
        alphabet[j] = v;
        pos[v as usize] = j as u8;
        j = j - 1;
    }
    alphabet[0] = b;
    pos[b as usize] = 0;
    proof {
        assert(final(alphabet)@ =~= mtf_move_to_front(t0, i0));
        let ta = final(alphabet)@;
        let pa = final(pos)@;
        assert forall|i: int| 0 <= i < 256 implies pa[#[trigger] ta[i] as int] == i as u8 by {
            if i == 0 {
            } else if i <= i0 {
                assert(ta[i] == t0[i - 1]);
            } else {
                assert(ta[i] == t0[i]);
            }
        }
    }
}

/// Build the identity alphabet table and its position index.
fn init_tables() -> (r: (Vec<u8>, Vec<u8>))
    ensures
        r.0@ == mtf_init_table(),
        mtf_pos_inverse(r.0@, r.1@),
        mtf_table_valid(r.0@),
{
    let mut alphabet: Vec<u8> = Vec::new();
    let mut pos: Vec<u8> = Vec::new();
    let mut i: usize = 0;
    while i < 256
        invariant
            0 <= i <= 256,
            alphabet.len() == i,
            pos.len() == i,
            forall|m: int| 0 <= m < i ==> alphabet@[m] == m as u8,
            forall|m: int| 0 <= m < i ==> pos@[m] == m as u8,
        decreases 256 - i,
    {
        alphabet.push(i as u8);
        pos.push(i as u8);
        i = i + 1;
    }
    proof {
        assert(alphabet@ =~= mtf_init_table());
        lemma_mtf_init_table_valid();
    }
    (alphabet, pos)
}

/// Move-to-front encode `data` into `buf`. Never fails.
#[verifier::loop_isolation(false)]
pub fn mtf_encode(data: &[u8], buf: &mut Vec<u8>) -> (r: Result<(), MutateError>)
    ensures
        r is Ok,
        final(buf)@ == mtf_encode_spec(data@),
{
    buf.clear();
    let (mut alphabet, mut pos) = init_tables();
    let mut k: usize = 0;
    while k < data.len()
        invariant
            0 <= k <= data@.len(),
            alphabet@ == mtf_enc_table_after(mtf_init_table(), data@.take(k as int)),
            buf@ == mtf_encode_from(mtf_init_table(), data@.take(k as int)),
            mtf_pos_inverse(alphabet@, pos@),
            mtf_table_valid(alphabet@),
        decreases data@.len() - k,
    {
        let ghost t = alphabet@;
        let b = data[k];
        let idx = pos[b as usize];
        proof {
            assert(mtf_table_has(t, b));
            let w = choose|i: int| 0 <= i < t.len() && t[i] == b;
            assert(pos@[t[w] as int] == w as u8);
            assert(t[idx as int] == b);
            assert forall|i: int| 0 <= i < 256 && t[i] == b implies i == idx as int by {
                assert(pos@[t[i] as int] == i as u8);
            }
            assert(mtf_index(t, b) == idx as int);
            lemma_mtf_encode_snoc(mtf_init_table(), data@.take(k as int), b);
            assert(data@.take(k + 1 as int) =~= data@.take(k as int).push(b));
        }
        buf.push(idx);
        table_move_to_front(&mut alphabet, &mut pos, idx);
        proof {
            lemma_mtf_move_preserves_valid(t, idx as int);
        }
        k = k + 1;
    }
    proof {
        assert(data@.take(data@.len() as int) =~= data@);
    }
    Ok(())
}

/// Move-to-front decode the index stream `data` into `buf`. Every input is
/// a valid index stream, so decoding never fails.
#[verifier::loop_isolation(false)]
pub fn mtf_decode(data: &[u8], buf: &mut Vec<u8>) -> (r: Result<(), MutateError>)
    ensures
        r is Ok,
        final(buf)@ == mtf_decode_spec(data@),
{
    buf.clear();
    let (mut alphabet, mut pos) = init_tables();
    let mut k: usize = 0;
    while k < data.len()
        invariant
            0 <= k <= data@.len(),
            alphabet@ == mtf_dec_table_after(mtf_init_table(), data@.take(k as int)),
            buf@ == mtf_decode_from(mtf_init_table(), data@.take(k as int)),
            mtf_pos_inverse(alphabet@, pos@),
        decreases data@.len() - k,
    {
        let idx = data[k];
        let sym = alphabet[idx as usize];
        proof {
            lemma_mtf_decode_snoc(mtf_init_table(), data@.take(k as int), idx);
            assert(data@.take(k + 1 as int) =~= data@.take(k as int).push(idx));
        }
        buf.push(sym);
        table_move_to_front(&mut alphabet, &mut pos, idx);
        k = k + 1;
    }
    proof {
        assert(data@.take(data@.len() as int) =~= data@);
    }
    Ok(())
}

} // verus!
