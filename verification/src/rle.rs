//! Run-length encoding.
//!
//! The stream is a sequence of chunks `{L, R, pattern}`: one byte of pattern
//! length `L`, one byte holding `repetitions - 1`, then the `L` pattern
//! bytes; the chunk decodes to the pattern repeated `R + 1` times. The
//! encoder works greedily: at each position it either emits a literal run
//! (one chunk, `R = 0`) of up to 255 bytes, or the repeating pattern that
//! maximises the exact ratio `raw_size / encoded_size`, ties broken by the
//! smaller pattern length; a repeating pattern is used only when its ratio
//! exceeds one.

use vstd::prelude::*;

use crate::mutator::MutateError;

verus! {

/// `pat` repeated `k` times.
pub open spec fn seq_repeat(pat: Seq<u8>, k: int) -> Seq<u8>
    decreases k,
{
    if k <= 0 {
        Seq::empty()
    } else {
        pat + seq_repeat(pat, k - 1)
    }
}

/// Meaning of the chunk stream `data` from offset `pos` on: the
/// concatenation of every chunk's expansion, or an error on a truncated
/// chunk.
pub open spec fn rle_decode_from(data: Seq<u8>, pos: int) -> Result<Seq<u8>, MutateError>
    decreases data.len() - pos,
    when 0 <= pos
{
    if pos >= data.len() {
        Ok(Seq::empty())
    } else if pos + 2 > data.len() {
        Err(MutateError::MalformedInput)
    } else {
        let l = data[pos] as int;
        let reps = data[pos + 1] as int + 1;
        if pos + 2 + l > data.len() {
            Err(MutateError::MalformedInput)
        } else {
            match rle_decode_from(data, pos + 2 + l) {
                Ok(rest) => Ok(seq_repeat(data.subrange(pos + 2, pos + 2 + l), reps) + rest),
                Err(e) => Err(e),
            }
        }
    }
}

/// What `rle_decode` computes.
pub open spec fn rle_decode_spec(data: Seq<u8>) -> Result<Seq<u8>, MutateError> {
    rle_decode_from(data, 0)
}

pub proof fn lemma_seq_repeat_len(pat: Seq<u8>, k: int)
    requires
        k >= 0,
    ensures
        seq_repeat(pat, k).len() == k * pat.len(),
    decreases k,
{
    if k == 0 {
    } else {
        lemma_seq_repeat_len(pat, k - 1);
        assert(k * pat.len() == (k - 1) * pat.len() + pat.len()) by (nonlinear_arith);
    }
}

/// A repetition can also be peeled off at the back.
pub proof fn lemma_seq_repeat_unsnoc(pat: Seq<u8>, k: int)
    requires
        k >= 1,
    ensures
        seq_repeat(pat, k) == seq_repeat(pat, k - 1) + pat,
    decreases k,
{
    reveal_with_fuel(seq_repeat, 2);
    if k == 1 {
        assert(seq_repeat(pat, 1) =~= seq_repeat(pat, 0) + pat);
    } else {
        lemma_seq_repeat_unsnoc(pat, k - 1);
        assert(seq_repeat(pat, k) =~= seq_repeat(pat, k - 1) + pat);
    }
}

/// Window `j` of a `k`-fold repetition is the pattern itself.
proof fn lemma_seq_repeat_window(pat: Seq<u8>, k: int, j: int)
    requires
        0 <= j < k,
    ensures
        seq_repeat(pat, k).subrange(j * (pat.len() as int), (j + 1) * (pat.len() as int))
            == pat,
    decreases j,
{
    lemma_seq_repeat_len(pat, k);
    let ll = pat.len() as int;
    assert(0 <= j * ll && (j + 1) * ll <= k * ll) by (nonlinear_arith)
        requires
            0 <= j < k,
            ll >= 0,
    ;
    if j == 0 {
        assert(0 * ll == 0 && 1 * ll == ll && (0 + 1) * ll == ll) by (nonlinear_arith);
        assert(ll <= k * ll) by (nonlinear_arith)
            requires
                1 <= k && 0 <= ll,
        ;
        assert(seq_repeat(pat, k).subrange(0, ll) =~= pat);
    } else {
        lemma_seq_repeat_window(pat, k - 1, j - 1);
        lemma_seq_repeat_len(pat, k - 1);
        assert((j - 1) * ll == j * ll - ll && (j + 1) * ll == j * ll + ll && j * ll >= ll && (j
            + 1) * ll <= k * ll && j * ll <= (k - 1) * ll) by (nonlinear_arith)
            requires
                1 <= j < k,
                ll >= 0,
        ;
        assert(((j - 1) + 1) * ll == j * ll) by (nonlinear_arith);
        let lhs = seq_repeat(pat, k).subrange(j * ll, (j + 1) * ll);
        let rhs = seq_repeat(pat, k - 1).subrange((j - 1) * ll, j * ll);
        assert(seq_repeat(pat, k) == pat + seq_repeat(pat, k - 1));
        assert forall|m: int| 0 <= m < ll implies lhs[m] == rhs[m] by {
            assert(lhs[m] == seq_repeat(pat, k)[j * ll + m]);
            assert(seq_repeat(pat, k)[j * ll + m] == seq_repeat(pat, k - 1)[j * ll + m - ll]);
            assert(rhs[m] == seq_repeat(pat, k - 1)[(j - 1) * ll + m]);
        }
        assert(lhs =~= rhs);
        assert(rhs == pat);
        assert(lhs == pat);
    }
}

/// If every window of `data` at `start` equals the leading pattern, the
/// whole span is the repeated pattern.
proof fn lemma_windows_to_repeat(data: Seq<u8>, start: int, pl: int, k: int)
    requires
        1 <= pl,
        0 <= start,
        k >= 1,
        start + pl * k <= data.len(),
        forall|j: int|
            0 <= j < k ==> #[trigger] data.subrange(start + j * pl, start + (j + 1) * pl)
                == data.subrange(start, start + pl),
    ensures
        data.subrange(start, start + pl * k) == seq_repeat(data.subrange(start, start + pl), k),
    decreases k,
{
    let pat = data.subrange(start, start + pl);
    reveal_with_fuel(seq_repeat, 2);
    if k == 1 {
        assert(seq_repeat(pat, 1) =~= pat);
        assert(data.subrange(start, start + pl * 1) =~= pat);
    } else {
        assert(pl * (k - 1) == pl * k - pl && pl * (k - 1) >= pl) by (nonlinear_arith)
            requires
                pl >= 1 && k >= 2,
        ;
        lemma_windows_to_repeat(data, start, pl, k - 1);
        lemma_seq_repeat_unsnoc(pat, k);
        lemma_seq_repeat_len(pat, k - 1);
        assert((k - 1) * pl == pl * (k - 1) && k * pl == pl * k && ((k - 1) + 1) * pl == k * pl)
            by (nonlinear_arith);
        assert(data.subrange(start + (k - 1) * pl, start + ((k - 1) + 1) * pl) == data.subrange(
            start,
            start + pl,
        ));
        assert(data.subrange(start + (k - 1) * pl, start + k * pl) == pat);
        assert(data.subrange(start, start + pl * k) =~= data.subrange(start, start + pl * (k - 1))
            + data.subrange(start + (k - 1) * pl, start + k * pl));
    }
}

/// Conversely, a repeated span matches the pattern on every window.
proof fn lemma_repeat_to_window(data: Seq<u8>, start: int, pl: int, k: int, j: int)
    requires
        1 <= pl,
        0 <= start,
        0 <= j < k,
        start + pl * k <= data.len(),
        data.subrange(start, start + pl * k) == seq_repeat(data.subrange(start, start + pl), k),
    ensures
        data.subrange(start + j * pl, start + (j + 1) * pl) == data.subrange(start, start + pl),
{
    let pat = data.subrange(start, start + pl);
    lemma_seq_repeat_window(pat, k, j);
    assert(0 <= j * pl && (j + 1) * pl == j * pl + pl && (j + 1) * pl <= k * pl && k * pl == pl
        * k) by (nonlinear_arith)
        requires
            0 <= j < k && pl >= 1,
    ;
    assert(data.subrange(start + j * pl, start + (j + 1) * pl) =~= data.subrange(
        start,
        start + pl * k,
    ).subrange(j * pl, (j + 1) * pl));
}

/// Decoding only looks at the bytes from `pos` on.
proof fn lemma_rle_decode_shift(a: Seq<u8>, b: Seq<u8>, pos: int)
    requires
        0 <= pos,
    ensures
        rle_decode_from(a + b, a.len() + pos) == rle_decode_from(b, pos),
    decreases b.len() - pos,
{
    let al = a.len() as int;
    if pos >= b.len() {
    } else if pos + 2 > b.len() {
    } else {
        let l = b[pos] as int;
        assert((a + b)[al + pos] == b[pos]);
        assert((a + b)[al + pos + 1] == b[pos + 1]);
        if pos + 2 + l > b.len() {
        } else {
            lemma_rle_decode_shift(a, b, pos + 2 + l);
            assert((a + b).subrange(al + pos + 2, al + pos + 2 + l) =~= b.subrange(
                pos + 2,
                pos + 2 + l,
            ));
        }
    }
}

/// Decoding a well-formed stream followed by more chunks decodes both parts
/// in order.
proof fn lemma_rle_decode_append(d1: Seq<u8>, d2: Seq<u8>, pos: int)
    requires
        0 <= pos <= d1.len(),
        rle_decode_from(d1, pos) is Ok,
    ensures
        rle_decode_from(d1 + d2, pos) == match (rle_decode_from(d1, pos), rle_decode_from(d2, 0)) {
            (Ok(x), Ok(y)) => Ok::<Seq<u8>, MutateError>(x + y),
            (Ok(x), Err(e)) => Err::<Seq<u8>, MutateError>(e),
            (Err(e), _) => Err::<Seq<u8>, MutateError>(e),
        },
    decreases d1.len() - pos,
{
    if pos >= d1.len() {
        assert(pos == d1.len());
        lemma_rle_decode_shift(d1, d2, 0);
        assert(rle_decode_from(d1 + d2, pos) == rle_decode_from(d2, 0));
        if rle_decode_from(d2, 0) is Ok {
            let y = rle_decode_from(d2, 0)->Ok_0;
            assert(Seq::<u8>::empty() + y =~= y);
        }
    } else {
        let l = d1[pos] as int;
        assert((d1 + d2)[pos] == d1[pos]);
        assert((d1 + d2)[pos + 1] == d1[pos + 1]);
        assert(pos + 2 <= d1.len() && pos + 2 + l <= d1.len());
        assert((d1 + d2).subrange(pos + 2, pos + 2 + l) =~= d1.subrange(pos + 2, pos + 2 + l));
        lemma_rle_decode_append(d1, d2, pos + 2 + l);
        let pat = d1.subrange(pos + 2, pos + 2 + l);
        let reps = d1[pos + 1] as int + 1;
        match (rle_decode_from(d1, pos + 2 + l), rle_decode_from(d2, 0)) {
            (Ok(x), Ok(y)) => {
                assert(seq_repeat(pat, reps) + (x + y) =~= (seq_repeat(pat, reps) + x) + y);
            },
            _ => {},
        }
    }
}

/// One well-formed chunk at the head of the pattern: `{L, R, pattern}`.
pub struct RleChunk {
    pub string_length: u8,
    /// `actual_repetitions - 1`, so that one byte covers 256 repetitions and
    /// the useless zero-repetition case cannot be written.
    pub repetitions_minus_one: u8,
    pub string: Vec<u8>,
}

impl RleChunk {
    /// Encoded size of this chunk: two header bytes plus the pattern.
    pub fn get_size(&self) -> (r: usize)
        requires
            self.string@.len() <= usize::MAX - 2,
        ensures
            r == 2 + self.string@.len(),
    {
        2 + self.string.len()
    }
}

/// The bytes a chunk contributes to the stream.
pub open spec fn rle_chunk_bytes(c: &RleChunk) -> Seq<u8> {
    seq![c.string_length, c.repetitions_minus_one] + c.string@
}

pub open spec fn rle_chunks_bytes(cs: Seq<RleChunk>) -> Seq<u8>
    decreases cs.len(),
{
    if cs.len() == 0 {
        Seq::empty()
    } else {
        rle_chunk_bytes(&cs[0]) + rle_chunks_bytes(cs.skip(1))
    }
}

proof fn lemma_rle_chunks_bytes_snoc(cs: Seq<RleChunk>, c: RleChunk)
    ensures
        rle_chunks_bytes(cs.push(c)) == rle_chunks_bytes(cs) + rle_chunk_bytes(&c),
    decreases cs.len(),
{
    reveal_with_fuel(rle_chunks_bytes, 3);
    if cs.len() == 0 {
        assert(cs.push(c).skip(1) =~= cs);
        assert(rle_chunks_bytes(cs.push(c)) =~= rle_chunks_bytes(cs) + rle_chunk_bytes(&c));
    } else {
        assert(cs.push(c).skip(1) =~= cs.skip(1).push(c));
        lemma_rle_chunks_bytes_snoc(cs.skip(1), c);
        assert(rle_chunks_bytes(cs.push(c)) =~= rle_chunks_bytes(cs) + rle_chunk_bytes(&c));
    }
}

/// A repeating pattern that can stand at `start`: pattern length `pl`,
/// repeated `k` times within the data, both within the one-byte fields.
pub open spec fn rle_candidate(data: Seq<u8>, start: int, pl: int, k: int) -> bool {
    &&& 1 <= pl <= 255
    &&& 1 <= k <= 256
    &&& start + pl * k <= data.len()
    &&& data.subrange(start, start + pl * k) == seq_repeat(data.subrange(start, start + pl), k)
}

/// Exact comparison `pl1*k1/(2+pl1) > pl2*k2/(2+pl2)`, cross-multiplied.
pub open spec fn rle_better(pl1: int, k1: int, pl2: int, k2: int) -> bool {
    pl1 * k1 * (2 + pl2) > pl2 * k2 * (2 + pl1)
}

/// Ratio strictly above one: the chunk saves space.
pub open spec fn rle_worth(pl: int, k: int) -> bool {
    pl * k > 2 + pl
}

/// From `n1/d1 <= n2/d2` and `n2/d2 < n3/d3` conclude `n1/d1 < n3/d3`,
/// all denominators positive, fractions compared by cross-multiplication.
proof fn lemma_ratio_le_lt(n1: int, d1: int, n2: int, d2: int, n3: int, d3: int)
    requires
        d1 > 0,
        d2 > 0,
        d3 > 0,
        n1 * d2 <= n2 * d1,
        n2 * d3 < n3 * d2,
    ensures
        n1 * d3 < n3 * d1,
{
    assert((n1 * d2) * d3 <= (n2 * d1) * d3) by (nonlinear_arith)
        requires
            d3 > 0 && n1 * d2 <= n2 * d1,
    ;
    assert((n2 * d3) * d1 < (n3 * d2) * d1) by (nonlinear_arith)
        requires
            d1 > 0 && n2 * d3 < n3 * d2,
    ;
    assert((n1 * d3) * d2 < (n3 * d1) * d2) by (nonlinear_arith)
        requires
            (n1 * d2) * d3 <= (n2 * d1) * d3 && (n2 * d3) * d1 < (n3 * d2) * d1,
    ;
    assert(n1 * d3 < n3 * d1) by (nonlinear_arith)
        requires
            d2 > 0 && (n1 * d3) * d2 < (n3 * d1) * d2,
    ;
}

/// As above with both comparisons non-strict.
proof fn lemma_ratio_le_le(n1: int, d1: int, n2: int, d2: int, n3: int, d3: int)
    requires
        d1 > 0,
        d2 > 0,
        d3 > 0,
        n1 * d2 <= n2 * d1,
        n2 * d3 <= n3 * d2,
    ensures
        n1 * d3 <= n3 * d1,
{
    assert((n1 * d2) * d3 <= (n2 * d1) * d3) by (nonlinear_arith)
        requires
            d3 > 0 && n1 * d2 <= n2 * d1,
    ;
    assert((n2 * d3) * d1 <= (n3 * d2) * d1) by (nonlinear_arith)
        requires
            d1 > 0 && n2 * d3 <= n3 * d2,
    ;
    assert((n1 * d3) * d2 <= (n3 * d1) * d2) by (nonlinear_arith)
        requires
            (n1 * d2) * d3 <= (n2 * d1) * d3 && (n2 * d3) * d1 <= (n3 * d2) * d1,
    ;
    assert(n1 * d3 <= n3 * d1) by (nonlinear_arith)
        requires
            d2 > 0 && (n1 * d3) * d2 <= (n3 * d1) * d2,
    ;
}

pub open spec fn rle_repeat_available(data: Seq<u8>, start: int) -> bool {
    exists|pl: int, k: int| rle_candidate(data, start, pl, k) && rle_worth(pl, k)
}

/// Length of the literal chunk taken when no repeating pattern saves space.
pub open spec fn rle_literal_len(data: Seq<u8>, start: int) -> int {
    if data.len() - start < 255 {
        data.len() - start
    } else {
        255
    }
}

/// The greedy selection at `start`: the space-saving candidate with the
/// best exact ratio (ties to the smaller pattern length), or the maximal
/// literal run when no candidate saves space.
pub open spec fn rle_chunk_choice(data: Seq<u8>, start: int, pl: int, k: int) -> bool {
    if rle_repeat_available(data, start) {
        &&& rle_candidate(data, start, pl, k)
        &&& rle_worth(pl, k)
        &&& (forall|p2: int, k2: int|
            rle_candidate(data, start, p2, k2) ==> !rle_better(p2, k2, pl, k))
        &&& (forall|p2: int, k2: int|
            rle_candidate(data, start, p2, k2) && !rle_better(pl, k, p2, k2) ==> pl <= p2)
    } else {
        pl == rle_literal_len(data, start) && k == 1
    }
}

/// The chunk sequence produced by greedy selection over all of `data`
/// from `start` on.
pub open spec fn rle_greedy_chunks(data: Seq<u8>, start: int, cs: Seq<RleChunk>) -> bool
    decreases cs.len(),
{
    if start >= data.len() {
        cs.len() == 0
    } else {
        &&& cs.len() > 0
        &&& {
            let pl = cs[0].string_length as int;
            let k = cs[0].repetitions_minus_one as int + 1;
            &&& rle_chunk_choice(data, start, pl, k)
            &&& cs[0].string@ == data.subrange(start, start + pl)
            &&& start + pl * k <= data.len()
            &&& data.subrange(start, start + pl * k) == seq_repeat(
                data.subrange(start, start + pl),
                k,
            )
            &&& rle_greedy_chunks(data, start + pl * k, cs.skip(1))
        }
    }
}

/// What `rle_encode` produces: the serialization of the greedy chunking.
pub open spec fn rle_encode_rel(data: Seq<u8>, out: Seq<u8>) -> bool {
    exists|cs: Seq<RleChunk>|
        rle_greedy_chunks(data, 0, cs) && out == rle_chunks_bytes(cs)
}

/// Greedy chunks decode back to the data they were built from.
proof fn lemma_greedy_chunks_decode(data: Seq<u8>, start: int, cs: Seq<RleChunk>)
    requires
        0 <= start <= data.len(),
        rle_greedy_chunks(data, start, cs),
    ensures
        rle_decode_from(rle_chunks_bytes(cs), 0) == Ok::<Seq<u8>, MutateError>(data.skip(start)),
    decreases cs.len(),
{
    if start >= data.len() {
        assert(cs.len() == 0);
        assert(data.skip(start) =~= Seq::<u8>::empty());
    } else {
        let pl = cs[0].string_length as int;
        let k = cs[0].repetitions_minus_one as int + 1;
        let cb = rle_chunk_bytes(&cs[0]);
        let rest = rle_chunks_bytes(cs.skip(1));
        assert(pl * k >= 1) by (nonlinear_arith)
            requires
                pl >= 1 && k >= 1,
        ;
        lemma_greedy_chunks_decode(data, start + pl * k, cs.skip(1));
        // the head chunk parses to exactly its own bytes
        assert(cb.len() == 2 + pl);
        assert(rle_decode_from(cb, 2 + pl) == Ok::<Seq<u8>, MutateError>(Seq::empty()));
        assert(cb.subrange(2, 2 + pl) =~= cs[0].string@);
        assert(rle_decode_from(cb, 0) == Ok::<Seq<u8>, MutateError>(
            seq_repeat(cs[0].string@, k) + Seq::<u8>::empty(),
        ));
        lemma_rle_decode_append(cb, rest, 0);
        assert(rle_chunks_bytes(cs) == cb + rest);
        let tail = data.skip(start + pl * k);
        assert(seq_repeat(cs[0].string@, k) + Seq::<u8>::empty() =~= seq_repeat(
            cs[0].string@,
            k,
        ));
        assert((seq_repeat(cs[0].string@, k)) + tail =~= data.skip(start)) by {
            lemma_seq_repeat_len(cs[0].string@, k);
            assert(seq_repeat(cs[0].string@, k) == data.subrange(start, start + pl * k));
        }
    }
}

/// Round-trip law: any output of the greedy encoder decodes back to the
/// exact input, for every byte sequence.
pub proof fn lemma_rle_roundtrip(data: Seq<u8>, out: Seq<u8>)
    requires
        rle_encode_rel(data, out),
    ensures
        rle_decode_spec(out) == Ok::<Seq<u8>, MutateError>(data),
{
    let cs = choose|cs: Seq<RleChunk>|
        rle_greedy_chunks(data, 0, cs) && out == rle_chunks_bytes(cs);
    lemma_greedy_chunks_decode(data, 0, cs);
    assert(data.skip(0) =~= data);
}

/// Compare `data[a..a+len]` and `data[b..b+len]` bytewise.
#[verifier::loop_isolation(false)]
fn ranges_eq(data: &[u8], a: usize, b: usize, len: usize) -> (r: bool)
    requires
        a + len <= data@.len(),
        b + len <= data@.len(),
    ensures
        r == (data@.subrange(a as int, a + len) == data@.subrange(b as int, b + len)),
{
    let n = data.len();
    let mut i: usize = 0;
    while i < len
        invariant
            0 <= i <= len,
            a + len <= n == data@.len(),
            b + len <= n,
            forall|j: int| 0 <= j < i ==> #[trigger] data@[a + j] == data@[b + j],
        decreases len - i,
    {
        if data[a + i] != data[b + i] {
            proof {
                let sa = data@.subrange(a as int, a + len);
                let sb = data@.subrange(b as int, b + len);
                assert(sa[i as int] != sb[i as int]);
            }
            return false;
        }
        i = i + 1;
    }
    proof {
        let sa = data@.subrange(a as int, a + len);
        let sb = data@.subrange(b as int, b + len);
        assert forall|m: int| 0 <= m < len implies sa[m] == sb[m] by {
            assert(data@[a + m] == data@[b + m]);
        }
        assert(sa =~= sb);
    }
    true
}

/// Copy `data[from..to]` into a fresh vector.
#[verifier::loop_isolation(false)]
fn copy_range(data: &[u8], from: usize, to: usize) -> (r: Vec<u8>)
    requires
        from <= to <= data@.len(),
    ensures
        r@ == data@.subrange(from as int, to as int),
{
    let mut out: Vec<u8> = Vec::new();
    let mut i: usize = from;
    while i < to
        invariant
            from <= i <= to,
            out@ == data@.subrange(from as int, i as int),
        decreases to - i,
    {
        out.push(data[i]);
        proof {
            assert(out@ =~= data@.subrange(from as int, i + 1 as int));
        }
        i = i + 1;
    }
    out
}

/// Count how often the pattern `data[start..start+pl]` repeats from
/// `start` on, capped at 256 repetitions.
#[verifier::loop_isolation(false)]
fn rle_run_count(data: &[u8], start: usize, pl: usize) -> (k: usize)
    requires
        1 <= pl <= 255,
        start + pl <= data@.len(),
    ensures
        1 <= k <= 256,
        start + pl * k <= data@.len(),
        data@.subrange(start as int, start + pl * k) == seq_repeat(
            data@.subrange(start as int, start + pl),
            k as int,
        ),
        forall|k2: int| k < k2 ==> !rle_candidate(data@, start as int, pl as int, k2),
{
    let n = data.len();
    let ghost pat = data@.subrange(start as int, start + pl);
    let mut k: usize = 1;
    proof {
        assert(pl * 1 == pl) by (nonlinear_arith);
        assert forall|j: int| 0 <= j < 1 implies #[trigger] data@.subrange(
            start + j * pl,
            start + (j + 1) * pl,
        ) == pat by {
            assert(j == 0);
            assert(data@.subrange(start + 0 * pl, start + (0 + 1) * pl) == pat) by {
                assert(0 * pl == 0 && (0 + 1) * pl == pl) by (nonlinear_arith);
            }
        }
        lemma_windows_to_repeat(data@, start as int, pl as int, 1);
    }
    loop
        invariant
            1 <= k <= 256,
            1 <= pl <= 255,
            start + pl <= n == data@.len(),
            start + pl * k <= n,
            forall|j: int|
                0 <= j < k ==> #[trigger] data@.subrange(start + j * pl, start + (j + 1) * pl)
                    == pat,
            data@.subrange(start as int, start + pl * k) == seq_repeat(pat, k as int),
        decreases 256 - k,
    {
        if k == 256 {
            proof {
                assert forall|k2: int| k < k2 implies !rle_candidate(
                    data@,
                    start as int,
                    pl as int,
                    k2,
                ) by {}
            }
            return k;
        }
        proof {
            assert(pl * k <= 255 * 256) by (nonlinear_arith)
                requires
                    1 <= pl <= 255 && 1 <= k <= 256,
            ;
            assert(pl * (k + 1) == pl * k + pl) by (nonlinear_arith);
        }
        if n - start < pl * k + pl {
            proof {
                assert forall|k2: int| k < k2 implies !rle_candidate(
                    data@,
                    start as int,
                    pl as int,
                    k2,
                ) by {
                    if rle_candidate(data@, start as int, pl as int, k2) {
                        assert(pl * k2 >= pl * (k + 1)) by (nonlinear_arith)
                            requires
                                k2 >= k + 1 && pl >= 1,
                        ;
                    }
                }
            }
            return k;
        }
        if !ranges_eq(data, start, start + pl * k, pl) {
            proof {
                assert forall|k2: int| k < k2 implies !rle_candidate(
                    data@,
                    start as int,
                    pl as int,
                    k2,
                ) by {
                    if rle_candidate(data@, start as int, pl as int, k2) {
                        lemma_repeat_to_window(data@, start as int, pl as int, k2, k as int);
                        assert(data@.subrange(start + k * pl, start + (k + 1) * pl)
                            == data@.subrange(start as int, start + pl));
                        assert(k * pl == pl * k && (k + 1) * pl == pl * k + pl) by (
                        nonlinear_arith);
                    }
                }
            }
            return k;
        }
        proof {
            let kk = k as int;
            assert(data@.subrange(start + kk * pl, start + (kk + 1) * pl) == pat) by {
                assert(kk * pl == pl * kk && (kk + 1) * pl == pl * kk + pl) by (nonlinear_arith);
            }
            assert forall|j: int|
                0 <= j < kk + 1 implies #[trigger] data@.subrange(start + j * pl, start + (j + 1) * pl)
                == pat by {}
            lemma_windows_to_repeat(data@, start as int, pl as int, kk + 1);
        }
        k = k + 1;
    }
}

/// The Rle compressor. The `debug` flag is kept for API compatibility and
/// has no effect on the produced bytes.
#[derive(Clone, Copy)]
pub struct Rle {
    pub debug: bool,
}

impl Rle {
    /// Pick the best chunk starting at `start`, returning the chunk and how
    /// many input bytes it covers.
    #[verifier::loop_isolation(false)]
    pub fn find_optimal_chunk(&self, data: &[u8], start: usize) -> (r: (RleChunk, usize))
        requires
            start < data@.len(),
        ensures
            ({
                let (chunk, advance) = r;
                let pl = chunk.string_length as int;
                let k = chunk.repetitions_minus_one as int + 1;
                &&& rle_chunk_choice(data@, start as int, pl, k)
                &&& chunk.string@ == data@.subrange(start as int, start as int + pl)
                &&& advance == pl * k
                &&& 1 <= advance
                &&& start + advance <= data@.len()
                &&& data@.subrange(start as int, start as int + advance) == seq_repeat(
                    chunk.string@,
                    k,
                )
            }),
    {
        let n = data.len();
        let max_pl: usize = if n - start < 255 {
            n - start
        } else {
            255
        };
        let mut found: bool = false;
        let mut best_pl: usize = 1;
        let mut best_k: usize = 1;
        let mut pl: usize = 1;
        while pl <= max_pl
            invariant
                1 <= pl <= max_pl + 1,
                max_pl == rle_literal_len(data@, start as int),
                found ==> rle_candidate(data@, start as int, best_pl as int, best_k as int),
                found ==> rle_worth(best_pl as int, best_k as int),
                found ==> (best_pl as int) < pl,
                found ==> (forall|p2: int, k2: int|
                    1 <= p2 < pl && rle_candidate(data@, start as int, p2, k2) ==> !rle_better(
                        p2,
                        k2,
                        best_pl as int,
                        best_k as int,
                    )),
                found ==> (forall|p2: int, k2: int|
                    1 <= p2 < pl && rle_candidate(data@, start as int, p2, k2) && !rle_better(
                        best_pl as int,
                        best_k as int,
                        p2,
                        k2,
                    ) ==> best_pl as int <= p2),
                !found ==> (forall|p2: int, k2: int|
                    1 <= p2 < pl && rle_candidate(data@, start as int, p2, k2) ==> !rle_worth(
                        p2,
                        k2,
                    )),
            decreases max_pl + 1 - pl,
        {
            let k = rle_run_count(data, start, pl);
            proof {
                assert((pl as int) * (k as int) <= 65280) by (nonlinear_arith)
                    requires
                        1 <= pl <= 255 && 1 <= k <= 256,
                ;
                // every candidate with this pattern length has at most (pl, k)'s ratio
                assert forall|k2: int|
                    rle_candidate(data@, start as int, pl as int, k2) implies !rle_better(
                    pl as int,
                    k2,
                    pl as int,
                    k as int,
                ) by {
                    if k2 > k as int {
                        assert(!rle_candidate(data@, start as int, pl as int, k2));
                    } else {
                        assert(pl * k2 * (2 + pl) <= pl * k * (2 + pl)) by (nonlinear_arith)
                            requires
                                k2 <= k as int && pl >= 1 && k >= 1,
                        ;
                    }
                }
            }
            let worth = (pl as u64) * (k as u64) > 2 + pl as u64;
            let better = if found {
                proof {
                    assert((pl as int) * (k as int) * (2 + best_pl as int) <= 255 * 256 * 257 && (
                    best_pl as int) * (best_k as int) * (2 + pl as int) <= 255 * 256 * 257) by (
                    nonlinear_arith)
                        requires
                            1 <= pl <= 255 && 1 <= k <= 256 && 1 <= best_pl <= 255 && 1 <= best_k
                                <= 256,
                    ;
                }
                (pl as u64) * (k as u64) * (2 + best_pl as u64) > (best_pl as u64) * (best_k
                    as u64) * (2 + pl as u64)
            } else {
                false
            };
            if worth && (!found || better) {
                proof {
                    let gpl = pl as int;
                    let gk = k as int;
                    let obp = best_pl as int;
                    let obk = best_k as int;
                    let gs = start as int;
                    assert(rle_worth(gpl, gk));
                    // the new best dominates everything seen so far, strictly
                    // where the pattern is shorter
                    assert forall|p2: int, k2: int|
                        1 <= p2 < gpl && rle_candidate(data@, gs, p2, k2) implies rle_better(
                        gpl,
                        gk,
                        p2,
                        k2,
                    ) by {
                        if found {
                            assert(!rle_better(p2, k2, obp, obk));
                            assert(rle_better(gpl, gk, obp, obk));
                            lemma_ratio_le_lt(
                                p2 * k2,
                                2 + p2,
                                obp * obk,
                                2 + obp,
                                gpl * gk,
                                2 + gpl,
                            );
                        } else {
                            assert(!rle_worth(p2, k2));
                            assert(p2 * k2 * (2 + gpl) < gpl * gk * (2 + p2)) by (nonlinear_arith)
                                requires
                                    p2 >= 1 && gpl >= 1 && p2 * k2 <= 2 + p2 && gpl * gk >= 3
                                        + gpl,
                            ;
                        }
                    }
                    assert forall|p2: int, k2: int|
                        1 <= p2 < gpl + 1 && rle_candidate(data@, gs, p2, k2) implies !rle_better(
                        p2,
                        k2,
                        gpl,
                        gk,
                    ) by {
                        if p2 < gpl {
                            assert(rle_better(gpl, gk, p2, k2));
                            assert(!rle_better(p2, k2, gpl, gk)) by (nonlinear_arith)
                                requires
                                    gpl * gk * (2 + p2) > p2 * k2 * (2 + gpl),
                            ;
                        }
                    }
                }
                found = true;
                best_pl = pl;
                best_k = k;
            } else {
                proof {
                    let gpl = pl as int;
                    let gk = k as int;
                    let obp = best_pl as int;
                    let obk = best_k as int;
                    let gs = start as int;
                    if found {
                        // the old best still dominates the candidates at pl
                        assert forall|p2: int, k2: int|
                            1 <= p2 < gpl + 1 && rle_candidate(data@, gs, p2, k2)
                                implies !rle_better(p2, k2, obp, obk) by {
                            if p2 == gpl {
                                assert(!rle_better(gpl, k2, gpl, gk));
                                if worth {
                                    assert(!rle_better(gpl, gk, obp, obk));
                                    lemma_ratio_le_le(
                                        gpl * k2,
                                        2 + gpl,
                                        gpl * gk,
                                        2 + gpl,
                                        obp * obk,
                                        2 + obp,
                                    );
                                } else {
                                    // ratio at pl is at most one, the best is above one
                                    assert(gpl * k2 <= gpl * gk && gpl * gk <= 2 + gpl) by (
                                    nonlinear_arith)
                                        requires
                                            gpl >= 1 && gpl * k2 * (2 + gpl) <= gpl * gk * (2
                                                + gpl) && gpl * gk <= 2 + gpl,
                                    ;
                                    assert(!rle_better(gpl, k2, obp, obk)) by (nonlinear_arith)
                                        requires
                                            gpl >= 1 && obp >= 1 && gpl * k2 <= 2 + gpl && obp
                                                * obk >= 3 + obp,
                                    ;
                                }
                            }
                        }
                    } else {
                        // still no candidate that saves space
                        assert forall|p2: int, k2: int|
                            1 <= p2 < gpl + 1 && rle_candidate(data@, gs, p2, k2)
                                implies !rle_worth(p2, k2) by {
                            if p2 == gpl && rle_worth(p2, k2) {
                                assert(!rle_better(gpl, k2, gpl, gk));
                                assert(rle_worth(gpl, gk)) by (nonlinear_arith)
                                    requires
                                        gpl >= 1 && gpl * k2 * (2 + gpl) <= gpl * gk * (2 + gpl)
                                            && gpl * k2 > 2 + gpl,
                                ;
                            }
                        }
                    }
                }
            }
            pl = pl + 1;
        }
        proof {
            // no candidate has a pattern longer than max_pl
            assert forall|p2: int, k2: int|
                rle_candidate(data@, start as int, p2, k2) implies 1 <= p2 < pl by {
                if rle_candidate(data@, start as int, p2, k2) {
                    assert(p2 * k2 >= p2) by (nonlinear_arith)
                        requires
                            k2 >= 1 && p2 >= 0,
                    ;
                }
            }
        }
        if found {
            let chunk = RleChunk {
                string_length: best_pl as u8,
                repetitions_minus_one: (best_k - 1) as u8,
                string: copy_range(data, start, start + best_pl),
            };
            proof {
                assert(rle_repeat_available(data@, start as int));
                assert(1 <= (best_pl as int) * (best_k as int) <= 255 * 256) by (nonlinear_arith)
                    requires
                        1 <= best_pl <= 255 && 1 <= best_k <= 256,
                ;
            }
            let advance = best_pl * best_k;
            (chunk, advance)
        } else {
            let chunk = RleChunk {
                string_length: max_pl as u8,
                repetitions_minus_one: 0,
                string: copy_range(data, start, start + max_pl),
            };
            proof {
                reveal_with_fuel(seq_repeat, 2);
                assert(!rle_repeat_available(data@, start as int));
                assert(max_pl as int * 1 == max_pl as int) by (nonlinear_arith);
                assert(seq_repeat(chunk.string@, 1) =~= chunk.string@);
            }
            (chunk, max_pl)
        }
    }

    /// Split `data` into the greedy chunk sequence.
    #[verifier::loop_isolation(false)]
    pub fn chunkfinder(&self, data: &[u8]) -> (chunks: Vec<RleChunk>)
        ensures
            rle_greedy_chunks(data@, 0, chunks@),
    {
        let mut chunks: Vec<RleChunk> = Vec::new();
        let mut pos: usize = 0;
        while pos < data.len()
            invariant
                0 <= pos <= data@.len(),
                forall|cs2: Seq<RleChunk>|
                    rle_greedy_chunks(data@, pos as int, cs2) ==> rle_greedy_chunks(
                        data@,
                        0,
                        chunks@ + cs2,
                    ),
            decreases data@.len() - pos,
        {
            let (chunk, advance) = self.find_optimal_chunk(data, pos);
            let ghost old_chunks = chunks@;
            let ghost c = chunk;
            let ghost p0 = pos as int;
            chunks.push(chunk);
            proof {
                assert forall|cs2: Seq<RleChunk>|
                    rle_greedy_chunks(data@, p0 + advance, cs2) implies rle_greedy_chunks(
                    data@,
                    0,
                    old_chunks.push(c) + cs2,
                ) by {
                    let one = seq![c] + cs2;
                    assert(one[0] == c);
                    assert(one.skip(1) =~= cs2);
                    assert(rle_greedy_chunks(data@, p0, one));
                    assert(old_chunks.push(c) + cs2 =~= old_chunks + one);
                }
            }
            pos = pos + advance;
        }
        proof {
            assert(rle_greedy_chunks(data@, pos as int, Seq::<RleChunk>::empty()));
            assert(chunks@ + Seq::<RleChunk>::empty() =~= chunks@);
        }
        chunks
    }

    /// Greedy run-length encode `data`.
    #[verifier::loop_isolation(false)]
    pub fn rle_encode(&self, data: &[u8]) -> (out: Vec<u8>)
        ensures
            rle_encode_rel(data@, out@),
            rle_decode_spec(out@) == Ok::<Seq<u8>, MutateError>(data@),
    {
        let chunks = self.chunkfinder(data);
        let mut out: Vec<u8> = Vec::new();
        let mut i: usize = 0;
        while i < chunks.len()
            invariant
                0 <= i <= chunks@.len(),
                out@ == rle_chunks_bytes(chunks@.take(i as int)),
            decreases chunks@.len() - i,
        {
            let ghost before = out@;
            out.push(chunks[i].string_length);
            out.push(chunks[i].repetitions_minus_one);
            let mut j: usize = 0;
            while j < chunks[i].string.len()
                invariant
                    0 <= j <= chunks@[i as int].string@.len(),
                    i < chunks@.len(),
                    out@ == before + seq![
                        chunks@[i as int].string_length,
                        chunks@[i as int].repetitions_minus_one,
                    ] + chunks@[i as int].string@.take(j as int),
                decreases chunks@[i as int].string@.len() - j,
            {
                out.push(chunks[i].string[j]);
                proof {
                    assert(chunks@[i as int].string@.take(j + 1 as int) =~= chunks@[
                        i as int
                    ].string@.take(j as int).push(chunks@[i as int].string@[j as int]));
                    assert(out@ =~= before + seq![
                        chunks@[i as int].string_length,
                        chunks@[i as int].repetitions_minus_one,
                    ] + chunks@[i as int].string@.take(j + 1 as int));
                }
                j = j + 1;
            }
            proof {
                let ci = chunks@[i as int];
                assert(ci.string@.take(ci.string@.len() as int) =~= ci.string@);
                lemma_rle_chunks_bytes_snoc(chunks@.take(i as int), ci);
                assert(chunks@.take(i + 1 as int) =~= chunks@.take(i as int).push(ci));
                assert(out@ =~= rle_chunks_bytes(chunks@.take(i as int)) + rle_chunk_bytes(&ci));
            }
            i = i + 1;
        }
        proof {
            assert(chunks@.take(chunks@.len() as int) =~= chunks@);
            assert(rle_encode_rel(data@, out@));
            lemma_rle_roundtrip(data@, out@);
        }
        out
    }

    /// Decode a chunk stream. Fails on a truncated chunk.
    #[verifier::loop_isolation(false)]
    pub fn rle_decode(&self, data: &[u8]) -> (r: Result<Vec<u8>, MutateError>)
        ensures
            match rle_decode_spec(data@) {
                Ok(s) => r matches Ok(v) && v@ == s,
                Err(e) => r matches Err(e2) && e2 == e,
            },
    {
        let mut out: Vec<u8> = Vec::new();
        let mut pos: usize = 0;
        while pos < data.len()
            invariant
                0 <= pos <= data@.len(),
                match rle_decode_from(data@, pos as int) {
                    Ok(rest) => rle_decode_spec(data@) == Ok::<Seq<u8>, MutateError>(out@ + rest),
                    Err(e) => rle_decode_spec(data@) == Err::<Seq<u8>, MutateError>(e),
                },
            decreases data@.len() - pos,
        {
            if data.len() - pos < 2 {
                return Err(MutateError::MalformedInput);
            }
            let l = data[pos] as usize;
            let reps = data[pos + 1] as usize;
            if data.len() - (pos + 2) < l {
                return Err(MutateError::MalformedInput);
            }
            let ghost pat = data@.subrange(pos + 2, pos + 2 + l);
            let ghost before = out@;
            let mut rep: usize = 0;
            while rep < reps + 1
                invariant
                    0 <= rep <= reps + 1,
                    pos + 2 + l <= data@.len(),
                    l == data@[pos as int] as int,
                    out@ == before + seq_repeat(pat, rep as int),
                decreases reps + 1 - rep,
            {
                let mut j: usize = 0;
                while j < l
                    invariant
                        0 <= j <= l,
                        pos + 2 + l <= data@.len(),
                        out@ == before + seq_repeat(pat, rep as int) + pat.take(j as int),
                    decreases l - j,
                {
                    out.push(data[pos + 2 + j]);
                    proof {
                        assert(pat[j as int] == data@[pos + 2 + j]);
                        assert(pat.take(j + 1 as int) =~= pat.take(j as int).push(pat[j as int]));
                        assert(out@ =~= before + seq_repeat(pat, rep as int) + pat.take(
                            j + 1 as int,
                        ));
                    }
                    j = j + 1;
                }
                proof {
                    assert(pat.take(l as int) =~= pat);
                    lemma_seq_repeat_unsnoc(pat, rep + 1);
                    assert(out@ =~= before + seq_repeat(pat, rep + 1 as int));
                }
                rep = rep + 1;
            }
            proof {
                let rr = rle_decode_from(data@, pos + 2 + l);
                if rr is Ok {
                    let tail = rr->Ok_0;
                    assert(out@ + tail =~= before + (seq_repeat(pat, reps + 1 as int) + tail));
                }
            }
            pos = pos + 2 + l;
        }
        Ok(out)
    }
}

proof fn lemma_rle_choice_unique(data: Seq<u8>, start: int, p1: int, k1: int, p2: int, k2: int)
    requires
        rle_chunk_choice(data, start, p1, k1),
        rle_chunk_choice(data, start, p2, k2),
    ensures
        p1 == p2,
        k1 == k2,
{
    if rle_repeat_available(data, start) {
        assert(!rle_better(p1, k1, p2, k2));
        assert(!rle_better(p2, k2, p1, k1));
        assert(p1 <= p2);
        assert(p2 <= p1);
        assert(k1 == k2) by (nonlinear_arith)
            requires
                p1 == p2,
                p1 >= 1,
                !(p1 * k1 * (2 + p2) > p2 * k2 * (2 + p1)),
                !(p2 * k2 * (2 + p1) > p1 * k1 * (2 + p2)),
        ;
    }
}

proof fn lemma_rle_greedy_bytes_unique(
    data: Seq<u8>,
    start: int,
    cs1: Seq<RleChunk>,
    cs2: Seq<RleChunk>,
)
    requires
        0 <= start,
        rle_greedy_chunks(data, start, cs1),
        rle_greedy_chunks(data, start, cs2),
    ensures
        rle_chunks_bytes(cs1) == rle_chunks_bytes(cs2),
    decreases cs1.len(),
{
    if start >= data.len() {
    } else {
        let pl1 = cs1[0].string_length as int;
        let k1 = cs1[0].repetitions_minus_one as int + 1;
        let pl2 = cs2[0].string_length as int;
        let k2 = cs2[0].repetitions_minus_one as int + 1;
        lemma_rle_choice_unique(data, start, pl1, k1, pl2, k2);
        assert(rle_chunk_bytes(&cs1[0]) =~= rle_chunk_bytes(&cs2[0]));
        assert(pl1 * k1 >= 0) by (nonlinear_arith)
            requires
                pl1 >= 1 && k1 >= 1,
        ;
        lemma_rle_greedy_bytes_unique(data, start + pl1 * k1, cs1.skip(1), cs2.skip(1));
        assert(rle_chunks_bytes(cs1) =~= rle_chunks_bytes(cs2));
    }
}

/// Determinism law for the greedy encoder: its output relation admits a
/// single byte sequence per input.
pub proof fn lemma_rle_encode_deterministic(data: Seq<u8>, o1: Seq<u8>, o2: Seq<u8>)
    requires
        rle_encode_rel(data, o1),
        rle_encode_rel(data, o2),
    ensures
        o1 == o2,
{
    let cs1 = choose|cs: Seq<RleChunk>|
        rle_greedy_chunks(data, 0, cs) && o1 == rle_chunks_bytes(cs);
    let cs2 = choose|cs: Seq<RleChunk>|
        rle_greedy_chunks(data, 0, cs) && o2 == rle_chunks_bytes(cs);
    lemma_rle_greedy_bytes_unique(data, 0, cs1, cs2);
}

} // verus!
