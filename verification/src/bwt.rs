//! Burrows-Wheeler transform.
//!
//! Encoding sorts all cyclic rotations of the input lexicographically (ties
//! between equal rotations broken by the smaller start offset), emits the
//! position of the original text's rotation as a four-byte little-endian
//! prefix, and then the last column of the sorted rotation matrix. Inputs
//! shorter than four bytes pass through unframed. Decoding parses the
//! prefix, validates it against the payload length and reconstructs the
//! text by walking the LF-mapping from the primary row.

use vstd::prelude::*;

use crate::mutator::MutateError;

verus! {

/// The cyclic rotation of `s` that starts at offset `r`.
pub open spec fn rotation(s: Seq<u8>, r: int) -> Seq<u8> {
    s.skip(r) + s.take(r)
}

/// Strict lexicographic order on byte sequences.
pub open spec fn seq_lt(a: Seq<u8>, b: Seq<u8>) -> bool
    decreases a.len(),
{
    if a.len() == 0 {
        b.len() > 0
    } else if b.len() == 0 {
        false
    } else if a[0] < b[0] {
        true
    } else if a[0] > b[0] {
        false
    } else {
        seq_lt(a.skip(1), b.skip(1))
    }
}

/// The order rotations are sorted by: lexicographic on the rotations, equal
/// rotations ordered by their start offset. A strict total order on
/// distinct offsets.
pub open spec fn rot_lt(s: Seq<u8>, i: int, j: int) -> bool {
    ||| seq_lt(rotation(s, i), rotation(s, j))
    ||| (rotation(s, i) == rotation(s, j) && i < j)
}

proof fn lemma_seq_lt_trans(a: Seq<u8>, b: Seq<u8>, c: Seq<u8>)
    requires
        a.len() == b.len() == c.len(),
        seq_lt(a, b),
        seq_lt(b, c),
    ensures
        seq_lt(a, c),
    decreases a.len(),
{
    if a.len() == 0 {
    } else {
        if a[0] == b[0] && b[0] == c[0] {
            lemma_seq_lt_trans(a.skip(1), b.skip(1), c.skip(1));
        }
    }
}

proof fn lemma_seq_lt_connected(a: Seq<u8>, b: Seq<u8>)
    requires
        a.len() == b.len(),
    ensures
        seq_lt(a, b) || seq_lt(b, a) || a == b,
    decreases a.len(),
{
    if a.len() == 0 {
        assert(a =~= b);
    } else if a[0] == b[0] {
        lemma_seq_lt_connected(a.skip(1), b.skip(1));
        if !seq_lt(a, b) && !seq_lt(b, a) {
            assert(a.skip(1) == b.skip(1));
            assert forall|m: int| 0 <= m < a.len() implies a[m] == b[m] by {
                if m > 0 {
                    assert(a[m] == a.skip(1)[m - 1]);
                    assert(b[m] == b.skip(1)[m - 1]);
                }
            }
            assert(a =~= b);
        }
    }
}

pub proof fn lemma_rot_lt_connected(s: Seq<u8>, i: int, j: int)
    requires
        0 <= i < s.len(),
        0 <= j < s.len(),
        i != j,
    ensures
        rot_lt(s, i, j) || rot_lt(s, j, i),
{
    lemma_seq_lt_connected(rotation(s, i), rotation(s, j));
}

pub proof fn lemma_rot_lt_trans(s: Seq<u8>, i: int, j: int, k: int)
    requires
        0 <= i < s.len(),
        0 <= j < s.len(),
        0 <= k < s.len(),
        rot_lt(s, i, j),
        rot_lt(s, j, k),
    ensures
        rot_lt(s, i, k),
{
    let ri = rotation(s, i);
    let rj = rotation(s, j);
    let rk = rotation(s, k);
    assert(ri.len() == s.len() && rj.len() == s.len() && rk.len() == s.len());
    if seq_lt(ri, rj) && seq_lt(rj, rk) {
        lemma_seq_lt_trans(ri, rj, rk);
    }
}

/// Offset `v` occurs somewhere in `p`.
pub open spec fn perm_contains(p: Seq<int>, v: int) -> bool {
    exists|m: int| 0 <= m < p.len() && #[trigger] p[m] == v
}

/// `p` lists every rotation start offset exactly once, in strictly
/// increasing rotation order.
pub open spec fn bwt_sorted_perm(s: Seq<u8>, p: Seq<int>) -> bool {
    &&& p.len() == s.len()
    &&& (forall|i: int| 0 <= i < p.len() ==> 0 <= #[trigger] p[i] < s.len())
    &&& (forall|a: int, b: int|
        0 <= a < b < p.len() ==> rot_lt(s, #[trigger] p[a], #[trigger] p[b]))
    &&& (forall|v: int| 0 <= v < s.len() ==> #[trigger] perm_contains(p, v))
}

/// The last column of the sorted rotation matrix: the byte preceding each
/// rotation's start, cyclically.
pub open spec fn bwt_last_col(s: Seq<u8>, p: Seq<int>) -> Seq<u8> {
    Seq::new(
        p.len(),
        |k: int|
            {
                if p[k] == 0 {
                    s[s.len() - 1]
                } else {
                    s[p[k] - 1]
                }
            },
    )
}

/// The four little-endian bytes of `x`.
pub open spec fn u32_le_bytes(x: int) -> Seq<u8> {
    seq![
        (x % 256) as u8,
        ((x / 256) % 256) as u8,
        ((x / 65536) % 256) as u8,
        ((x / 16777216) % 256) as u8,
    ]
}

/// The value of four little-endian bytes.
pub open spec fn u32_le_val(b: Seq<u8>) -> int {
    b[0] + 256 * (b[1] + 256 * (b[2] + 256 * (b[3] as int)))
}

/// A correct encoding of `s`: the primary index followed by the last
/// column, both derived from the sorted rotation permutation.
pub open spec fn bwt_encoding_witness(s: Seq<u8>, p: Seq<int>, prim: int, out: Seq<u8>) -> bool {
    &&& bwt_sorted_perm(s, p)
    &&& 0 <= prim < p.len()
    &&& p[prim] == 0
    &&& out == u32_le_bytes(prim) + bwt_last_col(s, p)
}

/// What `bwt_encode` produces for inputs of at least four bytes.
pub open spec fn bwt_encode_ok(s: Seq<u8>, out: Seq<u8>) -> bool {
    exists|p: Seq<int>, prim: int| bwt_encoding_witness(s, p, prim, out)
}

/// Occurrences of `b` in `l[..i]`.
pub open spec fn count_eq_below(l: Seq<u8>, b: u8, i: int) -> int
    decreases i,
{
    if i <= 0 {
        0
    } else {
        count_eq_below(l, b, i - 1) + if l[i - 1] == b {
            1int
        } else {
            0int
        }
    }
}

/// Occurrences of bytes smaller than `b` in `l[..i]`.
pub open spec fn count_lt_below(l: Seq<u8>, b: u8, i: int) -> int
    decreases i,
{
    if i <= 0 {
        0
    } else {
        count_lt_below(l, b, i - 1) + if l[i - 1] < b {
            1int
        } else {
            0int
        }
    }
}

/// The LF-mapping of row `i`: where the last-column byte of row `i` stands
/// in the first column.
pub open spec fn lf_spec(l: Seq<u8>, i: int) -> int {
    count_lt_below(l, l[i], l.len() as int) + count_eq_below(l, l[i], i)
}

proof fn lemma_counts_nonneg(l: Seq<u8>, b: u8, i: int)
    ensures
        count_eq_below(l, b, i) >= 0,
        count_lt_below(l, b, i) >= 0,
    decreases i,
{
    if i > 0 {
        lemma_counts_nonneg(l, b, i - 1);
    }
}

proof fn lemma_counts_bound(l: Seq<u8>, b: u8, i: int)
    requires
        i >= 0,
    ensures
        count_lt_below(l, b, i) + count_eq_below(l, b, i) <= i,
    decreases i,
{
    if i > 0 {
        lemma_counts_bound(l, b, i - 1);
    }
}

proof fn lemma_count_eq_grows(l: Seq<u8>, b: u8, i: int, m: int)
    requires
        0 <= i < m,
        l[i] == b,
    ensures
        count_eq_below(l, b, i) < count_eq_below(l, b, m),
    decreases m,
{
    if m - 1 == i {
    } else {
        lemma_count_eq_grows(l, b, i, m - 1);
    }
}

proof fn lemma_count_lt_zero(l: Seq<u8>, i: int)
    ensures
        count_lt_below(l, 0, i) == 0,
    decreases i,
{
    if i > 0 {
        lemma_count_lt_zero(l, i - 1);
    }
}

/// The LF-mapping always lands on a valid row.
pub proof fn lemma_lf_in_range(l: Seq<u8>, i: int)
    requires
        0 <= i < l.len(),
    ensures
        0 <= lf_spec(l, i) < l.len(),
{
    let n = l.len() as int;
    let b = l[i];
    lemma_counts_nonneg(l, b, n);
    lemma_counts_nonneg(l, b, i);
    lemma_counts_bound(l, b, n);
    lemma_count_eq_grows(l, b, i, n);
}

/// The bytes produced by walking the LF-mapping `steps` times from `row`,
/// filling the result from the back.
pub open spec fn bwt_walk(l: Seq<u8>, row: int, steps: int) -> Seq<u8>
    decreases steps,
{
    if steps <= 0 {
        Seq::empty()
    } else {
        bwt_walk(l, lf_spec(l, row), steps - 1) + seq![l[row]]
    }
}

/// What `bwt_decode` computes: short inputs pass through, an empty payload
/// decodes to nothing, a primary index at or past the payload length is
/// malformed, and otherwise the LF walk reconstructs the text.
pub open spec fn bwt_decode_spec(data: Seq<u8>) -> Result<Seq<u8>, MutateError> {
    if data.len() < 4 {
        Ok(data)
    } else {
        let prim = u32_le_val(data.subrange(0, 4));
        let payload = data.skip(4);
        if payload.len() == 0 {
            Ok(Seq::empty())
        } else if prim >= payload.len() {
            Err(MutateError::MalformedInput)
        } else {
            Ok(bwt_walk(payload, prim, payload.len() as int))
        }
    }
}

proof fn lemma_seq_lt_irrefl(a: Seq<u8>)
    ensures
        !seq_lt(a, a),
    decreases a.len(),
{
    if a.len() > 0 {
        lemma_seq_lt_irrefl(a.skip(1));
    }
}

/// No rotation sorts strictly below itself.
pub proof fn lemma_rot_lt_irrefl(s: Seq<u8>, i: int)
    ensures
        !rot_lt(s, i, i),
{
    lemma_seq_lt_irrefl(rotation(s, i));
}

/// The rotation order is asymmetric on valid offsets.
pub proof fn lemma_rot_lt_asym(s: Seq<u8>, i: int, j: int)
    requires
        0 <= i < s.len(),
        0 <= j < s.len(),
    ensures
        !(rot_lt(s, i, j) && rot_lt(s, j, i)),
{
    if rot_lt(s, i, j) && rot_lt(s, j, i) {
        lemma_rot_lt_trans(s, i, j, i);
        lemma_rot_lt_irrefl(s, i);
    }
}

proof fn lemma_sorted_mutual_unique(s: Seq<u8>, p1: Seq<int>, p2: Seq<int>)
    requires
        p1.len() == p2.len(),
        forall|i: int| 0 <= i < p1.len() ==> 0 <= #[trigger] p1[i] < s.len(),
        forall|i: int| 0 <= i < p2.len() ==> 0 <= #[trigger] p2[i] < s.len(),
        forall|a: int, b: int|
            0 <= a < b < p1.len() ==> rot_lt(s, #[trigger] p1[a], #[trigger] p1[b]),
        forall|a: int, b: int|
            0 <= a < b < p2.len() ==> rot_lt(s, #[trigger] p2[a], #[trigger] p2[b]),
        forall|v: int| #[trigger] perm_contains(p1, v) ==> perm_contains(p2, v),
        forall|v: int| #[trigger] perm_contains(p2, v) ==> perm_contains(p1, v),
    ensures
        p1 == p2,
    decreases p1.len(),
{
    if p1.len() == 0 {
        assert(p1 =~= p2);
    } else {
        // the heads are equal: each occurs in the other sequence, and
        // anywhere but the head would sort strictly above the head
        assert(perm_contains(p1, p1[0]));
        assert(perm_contains(p2, p2[0]));
        let m1 = choose|m: int| 0 <= m < p2.len() && #[trigger] p2[m] == p1[0];
        let m2 = choose|m: int| 0 <= m < p1.len() && #[trigger] p1[m] == p2[0];
        if p1[0] != p2[0] {
            assert(m1 > 0 && m2 > 0);
            assert(rot_lt(s, p2[0], p2[m1]));
            assert(rot_lt(s, p1[0], p1[m2]));
            lemma_rot_lt_asym(s, p1[0], p2[0]);
        }
        let t1 = p1.skip(1);
        let t2 = p2.skip(1);
        assert forall|v: int| #[trigger] perm_contains(t1, v) implies perm_contains(t2, v) by {
            let m = choose|m: int| 0 <= m < t1.len() && #[trigger] t1[m] == v;
            assert(p1[m + 1] == v);
            assert(perm_contains(p1, v));
            let m3 = choose|m3: int| 0 <= m3 < p2.len() && #[trigger] p2[m3] == v;
            if m3 == 0 {
                // v would equal both heads, yet sit strictly above the
                // head of p1
                assert(rot_lt(s, p1[0], p1[m + 1]));
                lemma_rot_lt_irrefl(s, v);
            }
            assert(t2[m3 - 1] == v);
        }
        assert forall|v: int| #[trigger] perm_contains(t2, v) implies perm_contains(t1, v) by {
            let m = choose|m: int| 0 <= m < t2.len() && #[trigger] t2[m] == v;
            assert(p2[m + 1] == v);
            assert(perm_contains(p2, v));
            let m3 = choose|m3: int| 0 <= m3 < p1.len() && #[trigger] p1[m3] == v;
            if m3 == 0 {
                assert(rot_lt(s, p2[0], p2[m + 1]));
                lemma_rot_lt_irrefl(s, v);
            }
            assert(t1[m3 - 1] == v);
        }
        assert forall|a: int, b: int|
            0 <= a < b < t1.len() implies rot_lt(s, #[trigger] t1[a], #[trigger] t1[b]) by {
            assert(t1[a] == p1[a + 1] && t1[b] == p1[b + 1]);
        }
        assert forall|a: int, b: int|
            0 <= a < b < t2.len() implies rot_lt(s, #[trigger] t2[a], #[trigger] t2[b]) by {
            assert(t2[a] == p2[a + 1] && t2[b] == p2[b + 1]);
        }
        lemma_sorted_mutual_unique(s, t1, t2);
        assert forall|m: int| 0 <= m < p1.len() implies p1[m] == p2[m] by {
            if m > 0 {
                assert(p1[m] == t1[m - 1] && p2[m] == t2[m - 1]);
            }
        }
        assert(p1 =~= p2);
    }
}

/// Determinism law for the transform: the encoding contract admits one
/// output per input, because the sorted rotation order is unique.
pub proof fn lemma_bwt_encode_deterministic(s: Seq<u8>, o1: Seq<u8>, o2: Seq<u8>)
    requires
        bwt_encode_ok(s, o1),
        bwt_encode_ok(s, o2),
    ensures
        o1 == o2,
{
    let (p1, prim1) = choose|p: Seq<int>, prim: int| bwt_encoding_witness(s, p, prim, o1);
    let (p2, prim2) = choose|p: Seq<int>, prim: int| bwt_encoding_witness(s, p, prim, o2);
    assert forall|v: int| #[trigger] perm_contains(p1, v) implies perm_contains(p2, v) by {
        let m = choose|m: int| 0 <= m < p1.len() && #[trigger] p1[m] == v;
    }
    assert forall|v: int| #[trigger] perm_contains(p2, v) implies perm_contains(p1, v) by {
        let m = choose|m: int| 0 <= m < p2.len() && #[trigger] p2[m] == v;
    }
    lemma_sorted_mutual_unique(s, p1, p2);
    if prim1 != prim2 {
        assert(rot_lt(s, p1[prim1], p1[prim2]) || rot_lt(s, p1[prim2], p1[prim1]));
        lemma_rot_lt_irrefl(s, 0);
    }
    assert(o1 == o2);
}

/// Offset `v` occurs somewhere in `sa`.
pub open spec fn contains_offset(sa: Seq<usize>, v: int) -> bool {
    exists|m: int| 0 <= m < sa.len() && #[trigger] sa[m] == v
}

/// Compare rotations `i` and `j` in the order used for sorting.
#[verifier::loop_isolation(false)]
fn rot_less(data: &[u8], i: usize, j: usize) -> (r: bool)
    requires
        i < data@.len(),
        j < data@.len(),
    ensures
        r == rot_lt(data@, i as int, j as int),
{
    let n = data.len();
    let ghost ri = rotation(data@, i as int);
    let ghost rj = rotation(data@, j as int);
    proof {
        assert(ri.len() == n && rj.len() == n);
    }
    proof {
        assert(ri.skip(0) =~= ri);
        assert(rj.skip(0) =~= rj);
    }
    let mut t: usize = 0;
    while t < n
        invariant
            0 <= t <= n,
            seq_lt(ri, rj) == seq_lt(ri.skip(t as int), rj.skip(t as int)),
            (ri == rj) == (ri.skip(t as int) == rj.skip(t as int)),
        decreases n - t,
    {
        let ia = if t < n - i {
            i + t
        } else {
            t - (n - i)
        };
        let jb = if t < n - j {
            j + t
        } else {
            t - (n - j)
        };
        let a = data[ia];
        let b = data[jb];
        proof {
            assert(ri[t as int] == a) by {
                if t < n - i {
                    assert(ri[t as int] == data@.skip(i as int)[t as int]);
                } else {
                    assert(ri[t as int] == data@.take(i as int)[t as int - (n - i)]);
                }
            }
            assert(rj[t as int] == b) by {
                if t < n - j {
                    assert(rj[t as int] == data@.skip(j as int)[t as int]);
                } else {
                    assert(rj[t as int] == data@.take(j as int)[t as int - (n - j)]);
                }
            }
            assert(ri.skip(t as int)[0] == ri[t as int]);
            assert(rj.skip(t as int)[0] == rj[t as int]);
        }
        if a < b {
            proof {
                assert(seq_lt(ri.skip(t as int), rj.skip(t as int)));
            }
            return true;
        }
        if a > b {
            proof {
                assert(!seq_lt(ri.skip(t as int), rj.skip(t as int)));
                assert(ri.skip(t as int)[0] != rj.skip(t as int)[0]);
                assert(ri != rj);
            }
            return false;
        }
        proof {
            assert(ri.skip(t as int).skip(1) =~= ri.skip(t + 1 as int));
            assert(rj.skip(t as int).skip(1) =~= rj.skip(t + 1 as int));
            if ri.skip(t + 1 as int) == rj.skip(t + 1 as int) {
                let si = ri.skip(t as int);
                let sj = rj.skip(t as int);
                assert forall|m: int| 0 <= m < si.len() implies si[m] == sj[m] by {
                    if m == 0 {
                        assert(si[0] == ri[t as int] && sj[0] == rj[t as int]);
                    } else {
                        assert(si[m] == ri.skip(t + 1 as int)[m - 1]);
                        assert(sj[m] == rj.skip(t + 1 as int)[m - 1]);
                    }
                }
                assert(si =~= sj);
            }
        }
        t = t + 1;
    }
    proof {
        assert(ri.skip(n as int) =~= Seq::<u8>::empty());
        assert(rj.skip(n as int) =~= Seq::<u8>::empty());
        assert(!seq_lt(ri, rj));
        assert(ri == rj);
    }
    i < j
}

/// Build the sorted rotation permutation by insertion into a sorted list.
#[verifier::loop_isolation(false)]
fn build_rotation_order(data: &[u8]) -> (sa: Vec<usize>)
    requires
        data@.len() >= 1,
    ensures
        sa@.len() == data@.len(),
        forall|m: int| 0 <= m < sa@.len() ==> #[trigger] sa@[m] < data@.len(),
        forall|a: int, b: int|
            0 <= a < b < sa@.len() ==> rot_lt(data@, #[trigger] sa@[a] as int, #[trigger] sa@[b] as int),
        forall|v: int| 0 <= v < data@.len() ==> #[trigger] contains_offset(sa@, v),
{
    let n = data.len();
    let mut sa: Vec<usize> = Vec::new();
    let mut idx: usize = 0;
    while idx < n
        invariant
            0 <= idx <= n,
            sa@.len() == idx,
            forall|m: int| 0 <= m < idx ==> #[trigger] sa@[m] < idx,
            forall|a: int, b: int|
                0 <= a < b < idx ==> rot_lt(data@, #[trigger] sa@[a] as int, #[trigger] sa@[b] as int),
            forall|v: int| 0 <= v < idx ==> #[trigger] contains_offset(sa@, v),
        decreases n - idx,
    {
        let ghost olds = sa@;
        let mut pos: usize = 0;
        #[verifier::loop_isolation(true)]
        loop
            invariant_except_break
                0 <= pos <= sa@.len(),
                sa@ == olds,
                idx < data@.len(),
                forall|m: int| 0 <= m < sa@.len() ==> #[trigger] sa@[m] < data@.len(),
                forall|m: int| 0 <= m < pos ==> rot_lt(data@, #[trigger] sa@[m] as int, idx as int),
            ensures
                0 <= pos <= sa@.len(),
                forall|m: int| 0 <= m < pos ==> rot_lt(data@, #[trigger] sa@[m] as int, idx as int),
                pos == sa@.len() || !rot_lt(data@, sa@[pos as int] as int, idx as int),
                sa@ == olds,
            decreases sa@.len() - pos,
        {
            if pos >= sa.len() {
                break ;
            }
            if !rot_less(data, sa[pos], idx) {
                break ;
            }
            pos = pos + 1;
        }
        proof {
            // everything at or after the insertion point is above the new offset
            assert forall|m: int| pos <= m < olds.len() implies rot_lt(
                data@,
                idx as int,
                #[trigger] olds[m] as int,
            ) by {
                assert(olds[pos as int] != idx);
                lemma_rot_lt_connected(data@, olds[pos as int] as int, idx as int);
                assert(rot_lt(data@, idx as int, olds[pos as int] as int));
                if m > pos {
                    assert(rot_lt(data@, olds[pos as int] as int, olds[m] as int));
                    lemma_rot_lt_trans(
                        data@,
                        idx as int,
                        olds[pos as int] as int,
                        olds[m] as int,
                    );
                }
            }
        }
        sa.insert(pos, idx);
        proof {
            let news = sa@;
            assert forall|a: int, b: int|
                0 <= a < b < news.len() implies rot_lt(
                data@,
                #[trigger] news[a] as int,
                #[trigger] news[b] as int,
            ) by {
                if b < pos {
                } else if a < pos && b == pos {
                    assert(news[a] == olds[a]);
                } else if a < pos && b > pos {
                    assert(news[a] == olds[a] && news[b] == olds[b - 1]);
                    if b - 1 == pos {
                        assert(rot_lt(data@, news[a] as int, idx as int));
                        assert(rot_lt(data@, idx as int, olds[b - 1] as int));
                        lemma_rot_lt_trans(data@, news[a] as int, idx as int, olds[b - 1] as int);
                    } else {
                        assert(rot_lt(data@, olds[a] as int, olds[b - 1] as int));
                    }
                } else if a == pos {
                    assert(news[b] == olds[b - 1]);
                    assert(rot_lt(data@, idx as int, olds[b - 1] as int));
                } else {
                    assert(news[a] == olds[a - 1] && news[b] == olds[b - 1]);
                }
            }
            assert forall|v: int| 0 <= v < idx + 1 implies #[trigger] contains_offset(
                sa@,
                v,
            ) by {
                if v == idx {
                    assert(sa@[pos as int] == idx);
                } else {
                    assert(contains_offset(olds, v));
                    let m0 = choose|m0: int| 0 <= m0 < olds.len() && #[trigger] olds[m0] == v;
                    if m0 < pos {
                        assert(sa@[m0] == v);
                    } else {
                        assert(sa@[m0 + 1] == v);
                    }
                }
            }
        }
        idx = idx + 1;
    }
    sa
}

/// Burrows-Wheeler encode `data` into `buf`: a four-byte little-endian
/// primary index, then the last column of the sorted rotations. Inputs
/// shorter than four bytes pass through; inputs whose length does not fit
/// the index field are rejected.
#[verifier::loop_isolation(false)]
pub fn bwt_encode(data: &[u8], buf: &mut Vec<u8>) -> (r: Result<(), MutateError>)
    ensures
        data@.len() < 4 ==> r is Ok && final(buf)@ == data@,
        4 <= data@.len() <= u32::MAX ==> r is Ok && bwt_encode_ok(data@, final(buf)@),
        data@.len() > u32::MAX ==> r == Err::<(), MutateError>(MutateError::InputTooLarge),
{
    buf.clear();
    if data.len() < 4 {
        let mut i: usize = 0;
        while i < data.len()
            invariant
                0 <= i <= data@.len(),
                buf@ == data@.take(i as int),
            decreases data@.len() - i,
        {
            buf.push(data[i]);
            proof {
                assert(data@.take(i + 1 as int) =~= data@.take(i as int).push(data@[i as int]));
            }
            i = i + 1;
        }
        proof {
            assert(data@.take(data@.len() as int) =~= data@);
        }
        return Ok(());
    }
    if data.len() > u32::MAX as usize {
        return Err(MutateError::InputTooLarge);
    }
    let n = data.len();
    let sa = build_rotation_order(data);
    let ghost p = Seq::new(sa@.len(), |m: int| sa@[m] as int);
    proof {
        assert forall|v: int| 0 <= v < data@.len() implies #[trigger] perm_contains(p, v) by {
            assert(contains_offset(sa@, v));
            let m = choose|m: int| 0 <= m < sa@.len() && #[trigger] sa@[m] == v;
            assert(p[m] == v);
        }
        assert(bwt_sorted_perm(data@, p));
    }
    // find the row of the rotation that starts at offset zero
    let mut prim: usize = 0;
    #[verifier::loop_isolation(true)]
    loop
        invariant_except_break
            0 <= prim <= sa@.len(),
            contains_offset(sa@, 0),
            forall|m: int| 0 <= m < prim ==> #[trigger] sa@[m] != 0,
        ensures
            0 <= prim < sa@.len(),
            sa@[prim as int] == 0,
        decreases sa@.len() - prim,
    {
        if prim >= sa.len() {
            proof {
                assert(contains_offset(sa@, 0));
                let m0 = choose|m0: int| 0 <= m0 < sa@.len() && #[trigger] sa@[m0] == 0;
                assert(false);
            }
        } else if sa[prim] == 0 {
            break ;
        } else {
            prim = prim + 1;
        }
    }
    let p32 = prim as u32;
    buf.push((p32 % 256) as u8);
    buf.push(((p32 / 256) % 256) as u8);
    buf.push(((p32 / 65536) % 256) as u8);
    buf.push(((p32 / 16777216) % 256) as u8);
    proof {
        assert(buf@ =~= u32_le_bytes(prim as int));
    }
    let mut k: usize = 0;
    while k < n
        invariant
            0 <= k <= n,
            n == data@.len(),
            sa@.len() == n,
            forall|m: int| 0 <= m < sa@.len() ==> #[trigger] sa@[m] < n,
            p == Seq::new(sa@.len() as nat, |m: int| sa@[m] as int),
            buf@ == u32_le_bytes(prim as int) + bwt_last_col(data@, p).take(k as int),
        decreases n - k,
    {
        let r = sa[k];
        let c = if r == 0 {
            data[n - 1]
        } else {
            data[r - 1]
        };
        buf.push(c);
        proof {
            assert(p[k as int] == sa@[k as int] as int);
            assert(bwt_last_col(data@, p)[k as int] == c);
            assert(bwt_last_col(data@, p).take(k + 1 as int) =~= bwt_last_col(data@, p).take(
                k as int,
            ).push(c));
            assert(buf@ =~= u32_le_bytes(prim as int) + bwt_last_col(data@, p).take(k + 1 as int));
        }
        k = k + 1;
    }
    proof {
        assert(bwt_last_col(data@, p).take(n as int) =~= bwt_last_col(data@, p));
        assert(bwt_encoding_witness(data@, p, prim as int, buf@));
    }
    Ok(())
}

/// Burrows-Wheeler decode `data` into `buf` by LF-mapping, as
/// `bwt_decode_spec` prescribes.
#[verifier::loop_isolation(false)]
pub fn bwt_decode(data: &[u8], buf: &mut Vec<u8>) -> (r: Result<(), MutateError>)
    ensures
        match bwt_decode_spec(data@) {
            Ok(s) => r is Ok && final(buf)@ == s,
            Err(e) => r == Err::<(), MutateError>(e),
        },
{
    buf.clear();
    if data.len() < 4 {
        let mut i: usize = 0;
        while i < data.len()
            invariant
                0 <= i <= data@.len(),
                buf@ == data@.take(i as int),
            decreases data@.len() - i,
        {
            buf.push(data[i]);
            proof {
                assert(data@.take(i + 1 as int) =~= data@.take(i as int).push(data@[i as int]));
            }
            i = i + 1;
        }
        proof {
            assert(data@.take(data@.len() as int) =~= data@);
        }
        return Ok(());
    }
    let b0 = data[0] as u64;
    let b1 = data[1] as u64;
    let b2 = data[2] as u64;
    let b3 = data[3] as u64;
    let prim64: u64 = b0 + 256 * (b1 + 256 * (b2 + 256 * b3));
    proof {
        assert(data@.subrange(0, 4)[0] == data@[0]);
        assert(data@.subrange(0, 4)[1] == data@[1]);
        assert(data@.subrange(0, 4)[2] == data@[2]);
        assert(data@.subrange(0, 4)[3] == data@[3]);
        assert(prim64 as int == u32_le_val(data@.subrange(0, 4)));
    }
    let n = data.len() - 4;
    let ghost l = data@.skip(4);
    proof {
        assert(l.len() == n);
    }
    if n == 0 {
        return Ok(());
    }
    if prim64 >= n as u64 {
        return Err(MutateError::MalformedInput);
    }
    let prim = prim64 as usize;
    // occurrence counts of every byte value in the payload
    let mut freq: Vec<usize> = Vec::new();
    let mut z: usize = 0;
    while z < 256
        invariant
            0 <= z <= 256,
            freq@.len() == z,
            forall|c: int| 0 <= c < z ==> freq@[c] == 0,
        decreases 256 - z,
    {
        freq.push(0);
        z = z + 1;
    }
    let mut i: usize = 0;
    while i < n
        invariant
            0 <= i <= n,
            n == l.len(),
            l == data@.skip(4),
            n + 4 == data@.len(),
            freq@.len() == 256,
            forall|c: int| 0 <= c < 256 ==> freq@[c] == count_eq_below(l, c as u8, i as int),
        decreases n - i,
    {
        let c = data[4 + i] as usize;
        proof {
            assert(l[i as int] == data@[4 + i]);
        }
        let f = freq[c];
        proof {
            lemma_counts_bound(l, c as u8, i as int);
            lemma_counts_nonneg(l, c as u8, i as int);
        }
        freq[c] = f + 1;
        i = i + 1;
    }
    // first-column start of every byte value
    let mut starts: Vec<usize> = Vec::new();
    proof {
        lemma_count_lt_zero(l, n as int);
    }
    let mut sum: usize = 0;
    let mut c: usize = 0;
    while c < 256
        invariant
            0 <= c <= 256,
            starts@.len() == c,
            n == l.len(),
            freq@.len() == 256,
            forall|d: int| 0 <= d < 256 ==> freq@[d] == count_eq_below(l, d as u8, n as int),
            forall|d: int| 0 <= d < c ==> starts@[d] == count_lt_below(l, d as u8, n as int),
            c < 256 ==> sum == count_lt_below(l, c as u8, n as int),
            sum <= n,
        decreases 256 - c,
    {
        starts.push(sum);
        let f = freq[c];
        proof {
            lemma_counts_nonneg(l, c as u8, n as int);
            lemma_counts_bound(l, c as u8, n as int);
            if c < 255 {
                lemma_lt_step(l, c as u8, n as int);
            }
        }
        sum = sum + f;
        c = c + 1;
    }
    proof {
        assert(forall|d: int|
            0 <= d < 256 ==> starts@[d] == count_lt_below(l, d as u8, n as int));
    }
    // LF-mapping
    let mut seen: Vec<usize> = Vec::new();
    let mut z2: usize = 0;
    while z2 < 256
        invariant
            0 <= z2 <= 256,
            seen@.len() == z2,
            forall|d: int| 0 <= d < z2 ==> seen@[d] == 0,
        decreases 256 - z2,
    {
        seen.push(0);
        z2 = z2 + 1;
    }
    let mut lf: Vec<usize> = Vec::new();
    let mut i2: usize = 0;
    while i2 < n
        invariant
            0 <= i2 <= n,
            n == l.len(),
            l == data@.skip(4),
            n + 4 == data@.len(),
            starts@.len() == 256,
            seen@.len() == 256,
            lf@.len() == i2,
            forall|d: int| 0 <= d < 256 ==> starts@[d] == count_lt_below(l, d as u8, n as int),
            forall|d: int| 0 <= d < 256 ==> seen@[d] == count_eq_below(l, d as u8, i2 as int),
            forall|m: int| 0 <= m < i2 ==> lf@[m] == lf_spec(l, m),
            forall|m: int| 0 <= m < i2 ==> 0 <= #[trigger] lf@[m] < n,
        decreases n - i2,
    {
        let cb = data[4 + i2] as usize;
        proof {
            assert(l[i2 as int] == data@[4 + i2]);
            lemma_lf_in_range(l, i2 as int);
            lemma_counts_nonneg(l, cb as u8, i2 as int);
            lemma_counts_bound(l, cb as u8, i2 as int);
        }
        let v = starts[cb] + seen[cb];
        lf.push(v);
        let sc = seen[cb];
        seen[cb] = sc + 1;
        i2 = i2 + 1;
    }
    // walk the mapping from the primary row, filling from the back
    let mut out: Vec<u8> = Vec::new();
    let mut z3: usize = 0;
    while z3 < n
        invariant
            0 <= z3 <= n,
            out@.len() == z3,
        decreases n - z3,
    {
        out.push(0);
        z3 = z3 + 1;
    }
    let mut row: usize = prim;
    let mut t: usize = n;
    while t > 0
        invariant
            0 <= t <= n,
            n == l.len(),
            l == data@.skip(4),
            n + 4 == data@.len(),
            lf@.len() == n,
            out@.len() == n,
            0 <= row < n,
            forall|m: int| 0 <= m < n ==> lf@[m] == lf_spec(l, m),
            forall|m: int| 0 <= m < n ==> 0 <= #[trigger] lf@[m] < n,
            bwt_walk(l, prim as int, n as int) == bwt_walk(l, row as int, t as int) + out@.skip(
                t as int,
            ),
        decreases t,
    {
        let ghost oldout = out@;
        let cb = data[4 + row];
        proof {
            assert(l[row as int] == data@[4 + row]);
        }
        out[t - 1] = cb;
        let newrow = lf[row];
        proof {
            assert(bwt_walk(l, row as int, t as int) == bwt_walk(l, lf_spec(l, row as int), t - 1)
                + seq![l[row as int]]);
            assert(out@.skip(t - 1) =~= seq![l[row as int]] + oldout.skip(t as int));
            assert(bwt_walk(l, lf_spec(l, row as int), t - 1) + out@.skip(t - 1) =~= bwt_walk(
                l,
                row as int,
                t as int,
            ) + oldout.skip(t as int));
        }
        row = newrow;
        t = t - 1;
    }
    proof {
        assert(out@.skip(0) =~= out@);
        assert(bwt_walk(l, prim as int, n as int) == bwt_walk(l, row as int, 0) + out@);
        assert(bwt_walk(l, row as int, 0) + out@ =~= out@);
    }
    let mut q: usize = 0;
    while q < out.len()
        invariant
            0 <= q <= out@.len(),
            buf@ == out@.take(q as int),
        decreases out@.len() - q,
    {
        buf.push(out[q]);
        proof {
            assert(out@.take(q + 1 as int) =~= out@.take(q as int).push(out@[q as int]));
        }
        q = q + 1;
    }
    proof {
        assert(out@.take(out@.len() as int) =~= out@);
    }
    Ok(())
}

/// Counting bytes below `b + 1` splits into those below `b` and those
/// equal to `b`.
proof fn lemma_lt_step(l: Seq<u8>, b: u8, i: int)
    requires
        i >= 0,
    ensures
        b < 255 ==> count_lt_below(l, (b + 1) as u8, i) == count_lt_below(l, b, i)
            + count_eq_below(l, b, i),
    decreases i,
{
    if i > 0 {
        lemma_lt_step(l, b, i - 1);
    }
}

} // verus!
