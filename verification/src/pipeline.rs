//! The pipeline engine and the pipeline-description parsers.
//!
//! A pipeline is an ordered sequence of mutator handles. Driving it runs
//! every stage's forward transform in order through a pair of ping-ponged
//! scratch buffers; reverting runs the backward transforms in reverse
//! order. A failing stage aborts the run and surfaces its error together
//! with the stage index. Pipelines are built directly, from the compact
//! binary description `name1,name2,...\0`, or from the human description
//! `name1 -> name2 -> ...`; presets name a few ready-made chains.

use vstd::prelude::*;

use vstd::string::StringSliceAdditionalSpecFns;

use crate::mutator::{MutateError, Mutator, StageError};
use crate::registered::{
    reg_find, DynMutator, EnumMutator, Registry, RegisteredCompressor,
};

verus! {

/// `output` is reachable from `input` by running every stage's forward
/// transform in order, each stage succeeding.
pub open spec fn pipeline_drive_rel(stages: Seq<EnumMutator>, input: Seq<u8>, output: Seq<u8>) -> bool
    decreases stages.len(),
{
    if stages.len() == 0 {
        output == input
    } else {
        exists|mid: Seq<u8>|
            {
                &&& stages[0].drive_ok(input)
                &&& #[trigger] stages[0].drive_rel(input, mid)
                &&& pipeline_drive_rel(stages.skip(1), mid, output)
            }
    }
}

/// Driving fails at stage `k` with `err`: the stages before `k` succeed
/// and stage `k` rejects the bytes handed to it.
pub open spec fn pipeline_drive_fails_at(
    stages: Seq<EnumMutator>,
    input: Seq<u8>,
    k: int,
    err: MutateError,
) -> bool
    decreases stages.len(),
{
    if stages.len() == 0 {
        false
    } else if k == 0 {
        !stages[0].drive_ok(input) && err == stages[0].drive_err(input)
    } else {
        exists|mid: Seq<u8>|
            {
                &&& stages[0].drive_ok(input)
                &&& #[trigger] stages[0].drive_rel(input, mid)
                &&& pipeline_drive_fails_at(stages.skip(1), mid, k - 1, err)
            }
    }
}

/// `output` is reachable from `input` by running every stage's backward
/// transform in reverse order, each succeeding.
pub open spec fn pipeline_revert_rel(stages: Seq<EnumMutator>, input: Seq<u8>, output: Seq<u8>) -> bool
    decreases stages.len(),
{
    if stages.len() == 0 {
        output == input
    } else {
        exists|mid: Seq<u8>|
            {
                &&& #[trigger] stages.last().revert_rel(input, Ok(mid))
                &&& pipeline_revert_rel(stages.drop_last(), mid, output)
            }
    }
}

/// Reverting fails at stage `k` with `err`: the stages after `k` decode
/// successfully and stage `k` rejects the bytes handed to it.
pub open spec fn pipeline_revert_fails_at(
    stages: Seq<EnumMutator>,
    input: Seq<u8>,
    k: int,
    err: MutateError,
) -> bool
    decreases stages.len(),
{
    if stages.len() == 0 {
        false
    } else if k == stages.len() - 1 {
        stages.last().revert_rel(input, Err(err))
    } else {
        exists|mid: Seq<u8>|
            {
                &&& #[trigger] stages.last().revert_rel(input, Ok(mid))
                &&& pipeline_revert_fails_at(stages.drop_last(), mid, k, err)
            }
    }
}

proof fn lemma_drive_rel_snoc(
    stages: Seq<EnumMutator>,
    m: EnumMutator,
    input: Seq<u8>,
    mid: Seq<u8>,
    out: Seq<u8>,
)
    requires
        pipeline_drive_rel(stages, input, mid),
        m.drive_ok(mid),
        m.drive_rel(mid, out),
    ensures
        pipeline_drive_rel(stages.push(m), input, out),
    decreases stages.len(),
{
    if stages.len() == 0 {
        assert(stages.push(m)[0] == m);
        assert(stages.push(m).skip(1) =~= Seq::<EnumMutator>::empty());
        assert(pipeline_drive_rel(stages.push(m).skip(1), out, out));
    } else {
        let mid1 = choose|mid1: Seq<u8>|
            {
                &&& stages[0].drive_ok(input)
                &&& #[trigger] stages[0].drive_rel(input, mid1)
                &&& pipeline_drive_rel(stages.skip(1), mid1, mid)
            };
        lemma_drive_rel_snoc(stages.skip(1), m, mid1, mid, out);
        assert(stages.push(m)[0] == stages[0]);
        assert(stages.push(m).skip(1) =~= stages.skip(1).push(m));
    }
}

proof fn lemma_drive_fails_compose(
    stages: Seq<EnumMutator>,
    input: Seq<u8>,
    k: int,
    mid: Seq<u8>,
    err: MutateError,
)
    requires
        0 <= k < stages.len(),
        pipeline_drive_rel(stages.take(k), input, mid),
        !stages[k].drive_ok(mid),
        err == stages[k].drive_err(mid),
    ensures
        pipeline_drive_fails_at(stages, input, k, err),
    decreases k,
{
    if k == 0 {
        assert(stages.take(0).len() == 0);
        assert(mid == input);
    } else {
        let mid1 = choose|mid1: Seq<u8>|
            {
                &&& stages.take(k)[0].drive_ok(input)
                &&& #[trigger] stages.take(k)[0].drive_rel(input, mid1)
                &&& pipeline_drive_rel(stages.take(k).skip(1), mid1, mid)
            };
        assert(stages.take(k)[0] == stages[0]);
        assert(stages.take(k).skip(1) =~= stages.skip(1).take(k - 1));
        assert(stages.skip(1)[k - 1] == stages[k]);
        lemma_drive_fails_compose(stages.skip(1), mid1, k - 1, mid, err);
    }
}

proof fn lemma_revert_rel_cons(
    m: EnumMutator,
    stages: Seq<EnumMutator>,
    input: Seq<u8>,
    mid: Seq<u8>,
    out: Seq<u8>,
)
    requires
        pipeline_revert_rel(stages, input, mid),
        m.revert_rel(mid, Ok(out)),
    ensures
        pipeline_revert_rel(seq![m] + stages, input, out),
    decreases stages.len(),
{
    let whole = seq![m] + stages;
    if stages.len() == 0 {
        assert(mid == input);
        assert(whole.last() == m);
        assert(whole.drop_last() =~= Seq::<EnumMutator>::empty());
        assert(pipeline_revert_rel(whole.drop_last(), out, out));
    } else {
        let mid1 = choose|mid1: Seq<u8>|
            {
                &&& #[trigger] stages.last().revert_rel(input, Ok(mid1))
                &&& pipeline_revert_rel(stages.drop_last(), mid1, mid)
            };
        lemma_revert_rel_cons(m, stages.drop_last(), mid1, mid, out);
        assert(whole.last() == stages.last());
        assert(whole.drop_last() =~= seq![m] + stages.drop_last());
    }
}

proof fn lemma_revert_fails_compose(
    stages: Seq<EnumMutator>,
    input: Seq<u8>,
    k: int,
    mid: Seq<u8>,
    err: MutateError,
)
    requires
        0 <= k < stages.len(),
        pipeline_revert_rel(stages.skip(k + 1), input, mid),
        stages[k].revert_rel(mid, Err(err)),
    ensures
        pipeline_revert_fails_at(stages, input, k, err),
    decreases stages.len() - k,
{
    if k == stages.len() - 1 {
        assert(stages.skip(k + 1).len() == 0);
        assert(mid == input);
        assert(stages.last() == stages[k]);
    } else {
        let suffix = stages.skip(k + 1);
        let mid1 = choose|mid1: Seq<u8>|
            {
                &&& #[trigger] suffix.last().revert_rel(input, Ok(mid1))
                &&& pipeline_revert_rel(suffix.drop_last(), mid1, mid)
            };
        assert(suffix.last() == stages.last());
        assert(suffix.drop_last() =~= stages.drop_last().skip(k + 1));
        assert(stages.drop_last()[k] == stages[k]);
        lemma_revert_fails_compose(stages.drop_last(), mid1, k, mid, err);
    }
}

/// A stage that never loses information: every forward output decodes
/// back to the exact input, and its backward meaning admits one outcome
/// per input.
pub open spec fn stage_lossless(m: EnumMutator) -> bool {
    &&& (forall|i: Seq<u8>, o: Seq<u8>| #[trigger] m.drive_rel(i, o) ==> m.revert_rel(o, Ok(i)))
    &&& (forall|i: Seq<u8>, r1: Result<Seq<u8>, MutateError>, r2: Result<Seq<u8>, MutateError>|
        #[trigger] m.revert_rel(i, r1) && #[trigger] m.revert_rel(i, r2) ==> r1 == r2)
}

/// Composition round-trip law: through any chain of lossless stages,
/// whatever driving produced, reverting leads back to the original input.
pub proof fn lemma_pipeline_roundtrip(stages: Seq<EnumMutator>, x: Seq<u8>, y: Seq<u8>)
    requires
        forall|k: int| 0 <= k < stages.len() ==> stage_lossless(#[trigger] stages[k]),
        pipeline_drive_rel(stages, x, y),
    ensures
        pipeline_revert_rel(stages, y, x),
    decreases stages.len(),
{
    if stages.len() == 0 {
    } else {
        let mid = choose|mid: Seq<u8>|
            {
                &&& stages[0].drive_ok(x)
                &&& #[trigger] stages[0].drive_rel(x, mid)
                &&& pipeline_drive_rel(stages.skip(1), mid, y)
            };
        assert forall|k: int| 0 <= k < stages.skip(1).len() implies stage_lossless(
            #[trigger] stages.skip(1)[k],
        ) by {
            assert(stages.skip(1)[k] == stages[k + 1]);
        }
        lemma_pipeline_roundtrip(stages.skip(1), mid, y);
        assert(stages[0].revert_rel(mid, Ok(x)));
        lemma_revert_rel_cons(stages[0], stages.skip(1), y, mid, x);
        assert(seq![stages[0]] + stages.skip(1) =~= stages);
    }
}

/// Through lossless stages the backward run cannot fail on bytes that
/// the forward run can produce.
pub proof fn lemma_pipeline_revert_no_failure(
    stages: Seq<EnumMutator>,
    y: Seq<u8>,
    x: Seq<u8>,
)
    requires
        forall|k: int| 0 <= k < stages.len() ==> stage_lossless(#[trigger] stages[k]),
        pipeline_revert_rel(stages, y, x),
    ensures
        forall|k: int, e: MutateError| !pipeline_revert_fails_at(stages, y, k, e),
    decreases stages.len(),
{
    if stages.len() == 0 {
    } else {
        let mid = choose|mid: Seq<u8>|
            {
                &&& #[trigger] stages.last().revert_rel(y, Ok(mid))
                &&& pipeline_revert_rel(stages.drop_last(), mid, x)
            };
        assert(stage_lossless(stages.last())) by {
            assert(stages.last() == stages[stages.len() - 1]);
        }
        assert forall|k: int| 0 <= k < stages.drop_last().len() implies stage_lossless(
            #[trigger] stages.drop_last()[k],
        ) by {
            assert(stages.drop_last()[k] == stages[k]);
        }
        lemma_pipeline_revert_no_failure(stages.drop_last(), mid, x);
        assert forall|k: int, e: MutateError| !pipeline_revert_fails_at(stages, y, k, e) by {
            if pipeline_revert_fails_at(stages, y, k, e) {
                if k == stages.len() - 1 {
                    assert(stages.last().revert_rel(y, Err(e)));
                    assert(Ok::<Seq<u8>, MutateError>(mid) == Err::<Seq<u8>, MutateError>(e));
                } else {
                    let mid2 = choose|mid2: Seq<u8>|
                        {
                            &&& #[trigger] stages.last().revert_rel(y, Ok(mid2))
                            &&& pipeline_revert_fails_at(stages.drop_last(), mid2, k, e)
                        };
                    assert(Ok::<Seq<u8>, MutateError>(mid) == Ok::<Seq<u8>, MutateError>(mid2));
                }
            }
        }
    }
}

/// Through lossless stages the backward run has at most one result.
pub proof fn lemma_pipeline_revert_functional(
    stages: Seq<EnumMutator>,
    input: Seq<u8>,
    o1: Seq<u8>,
    o2: Seq<u8>,
)
    requires
        forall|k: int| 0 <= k < stages.len() ==> stage_lossless(#[trigger] stages[k]),
        pipeline_revert_rel(stages, input, o1),
        pipeline_revert_rel(stages, input, o2),
    ensures
        o1 == o2,
    decreases stages.len(),
{
    if stages.len() == 0 {
    } else {
        let mid1 = choose|mid1: Seq<u8>|
            {
                &&& #[trigger] stages.last().revert_rel(input, Ok(mid1))
                &&& pipeline_revert_rel(stages.drop_last(), mid1, o1)
            };
        let mid2 = choose|mid2: Seq<u8>|
            {
                &&& #[trigger] stages.last().revert_rel(input, Ok(mid2))
                &&& pipeline_revert_rel(stages.drop_last(), mid2, o2)
            };
        assert(stage_lossless(stages.last())) by {
            assert(stages.last() == stages[stages.len() - 1]);
        }
        assert(Ok::<Seq<u8>, MutateError>(mid1) == Ok::<Seq<u8>, MutateError>(mid2));
        assert forall|k: int| 0 <= k < stages.drop_last().len() implies stage_lossless(
            #[trigger] stages.drop_last()[k],
        ) by {
            assert(stages.drop_last()[k] == stages[k]);
        }
        lemma_pipeline_revert_functional(stages.drop_last(), mid1, o1, o2);
    }
}

/// Identity law: the empty pipeline maps every input to itself, in both
/// directions, and to nothing else.
pub proof fn lemma_empty_pipeline_identity(x: Seq<u8>)
    ensures
        pipeline_drive_rel(Seq::empty(), x, x),
        pipeline_revert_rel(Seq::empty(), x, x),
        forall|y: Seq<u8>| #[trigger] pipeline_drive_rel(Seq::empty(), x, y) ==> y == x,
        forall|y: Seq<u8>| #[trigger] pipeline_revert_rel(Seq::empty(), x, y) ==> y == x,
{
}

/// Round-trip law for the move-to-front stage.
pub proof fn lemma_mtf_stage_lossless()
    ensures
        stage_lossless(EnumMutator::Dyn(DynMutator::Mtf)),
{
    let m = EnumMutator::Dyn(DynMutator::Mtf);
    assert forall|i: Seq<u8>, o: Seq<u8>| #[trigger] m.drive_rel(i, o) implies m.revert_rel(
        o,
        Ok(i),
    ) by {
        crate::mtf::lemma_mtf_roundtrip(i);
    }
}

/// Round-trip law for the run-length stage.
pub proof fn lemma_rle_stage_lossless()
    ensures
        stage_lossless(EnumMutator::Dyn(DynMutator::Rle)),
{
    let m = EnumMutator::Dyn(DynMutator::Rle);
    assert forall|i: Seq<u8>, o: Seq<u8>| #[trigger] m.drive_rel(i, o) implies m.revert_rel(
        o,
        Ok(i),
    ) by {
        crate::rle::lemma_rle_roundtrip(i, o);
    }
}

/// Round-trip law for the block-framed stage.
pub proof fn lemma_bsc_stage_lossless()
    ensures
        stage_lossless(EnumMutator::Dyn(DynMutator::Bsc)),
{
    let m = EnumMutator::Dyn(DynMutator::Bsc);
    assert forall|i: Seq<u8>, o: Seq<u8>| #[trigger] m.drive_rel(i, o) implies m.revert_rel(
        o,
        Ok(i),
    ) by {
        crate::bsc::lemma_bsc_roundtrip(i);
    }
}

/// An ordered chain of mutators.
#[derive(Debug)]
pub struct CompressionPipeline {
    pub pipeline: Vec<EnumMutator>,
}

impl CompressionPipeline {
    /// The empty pipeline.
    pub fn new() -> (r: CompressionPipeline)
        ensures
            r.pipeline@.len() == 0,
    {
        CompressionPipeline { pipeline: Vec::new() }
    }

    /// Append a stage.
    pub fn push_algorithm(&mut self, algorithm: EnumMutator)
        ensures
            final(self).pipeline@ == old(self).pipeline@.push(algorithm),
    {
        self.pipeline.push(algorithm);
    }

    /// Append a built-in stage, chainable.
    pub fn with_algorithm(self, algorithm: DynMutator) -> (r: CompressionPipeline)
        ensures
            r.pipeline@ == self.pipeline@.push(EnumMutator::Dyn(algorithm)),
    {
        let mut p = self;
        p.pipeline.push(EnumMutator::Dyn(algorithm));
        p
    }

    /// Run every stage's forward transform in order, leaving the result in
    /// `buf`. On failure the error carries the failing stage's index and
    /// the output buffer must not be used.
    #[verifier::loop_isolation(false)]
    pub fn drive_mutation(&self, data: &[u8], buf: &mut Vec<u8>) -> (r: Result<(), StageError>)
        ensures
            match r {
                Ok(()) => pipeline_drive_rel(self.pipeline@, data@, final(buf)@),
                Err(e) => e.stage < self.pipeline@.len() && pipeline_drive_fails_at(
                    self.pipeline@,
                    data@,
                    e.stage as int,
                    e.error,
                ),
            },
    {
        let ghost stages = self.pipeline@;
        let n = self.pipeline.len();
        if n == 0 {
            let mut i: usize = 0;
            buf.clear();
            while i < data.len()
                invariant
                    0 <= i <= data@.len(),
                    buf@ == data@.take(i as int),
                decreases data@.len() - i,
            {
                buf.push(data[i]);
                proof {
                    assert(data@.take(i + 1 as int) =~= data@.take(i as int).push(data@[i as int]));
                }
                i = i + 1;
            }
            proof {
                assert(data@.take(data@.len() as int) =~= data@);
            }
            return Ok(());
        }
        let mut cur: Vec<u8> = Vec::new();
        let mut scratch: Vec<u8> = Vec::new();
        let mut stage0 = self.pipeline[0];
        match stage0.drive_mutation(data, &mut cur) {
            Ok(()) => {},
            Err(e) => {
                proof {
                    assert(stages.take(0).len() == 0);
                    lemma_drive_fails_compose(stages, data@, 0, data@, e);
                }
                return Err(StageError { stage: 0, error: e });
            },
        }
        proof {
            assert(stages.take(1)[0] == stages[0]);
            assert(stages.take(1).skip(1) =~= Seq::<EnumMutator>::empty());
            assert(stages.take(1)[0].drive_rel(data@, cur@));
            assert(pipeline_drive_rel(stages.take(1).skip(1), cur@, cur@));
            assert(pipeline_drive_rel(stages.take(1), data@, cur@));
        }
        let mut i: usize = 1;
        while i < n
            invariant
                1 <= i <= n,
                pipeline_drive_rel(stages.take(i as int), data@, cur@),
            decreases n - i,
        {
            let mut st = self.pipeline[i];
            match st.drive_mutation(cur.as_slice(), &mut scratch) {
                Ok(()) => {},
                Err(e) => {
                    proof {
                        lemma_drive_fails_compose(stages, data@, i as int, cur@, e);
                    }
                    return Err(StageError { stage: i, error: e });
                },
            }
            proof {
                lemma_drive_rel_snoc(stages.take(i as int), stages[i as int], data@, cur@, scratch@);
                assert(stages.take(i + 1 as int) =~= stages.take(i as int).push(stages[i as int]));
            }
            let t = cur;
            cur = scratch;
            scratch = t;
            i = i + 1;
        }
        proof {
            assert(stages.take(n as int) =~= stages);
        }
        *buf = cur;
        Ok(())
    }

    /// Run every stage's backward transform in reverse order, leaving the
    /// result in `buf`. On failure the error carries the failing stage's
    /// index and the output buffer must not be used.
    #[verifier::loop_isolation(false)]
    pub fn revert_mutation(&self, data: &[u8], buf: &mut Vec<u8>) -> (r: Result<(), StageError>)
        ensures
            match r {
                Ok(()) => pipeline_revert_rel(self.pipeline@, data@, final(buf)@),
                Err(e) => e.stage < self.pipeline@.len() && pipeline_revert_fails_at(
                    self.pipeline@,
                    data@,
                    e.stage as int,
                    e.error,
                ),
            },
    {
        let ghost stages = self.pipeline@;
        let n = self.pipeline.len();
        if n == 0 {
            let mut i: usize = 0;
            buf.clear();
            while i < data.len()
                invariant
                    0 <= i <= data@.len(),
                    buf@ == data@.take(i as int),
                decreases data@.len() - i,
            {
                buf.push(data[i]);
                proof {
                    assert(data@.take(i + 1 as int) =~= data@.take(i as int).push(data@[i as int]));
                }
                i = i + 1;
            }
            proof {
                assert(data@.take(data@.len() as int) =~= data@);
            }
            return Ok(());
        }
        let mut cur: Vec<u8> = Vec::new();
        let mut scratch: Vec<u8> = Vec::new();
        let mut stage_last = self.pipeline[n - 1];
        match stage_last.revert_mutation(data, &mut cur) {
            Ok(()) => {},
            Err(e) => {
                proof {
                    assert(stages.skip(n as int).len() == 0);
                    lemma_revert_fails_compose(stages, data@, n - 1, data@, e);
                }
                return Err(StageError { stage: n - 1, error: e });
            },
        }
        proof {
            let suffix = stages.skip(n - 1);
            assert(suffix.last() == stages[n - 1]);
            assert(suffix.drop_last() =~= Seq::<EnumMutator>::empty());
            assert(suffix.last().revert_rel(data@, Ok(cur@)));
            assert(pipeline_revert_rel(suffix.drop_last(), cur@, cur@));
            assert(pipeline_revert_rel(suffix, data@, cur@));
        }
        let mut j: usize = 1;
        while j < n
            invariant
                1 <= j <= n,
                pipeline_revert_rel(stages.skip(n - j), data@, cur@),
            decreases n - j,
        {
            let idx = n - j - 1;
            let mut st = self.pipeline[idx];
            match st.revert_mutation(cur.as_slice(), &mut scratch) {
                Ok(()) => {},
                Err(e) => {
                    proof {
                        assert(stages.skip(idx + 1) =~= stages.skip(n - j));
                        lemma_revert_fails_compose(stages, data@, idx as int, cur@, e);
                    }
                    return Err(StageError { stage: idx, error: e });
                },
            }
            proof {
                lemma_revert_rel_cons(stages[idx as int], stages.skip(n - j), data@, cur@, scratch@);
                assert(seq![stages[idx as int]] + stages.skip(n - j) =~= stages.skip(idx as int));
            }
            let t = cur;
            cur = scratch;
            scratch = t;
            j = j + 1;
        }
        proof {
            assert(stages.skip(0) =~= stages);
        }
        *buf = cur;
        Ok(())
    }
}

/// A pipeline-description byte that ends a name in the binary format.
pub open spec fn is_bin_delim(b: u8) -> bool {
    b == 44 || b == 0
}

/// The first binary delimiter at or after `start` (the length when none).
pub open spec fn find_delim(bytes: Seq<u8>, start: int) -> int
    decreases bytes.len() - start,
    when 0 <= start
{
    if start >= bytes.len() {
        bytes.len() as int
    } else if is_bin_delim(bytes[start]) {
        start
    } else {
        find_delim(bytes, start + 1)
    }
}

proof fn lemma_find_delim(bytes: Seq<u8>, start: int)
    requires
        0 <= start <= bytes.len(),
    ensures
        start <= find_delim(bytes, start) <= bytes.len(),
        find_delim(bytes, start) < bytes.len() ==> is_bin_delim(bytes[find_delim(bytes, start)]),
        forall|m: int| start <= m < find_delim(bytes, start) ==> !is_bin_delim(#[trigger] bytes[m]),
    decreases bytes.len() - start,
{
    if start >= bytes.len() {
    } else if is_bin_delim(bytes[start]) {
    } else {
        lemma_find_delim(bytes, start + 1);
    }
}

/// Meaning of the compact binary description from `start` on: names
/// separated by commas, ended by a NUL byte; a missing terminator or an
/// unknown name yields nothing.
pub open spec fn parse_binary_from(
    bytes: Seq<u8>,
    entries: Seq<RegisteredCompressor>,
    start: int,
) -> Option<Seq<EnumMutator>>
    decreases bytes.len() - start,
    when 0 <= start <= bytes.len()
    via parse_binary_from_decreases
{
    let d = find_delim(bytes, start);
    if d >= bytes.len() {
        None
    } else {
        match reg_find(entries, bytes.subrange(start, d)) {
            None => None,
            Some(e) => if bytes[d] == 0 {
                Some(seq![e.mutator])
            } else {
                match parse_binary_from(bytes, entries, d + 1) {
                    Some(rest) => Some(seq![e.mutator] + rest),
                    None => None,
                }
            },
        }
    }
}

#[via_fn]
proof fn parse_binary_from_decreases(bytes: Seq<u8>, entries: Seq<RegisteredCompressor>, start: int) {
    lemma_find_delim(bytes, start);
}

/// What `CompressionPipeline::try_from_bytes` computes.
pub open spec fn parse_binary_spec(bytes: Seq<u8>, entries: Seq<RegisteredCompressor>) -> Option<
    Seq<EnumMutator>,
> {
    parse_binary_from(bytes, entries, 0)
}

/// An ASCII space or tab.
pub open spec fn is_ws(b: u8) -> bool {
    b == 32 || b == 9
}

/// The first `->` at or after `start` (the length when none).
pub open spec fn find_arrow(bytes: Seq<u8>, start: int) -> int
    decreases bytes.len() - start,
    when 0 <= start
{
    if start + 2 > bytes.len() {
        bytes.len() as int
    } else if bytes[start] == 45 && bytes[start + 1] == 62 {
        start
    } else {
        find_arrow(bytes, start + 1)
    }
}

proof fn lemma_find_arrow(bytes: Seq<u8>, start: int)
    requires
        0 <= start <= bytes.len(),
    ensures
        start <= find_arrow(bytes, start) <= bytes.len(),
        find_arrow(bytes, start) < bytes.len() ==> {
            &&& find_arrow(bytes, start) + 2 <= bytes.len()
            &&& bytes[find_arrow(bytes, start)] == 45
            &&& bytes[find_arrow(bytes, start) + 1] == 62
        },
        forall|m: int|
            start <= m < find_arrow(bytes, start) && m + 2 <= bytes.len() ==> !(#[trigger] bytes[m]
                == 45 && bytes[m + 1] == 62),
    decreases bytes.len() - start,
{
    if start + 2 > bytes.len() {
    } else if bytes[start] == 45 && bytes[start + 1] == 62 {
    } else {
        lemma_find_arrow(bytes, start + 1);
    }
}

/// `t` without its leading spaces and tabs.
pub open spec fn trim_front(t: Seq<u8>) -> Seq<u8>
    decreases t.len(),
{
    if t.len() > 0 && is_ws(t[0]) {
        trim_front(t.skip(1))
    } else {
        t
    }
}

/// `t` without its trailing spaces and tabs.
pub open spec fn trim_back(t: Seq<u8>) -> Seq<u8>
    decreases t.len(),
{
    if t.len() > 0 && is_ws(t.last()) {
        trim_back(t.drop_last())
    } else {
        t
    }
}

/// `t` without leading and trailing spaces and tabs.
pub open spec fn trim_spec(t: Seq<u8>) -> Seq<u8> {
    trim_back(trim_front(t))
}

proof fn lemma_trim_front_exact(t: Seq<u8>, k: int)
    requires
        0 <= k <= t.len(),
        forall|m: int| 0 <= m < k ==> is_ws(#[trigger] t[m]),
        k < t.len() ==> !is_ws(t[k]),
    ensures
        trim_front(t) == t.skip(k),
    decreases k,
{
    if k == 0 {
        assert(t.skip(0) =~= t);
    } else {
        lemma_trim_front_exact(t.skip(1), k - 1);
        assert(t.skip(1).skip(k - 1) =~= t.skip(k));
    }
}

proof fn lemma_trim_back_exact(t: Seq<u8>, k: int)
    requires
        0 <= k <= t.len(),
        forall|m: int| k <= m < t.len() ==> is_ws(#[trigger] t[m]),
        k > 0 ==> !is_ws(t[k - 1]),
    ensures
        trim_back(t) == t.take(k),
    decreases t.len() - k,
{
    if k == t.len() {
        assert(t.take(k) =~= t);
    } else {
        lemma_trim_back_exact(t.drop_last(), k);
        assert(t.drop_last() =~= t.take(t.len() - 1));
        assert(t.drop_last().take(k) =~= t.take(k));
    }
}

/// Whitespace law: padding a name with spaces and tabs on either side
/// does not change what trimming yields, so a padded name resolves to
/// the same registry entry as the bare one.
pub proof fn lemma_trim_strips_padding(p1: Seq<u8>, t: Seq<u8>, p2: Seq<u8>)
    requires
        forall|m: int| 0 <= m < p1.len() ==> is_ws(#[trigger] p1[m]),
        forall|m: int| 0 <= m < p2.len() ==> is_ws(#[trigger] p2[m]),
        t.len() > 0,
        !is_ws(t[0]),
        !is_ws(t.last()),
    ensures
        trim_spec(p1 + t + p2) == t,
{
    let whole = p1 + t + p2;
    assert(whole[p1.len() as int] == t[0]);
    assert forall|m: int| 0 <= m < p1.len() implies is_ws(#[trigger] whole[m]) by {
        assert(whole[m] == p1[m]);
    }
    lemma_trim_front_exact(whole, p1.len() as int);
    let tp = whole.skip(p1.len() as int);
    assert(tp =~= t + p2);
    assert forall|m: int| t.len() <= m < tp.len() implies is_ws(#[trigger] tp[m]) by {
        assert(tp[m] == p2[m - t.len()]);
    }
    assert(tp[t.len() - 1] == t.last());
    lemma_trim_back_exact(tp, t.len() as int);
    assert(tp.take(t.len() as int) =~= t);
}

/// Meaning of the human description from `start` on: names separated by
/// `->`, spaces and tabs around names ignored; an unknown name yields
/// nothing.
pub open spec fn parse_text_from(
    bytes: Seq<u8>,
    entries: Seq<RegisteredCompressor>,
    start: int,
) -> Option<Seq<EnumMutator>>
    decreases bytes.len() - start,
    when 0 <= start <= bytes.len()
    via parse_text_from_decreases
{
    let a = find_arrow(bytes, start);
    let name = trim_spec(bytes.subrange(start, a));
    match reg_find(entries, name) {
        None => None,
        Some(e) => if a >= bytes.len() {
            Some(seq![e.mutator])
        } else {
            match parse_text_from(bytes, entries, a + 2) {
                Some(rest) => Some(seq![e.mutator] + rest),
                None => None,
            }
        },
    }
}

#[via_fn]
proof fn parse_text_from_decreases(bytes: Seq<u8>, entries: Seq<RegisteredCompressor>, start: int) {
    lemma_find_arrow(bytes, start);
}

/// What `parse_pipeline_text` computes: the empty description is the
/// empty pipeline; otherwise the resolved chain of trimmed names.
pub open spec fn parse_text_spec(bytes: Seq<u8>, entries: Seq<RegisteredCompressor>) -> Option<
    Seq<EnumMutator>,
> {
    if bytes.len() == 0 {
        Some(Seq::empty())
    } else {
        parse_text_from(bytes, entries, 0)
    }
}

/// Copy `data[from..to]` into a fresh vector.
#[verifier::loop_isolation(false)]
fn copy_byte_range(data: &[u8], from: usize, to: usize) -> (r: Vec<u8>)
    requires
        from <= to <= data@.len(),
    ensures
        r@ == data@.subrange(from as int, to as int),
{
    let mut out: Vec<u8> = Vec::new();
    let mut i: usize = from;
    while i < to
        invariant
            from <= i <= to,
            out@ == data@.subrange(from as int, i as int),
        decreases to - i,
    {
        out.push(data[i]);
        proof {
            assert(out@ =~= data@.subrange(from as int, i + 1 as int));
        }
        i = i + 1;
    }
    out
}

impl CompressionPipeline {
    /// Decode the compact binary description `name1,name2,...\0` against
    /// the registry.
    pub fn try_from_bytes(bytes: &[u8], registry: &Registry) -> (r: Option<CompressionPipeline>)
        ensures
            match r {
                Some(p) => parse_binary_spec(bytes@, registry.entries@) == Some(p.pipeline@),
                None => parse_binary_spec(bytes@, registry.entries@) is None,
            },
    {
        let ghost entries = registry.entries@;
        let mut stages: Vec<EnumMutator> = Vec::new();
        let mut start: usize = 0;
        loop
            invariant_except_break
                0 <= start <= bytes@.len(),
                match parse_binary_from(bytes@, entries, start as int) {
                    Some(rest) => parse_binary_spec(bytes@, entries) == Some(stages@ + rest),
                    None => parse_binary_spec(bytes@, entries) is None,
                },
                entries == registry.entries@,
            ensures
                match parse_binary_spec(bytes@, entries) {
                    Some(all) => stages@ == all,
                    None => false,
                },
                entries == registry.entries@,
            decreases bytes@.len() - start,
        {
            // scan to the next delimiter
            let mut d: usize = start;
            while d < bytes.len() && bytes[d] != 44 && bytes[d] != 0
                invariant
                    0 <= start <= d <= bytes@.len(),
                    forall|m: int| start <= m < d ==> !is_bin_delim(#[trigger] bytes@[m]),
                decreases bytes@.len() - d,
            {
                d = d + 1;
            }
            proof {
                lemma_find_delim(bytes@, start as int);
                if d < bytes@.len() {
                    assert(is_bin_delim(bytes@[d as int]));
                }
                assert(find_delim(bytes@, start as int) == d as int) by {
                    let fd = find_delim(bytes@, start as int);
                    if fd < d {
                        assert(!is_bin_delim(bytes@[fd]));
                    }
                    if fd > d as int {
                        assert(!is_bin_delim(bytes@[d as int]));
                    }
                }
            }
            if d >= bytes.len() {
                return None;
            }
            let token = copy_byte_range(bytes, start, d);
            let entry = match registry.find_bytes(token.as_slice()) {
                Some(e) => *e,
                None => {
                    return None;
                },
            };
            stages.push(entry.mutator);
            if bytes[d] == 0 {
                proof {
                    assert(stages@ =~= stages@.drop_last().push(entry.mutator));
                    assert(stages@.drop_last() + seq![entry.mutator] =~= stages@);
                }
                break ;
            }
            proof {
                let ghost old_stages = stages@.drop_last();
                assert(old_stages.push(entry.mutator) =~= stages@);
                match parse_binary_from(bytes@, entries, d + 1 as int) {
                    Some(rest) => {
                        assert(old_stages + (seq![entry.mutator] + rest) =~= stages@ + rest);
                    },
                    None => {},
                }
            }
            start = d + 1;
        }
        Some(CompressionPipeline { pipeline: stages })
    }
}

/// Parse the human description `name1 -> name2 -> ...` against the
/// registry; spaces and tabs around names are ignored, the empty string
/// is the empty pipeline, and an unknown name fails the whole parse.
pub fn parse_pipeline_text(s: &str, registry: &Registry) -> (r: Option<CompressionPipeline>)
    ensures
        match r {
            Some(p) => parse_text_spec(s.spec_bytes(), registry.entries@) == Some(p.pipeline@),
            None => parse_text_spec(s.spec_bytes(), registry.entries@) is None,
        },
{
    let ghost entries = registry.entries@;
    let bytes = s.as_bytes();
    if bytes.len() == 0 {
        return Some(CompressionPipeline { pipeline: Vec::new() });
    }
    let mut stages: Vec<EnumMutator> = Vec::new();
    let mut start: usize = 0;
    loop
        invariant_except_break
            0 <= start <= bytes@.len(),
            bytes@ == s.spec_bytes(),
            bytes@.len() > 0,
            match parse_text_from(bytes@, entries, start as int) {
                Some(rest) => parse_text_spec(bytes@, entries) == Some(stages@ + rest),
                None => parse_text_spec(bytes@, entries) is None,
            },
            entries == registry.entries@,
        ensures
            match parse_text_spec(bytes@, entries) {
                Some(all) => stages@ == all,
                None => false,
            },
            bytes@ == s.spec_bytes(),
            entries == registry.entries@,
        decreases bytes@.len() - start,
    {
        // scan to the next arrow
        let mut a: usize = start;
        loop
            invariant_except_break
                start <= a <= bytes@.len(),
                forall|m: int|
                    start <= m < a && m + 2 <= bytes@.len() ==> !(#[trigger] bytes@[m] == 45
                        && bytes@[m + 1] == 62),
            ensures
                start <= a <= bytes@.len(),
                forall|m: int|
                    start <= m < a && m + 2 <= bytes@.len() ==> !(#[trigger] bytes@[m] == 45
                        && bytes@[m + 1] == 62),
                a < bytes@.len() ==> a + 2 <= bytes@.len() && bytes@[a as int] == 45 && bytes@[a
                    + 1] == 62,
            decreases bytes@.len() - a,
        {
            if bytes.len() - a < 2 {
                a = bytes.len();
                break ;
            }
            if bytes[a] == 45 && bytes[a + 1] == 62 {
                break ;
            }
            a = a + 1;
        }
        proof {
            lemma_find_arrow(bytes@, start as int);
            assert(find_arrow(bytes@, start as int) == a as int) by {
                let fa = find_arrow(bytes@, start as int);
                if fa < a {
                    assert(!(bytes@[fa] == 45 && bytes@[fa + 1] == 62));
                }
                if fa > a as int {
                    assert(!(bytes@[a as int] == 45 && bytes@[a + 1] == 62));
                }
            }
        }
        // trim the token
        let mut t0: usize = start;
        while t0 < a && (bytes[t0] == 32 || bytes[t0] == 9)
            invariant
                start <= t0 <= a <= bytes@.len(),
                forall|m: int| start <= m < t0 ==> is_ws(#[trigger] bytes@[m]),
            decreases a - t0,
        {
            t0 = t0 + 1;
        }
        let mut t1: usize = a;
        while t1 > t0 && (bytes[t1 - 1] == 32 || bytes[t1 - 1] == 9)
            invariant
                t0 <= t1 <= a <= bytes@.len(),
                forall|m: int| t1 <= m < a ==> is_ws(#[trigger] bytes@[m]),
            decreases t1 - t0,
        {
            t1 = t1 - 1;
        }
        proof {
            let tok = bytes@.subrange(start as int, a as int);
            assert forall|m: int| 0 <= m < t0 - start implies is_ws(#[trigger] tok[m]) by {
                assert(tok[m] == bytes@[start + m]);
            }
            if t0 < a {
                assert(tok[t0 - start] == bytes@[t0 as int]);
            }
            lemma_trim_front_exact(tok, t0 - start);
            let tf = tok.skip(t0 - start);
            assert forall|m: int| t1 - t0 <= m < tf.len() implies is_ws(#[trigger] tf[m]) by {
                assert(tf[m] == bytes@[t0 + m]);
            }
            if t1 > t0 {
                assert(tf[t1 - t0 - 1] == bytes@[t1 - 1]);
            }
            lemma_trim_back_exact(tf, t1 - t0);
            assert(tf.take(t1 - t0) =~= bytes@.subrange(t0 as int, t1 as int));
            assert(trim_spec(tok) == bytes@.subrange(t0 as int, t1 as int));
        }
        let token = copy_byte_range(bytes, t0, t1);
        let entry = match registry.find_bytes(token.as_slice()) {
            Some(e) => *e,
            None => {
                return None;
            },
        };
        stages.push(entry.mutator);
        if a >= bytes.len() {
            proof {
                assert(stages@.drop_last() + seq![entry.mutator] =~= stages@);
            }
            break ;
        }
        proof {
            let ghost old_stages = stages@.drop_last();
            assert(old_stages.push(entry.mutator) =~= stages@);
            match parse_text_from(bytes@, entries, a + 2 as int) {
                Some(rest) => {
                    assert(old_stages + (seq![entry.mutator] + rest) =~= stages@ + rest);
                },
                None => {},
            }
        }
        start = a + 2;
    }
    Some(CompressionPipeline { pipeline: stages })
}

/// The default chain: Burrows-Wheeler, then move-to-front, then the
/// arithmetic coder.
pub fn default_pipeline() -> (r: CompressionPipeline)
    ensures
        r.pipeline@ =~= seq![
            EnumMutator::Dyn(DynMutator::Bwt),
            EnumMutator::Dyn(DynMutator::Mtf),
            EnumMutator::Dyn(DynMutator::Arithmetic),
        ],
{
    CompressionPipeline::new().with_algorithm(DynMutator::Bwt).with_algorithm(
        DynMutator::Mtf,
    ).with_algorithm(DynMutator::Arithmetic)
}

/// The block-framed coder alone.
pub fn bsc() -> (r: CompressionPipeline)
    ensures
        r.pipeline@ =~= seq![EnumMutator::Dyn(DynMutator::Bsc)],
{
    CompressionPipeline::new().with_algorithm(DynMutator::Bsc)
}

/// Resolve a preset name, before any registry lookup happens.
pub fn get_preset(s: &str) -> (r: Option<CompressionPipeline>)
    ensures
        match r {
            Some(p) => (s.spec_bytes() == "default".spec_bytes() && p.pipeline@ =~= seq![
                EnumMutator::Dyn(DynMutator::Bwt),
                EnumMutator::Dyn(DynMutator::Mtf),
                EnumMutator::Dyn(DynMutator::Arithmetic),
            ]) || (s.spec_bytes() == "bsc".spec_bytes() && p.pipeline@ =~= seq![
                EnumMutator::Dyn(DynMutator::Bsc),
            ]),
            None => s.spec_bytes() != "default".spec_bytes() && s.spec_bytes()
                != "bsc".spec_bytes(),
        },
{
    if crate::registered::bytes_eq(s.as_bytes(), "default".as_bytes()) {
        Some(default_pipeline())
    } else if crate::registered::bytes_eq(s.as_bytes(), "bsc".as_bytes()) {
        Some(bsc())
    } else {
        None
    }
}

/// A stage whose forward meaning admits one output per input.
pub open spec fn stage_deterministic(m: EnumMutator) -> bool {
    forall|i: Seq<u8>, o1: Seq<u8>, o2: Seq<u8>|
        #[trigger] m.drive_rel(i, o1) && #[trigger] m.drive_rel(i, o2) ==> o1 == o2
}

/// Determinism law: through deterministic stages, two runs on identical
/// inputs produce byte-identical outputs.
pub proof fn lemma_pipeline_drive_functional(
    stages: Seq<EnumMutator>,
    input: Seq<u8>,
    o1: Seq<u8>,
    o2: Seq<u8>,
)
    requires
        forall|k: int| 0 <= k < stages.len() ==> stage_deterministic(#[trigger] stages[k]),
        pipeline_drive_rel(stages, input, o1),
        pipeline_drive_rel(stages, input, o2),
    ensures
        o1 == o2,
    decreases stages.len(),
{
    if stages.len() == 0 {
    } else {
        let mid1 = choose|mid1: Seq<u8>|
            {
                &&& stages[0].drive_ok(input)
                &&& #[trigger] stages[0].drive_rel(input, mid1)
                &&& pipeline_drive_rel(stages.skip(1), mid1, o1)
            };
        let mid2 = choose|mid2: Seq<u8>|
            {
                &&& stages[0].drive_ok(input)
                &&& #[trigger] stages[0].drive_rel(input, mid2)
                &&& pipeline_drive_rel(stages.skip(1), mid2, o2)
            };
        assert(stage_deterministic(stages[0]));
        assert(mid1 == mid2);
        assert forall|k: int| 0 <= k < stages.skip(1).len() implies stage_deterministic(
            #[trigger] stages.skip(1)[k],
        ) by {
            assert(stages.skip(1)[k] == stages[k + 1]);
        }
        lemma_pipeline_drive_functional(stages.skip(1), mid1, o1, o2);
    }
}

/// The move-to-front stage is deterministic.
pub proof fn lemma_mtf_stage_deterministic()
    ensures
        stage_deterministic(EnumMutator::Dyn(DynMutator::Mtf)),
{
}

/// The block-framed stage is deterministic.
pub proof fn lemma_bsc_stage_deterministic()
    ensures
        stage_deterministic(EnumMutator::Dyn(DynMutator::Bsc)),
{
}

/// The arithmetic stage is deterministic.
pub proof fn lemma_arith_stage_deterministic()
    ensures
        stage_deterministic(EnumMutator::Dyn(DynMutator::Arithmetic)),
{
}

/// The run-length stage is deterministic: the greedy choice is unique.
pub proof fn lemma_rle_stage_deterministic()
    ensures
        stage_deterministic(EnumMutator::Dyn(DynMutator::Rle)),
{
    let m = EnumMutator::Dyn(DynMutator::Rle);
    assert forall|i: Seq<u8>, o1: Seq<u8>, o2: Seq<u8>|
        #[trigger] m.drive_rel(i, o1) && #[trigger] m.drive_rel(i, o2) implies o1 == o2 by {
        crate::rle::lemma_rle_encode_deterministic(i, o1, o2);
    }
}

/// The Burrows-Wheeler stage is deterministic: the sorted rotation order
/// is unique.
pub proof fn lemma_bwt_stage_deterministic()
    ensures
        stage_deterministic(EnumMutator::Dyn(DynMutator::Bwt)),
{
    let m = EnumMutator::Dyn(DynMutator::Bwt);
    assert forall|i: Seq<u8>, o1: Seq<u8>, o2: Seq<u8>|
        #[trigger] m.drive_rel(i, o1) && #[trigger] m.drive_rel(i, o2) implies o1 == o2 by {
        if i.len() >= 4 {
            crate::bwt::lemma_bwt_encode_deterministic(i, o1, o2);
        }
    }
}

/// Every built-in stage is deterministic, so any chain of built-ins
/// produces byte-identical outputs across runs.
pub proof fn lemma_builtin_stages_deterministic()
    ensures
        forall|m: DynMutator| #[trigger] stage_deterministic(EnumMutator::Dyn(m)),
{
    assert forall|m: DynMutator| #[trigger] stage_deterministic(EnumMutator::Dyn(m)) by {
        match m {
            DynMutator::Bwt => lemma_bwt_stage_deterministic(),
            DynMutator::Mtf => lemma_mtf_stage_deterministic(),
            DynMutator::Arithmetic => lemma_arith_stage_deterministic(),
            DynMutator::Rle => lemma_rle_stage_deterministic(),
            DynMutator::Bsc => lemma_bsc_stage_deterministic(),
        }
    }
}

} // verus!
