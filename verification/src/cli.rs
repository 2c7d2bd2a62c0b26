//! The decision layer behind the command-line surface: which pipeline a
//! run uses, how pipeline metadata is persisted, and the argument records
//! those decisions are read from. Argument parsing itself and all file
//! handling live in the application crate, which converts into these
//! types.

use vstd::prelude::*;

use vstd::string::StringSliceAdditionalSpecFns;

verus! {

/// Where the pipeline description should be sourced from.
#[derive(Debug, Clone)]
pub enum PipelineSelection {
    Inline(String),
    FromFile(String),
    Preset(String),
    Default,
}

/// Common selectors for pipeline inputs; at most one is set.
#[derive(Debug, Clone)]
pub struct PipelineSelector {
    pub inline: Option<String>,
    pub from_file: Option<String>,
    pub preset: Option<String>,
}

impl PipelineSelector {
    /// Resolve to a concrete pipeline selection, defaulting when no
    /// option is provided; an inline description wins over a file, which
    /// wins over a preset.
    pub fn selection(&self) -> (r: PipelineSelection)
        ensures
            self.inline is Some ==> (r matches PipelineSelection::Inline(s) && s@
                == self.inline->0@),
            self.inline is None && self.from_file is Some ==> (r
                matches PipelineSelection::FromFile(s) && s@ == self.from_file->0@),
            self.inline is None && self.from_file is None && self.preset is Some ==> (r
                matches PipelineSelection::Preset(s) && s@ == self.preset->0@),
            self.inline is None && self.from_file is None && self.preset is None ==> r
                == PipelineSelection::Default,
    {
        match &self.inline {
            Some(inline) => PipelineSelection::Inline(inline.clone()),
            None => match &self.from_file {
                Some(path) => PipelineSelection::FromFile(path.clone()),
                None => match &self.preset {
                    Some(preset) => PipelineSelection::Preset(preset.clone()),
                    None => PipelineSelection::Default,
                },
            },
        }
    }
}

/// Encoding-time storage mode for pipeline metadata.
#[derive(Debug, Clone, Copy, PartialEq, Eq, Structural)]
pub enum PipelinePersistence {
    Sidecar,
    Embedded,
    Raw,
}

/// Packaged pipeline persistence strategy; the flags conflict.
#[derive(Debug, Clone, Copy)]
pub struct PipelinePersistenceArgs {
    pub embed_to_file: bool,
    pub raw: bool,
}

impl PipelinePersistenceArgs {
    /// The persistence mode the flags select: embedded wins, then raw,
    /// then the sidecar default.
    pub fn mode(&self) -> (r: PipelinePersistence)
        ensures
            r == if self.embed_to_file {
                PipelinePersistence::Embedded
            } else if self.raw {
                PipelinePersistence::Raw
            } else {
                PipelinePersistence::Sidecar
            },
    {
        if self.embed_to_file {
            PipelinePersistence::Embedded
        } else if self.raw {
            PipelinePersistence::Raw
        } else {
            PipelinePersistence::Sidecar
        }
    }
}

/// Arguments of the encode command.
#[derive(Debug, Clone)]
pub struct EncodeArgs {
    pub input: String,
    pub output: String,
    pub pipeline: PipelineSelector,
    pub persistence: PipelinePersistenceArgs,
}

impl EncodeArgs {
    pub fn pipeline_selection(&self) -> (r: PipelineSelection)
        ensures
            self.pipeline.inline is Some ==> (r matches PipelineSelection::Inline(s) && s@
                == self.pipeline.inline->0@),
            self.pipeline.inline is None && self.pipeline.from_file is Some ==> (r
                matches PipelineSelection::FromFile(s) && s@ == self.pipeline.from_file->0@),
            self.pipeline.inline is None && self.pipeline.from_file is None
                && self.pipeline.preset is Some ==> (r matches PipelineSelection::Preset(s) && s@
                == self.pipeline.preset->0@),
            self.pipeline.inline is None && self.pipeline.from_file is None
                && self.pipeline.preset is None ==> r == PipelineSelection::Default,
    {
        self.pipeline.selection()
    }

    pub fn persistence_mode(&self) -> (r: PipelinePersistence)
        ensures
            r == if self.persistence.embed_to_file {
                PipelinePersistence::Embedded
            } else if self.persistence.raw {
                PipelinePersistence::Raw
            } else {
                PipelinePersistence::Sidecar
            },
    {
        self.persistence.mode()
    }
}

/// Arguments of the decode command.
#[derive(Debug, Clone)]
pub struct DecodeArgs {
    pub input: String,
    pub output: String,
    pub pipeline: PipelineSelector,
    pub brute_force_depth: Option<usize>,
}

impl DecodeArgs {
    pub fn pipeline_selection(&self) -> (r: PipelineSelection)
        ensures
            self.pipeline.inline is Some ==> (r matches PipelineSelection::Inline(s) && s@
                == self.pipeline.inline->0@),
            self.pipeline.inline is None && self.pipeline.from_file is Some ==> (r
                matches PipelineSelection::FromFile(s) && s@ == self.pipeline.from_file->0@),
            self.pipeline.inline is None && self.pipeline.from_file is None
                && self.pipeline.preset is Some ==> (r matches PipelineSelection::Preset(s) && s@
                == self.pipeline.preset->0@),
            self.pipeline.inline is None && self.pipeline.from_file is None
                && self.pipeline.preset is None ==> r == PipelineSelection::Default,
    {
        self.pipeline.selection()
    }
}

/// Arguments of the round-trip test command.
#[derive(Debug, Clone)]
pub struct TestArgs {
    pub input: String,
    pub pipeline: PipelineSelector,
    pub write_files_if_failed: bool,
}

impl TestArgs {
    pub fn pipeline_selection(&self) -> (r: PipelineSelection)
        ensures
            self.pipeline.inline is Some ==> (r matches PipelineSelection::Inline(s) && s@
                == self.pipeline.inline->0@),
            self.pipeline.inline is None && self.pipeline.from_file is Some ==> (r
                matches PipelineSelection::FromFile(s) && s@ == self.pipeline.from_file->0@),
            self.pipeline.inline is None && self.pipeline.from_file is None
                && self.pipeline.preset is Some ==> (r matches PipelineSelection::Preset(s) && s@
                == self.pipeline.preset->0@),
            self.pipeline.inline is None && self.pipeline.from_file is None
                && self.pipeline.preset is None ==> r == PipelineSelection::Default,
    {
        self.pipeline.selection()
    }
}

/// Arguments of the corpus benchmark command.
#[derive(Debug, Clone)]
pub struct CorpusArgs {
    pub pipeline: PipelineSelector,
}

impl CorpusArgs {
    pub fn pipeline_selection(&self) -> (r: PipelineSelection)
        ensures
            self.pipeline.inline is Some ==> (r matches PipelineSelection::Inline(s) && s@
                == self.pipeline.inline->0@),
            self.pipeline.inline is None && self.pipeline.from_file is Some ==> (r
                matches PipelineSelection::FromFile(s) && s@ == self.pipeline.from_file->0@),
            self.pipeline.inline is None && self.pipeline.from_file is None
                && self.pipeline.preset is Some ==> (r matches PipelineSelection::Preset(s) && s@
                == self.pipeline.preset->0@),
            self.pipeline.inline is None && self.pipeline.from_file is None
                && self.pipeline.preset is None ==> r == PipelineSelection::Default,
    {
        self.pipeline.selection()
    }
}

/// Pipeline inspection and management subcommands.
#[derive(Debug, Clone)]
pub enum PipelineCommand {
    ListCompressors { detailed: bool },
    ListPlugins,
    SaveToFile { pipeline: String, output: String },
}

/// The supported subcommands.
#[derive(Debug, Clone)]
pub enum Command {
    Encode(EncodeArgs),
    Decode(DecodeArgs),
    Test(TestArgs),
    Pipeline(PipelineCommand),
    Corpus(CorpusArgs),
}

/// The whole command line.
#[derive(Debug, Clone)]
pub struct Cli {
    pub unsafe_mode: bool,
    pub command: Command,
}

/// Why a brute-force depth did not parse.
#[derive(Clone, Copy, PartialEq, Eq, Structural, Debug)]
pub enum DepthParseError {
    /// Not a plain decimal number within range.
    Malformed,
    /// Parsed, but a depth of zero is not allowed.
    Zero,
}

pub open spec fn is_digit(b: u8) -> bool {
    48 <= b <= 57
}

pub open spec fn all_digits(b: Seq<u8>) -> bool {
    forall|i: int| 0 <= i < b.len() ==> is_digit(#[trigger] b[i])
}

/// The value of a decimal digit string.
pub open spec fn dec_val(b: Seq<u8>) -> int
    decreases b.len(),
{
    if b.len() == 0 {
        0
    } else {
        dec_val(b.drop_last()) * 10 + (b.last() - 48)
    }
}

proof fn lemma_dec_val_nonneg(b: Seq<u8>)
    requires
        all_digits(b),
    ensures
        dec_val(b) >= 0,
    decreases b.len(),
{
    if b.len() > 0 {
        assert(all_digits(b.drop_last())) by {
            assert(forall|i: int|
                0 <= i < b.drop_last().len() ==> b.drop_last()[i] == #[trigger] b[i]);
        }
        lemma_dec_val_nonneg(b.drop_last());
    }
}

proof fn lemma_dec_val_prefix_le(b: Seq<u8>, i: int)
    requires
        all_digits(b),
        0 <= i <= b.len(),
    ensures
        dec_val(b.take(i)) <= dec_val(b),
    decreases b.len() - i,
{
    if i < b.len() {
        lemma_dec_val_prefix_le(b, i + 1);
        let p = b.take(i + 1);
        assert(p.drop_last() =~= b.take(i));
        assert(all_digits(b.take(i))) by {
            assert(forall|m: int| 0 <= m < i ==> b.take(i)[m] == #[trigger] b[m]);
        }
        lemma_dec_val_nonneg(b.take(i));
        assert(dec_val(p) == dec_val(b.take(i)) * 10 + (p.last() - 48));
        assert(dec_val(b.take(i)) * 10 >= dec_val(b.take(i))) by (nonlinear_arith)
            requires
                dec_val(b.take(i)) >= 0,
        ;
    } else {
        assert(b.take(i) =~= b);
    }
}

/// Parse a positive decimal pipeline depth. Zero depth, a non-digit, an
/// empty string and values past the machine range are all rejected.
#[verifier::loop_isolation(false)]
pub fn parse_positive_depth(raw: &str) -> (r: Result<usize, DepthParseError>)
    ensures
        match r {
            Ok(d) => {
                &&& all_digits(raw.spec_bytes())
                &&& raw.spec_bytes().len() > 0
                &&& d as int == dec_val(raw.spec_bytes())
                &&& d >= 1
            },
            Err(DepthParseError::Zero) => {
                &&& all_digits(raw.spec_bytes())
                &&& raw.spec_bytes().len() > 0
                &&& dec_val(raw.spec_bytes()) == 0
            },
            Err(DepthParseError::Malformed) => {
                ||| !all_digits(raw.spec_bytes())
                ||| raw.spec_bytes().len() == 0
                ||| dec_val(raw.spec_bytes()) > usize::MAX
            },
        },
{
    let bytes = raw.as_bytes();
    if bytes.len() == 0 {
        return Err(DepthParseError::Malformed);
    }
    let mut acc: usize = 0;
    let mut i: usize = 0;
    while i < bytes.len()
        invariant
            0 <= i <= bytes@.len(),
            all_digits(bytes@.take(i as int)),
            acc as int == dec_val(bytes@.take(i as int)),
        decreases bytes@.len() - i,
    {
        let b = bytes[i];
        if b < 48 || b > 57 {
            proof {
                assert(!is_digit(bytes@[i as int]));
            }
            return Err(DepthParseError::Malformed);
        }
        let d = (b - 48) as usize;
        proof {
            assert(bytes@.take(i + 1 as int).drop_last() =~= bytes@.take(i as int));
            assert(all_digits(bytes@.take(i + 1 as int))) by {
                assert(forall|m: int|
                    0 <= m < i ==> bytes@.take(i + 1 as int)[m] == #[trigger] bytes@.take(
                        i as int,
                    )[m]);
            }
        }
        if acc > usize::MAX / 10 || (acc == usize::MAX / 10 && d > usize::MAX % 10) {
            proof {
                assert(acc * 10 + d > usize::MAX) by (nonlinear_arith)
                    requires
                        acc > usize::MAX / 10 || (acc == usize::MAX / 10 && d > usize::MAX % 10),
                        usize::MAX == usize::MAX / 10 * 10 + usize::MAX % 10,
                        d >= 0,
                ;
                assert(dec_val(bytes@.take(i + 1 as int)) > usize::MAX);
                // a longer digit string can only be larger
                assert forall|j: int| i + 1 <= j <= bytes@.len() && all_digits(
                    bytes@.take(j),
                ) implies dec_val(#[trigger] bytes@.take(j)) > usize::MAX by {
                    lemma_dec_val_prefix_le(bytes@.take(j), i + 1);
                    assert(bytes@.take(j).take(i + 1) =~= bytes@.take(i + 1 as int));
                }
            }
            // the value no longer fits; the whole string is out of range
            // if the remaining characters are digits, and malformed
            // otherwise
            let mut j: usize = i + 1;
            while j < bytes.len()
                invariant
                    i + 1 <= j <= bytes@.len(),
                    all_digits(bytes@.take(j as int)),
                    forall|j2: int|
                        i + 1 <= j2 <= bytes@.len() && all_digits(bytes@.take(j2)) ==> dec_val(
                            #[trigger] bytes@.take(j2),
                        ) > usize::MAX,
                decreases bytes@.len() - j,
            {
                let b2 = bytes[j];
                if b2 < 48 || b2 > 57 {
                    proof {
                        assert(!is_digit(bytes@[j as int]));
                    }
                    return Err(DepthParseError::Malformed);
                }
                proof {
                    assert(all_digits(bytes@.take(j + 1 as int))) by {
                        assert(forall|m: int|
                            0 <= m < j ==> bytes@.take(j + 1 as int)[m] == #[trigger] bytes@.take(
                                j as int,
                            )[m]);
                        assert(bytes@.take(j + 1 as int)[j as int] == bytes@[j as int]);
                    }
                }
                j = j + 1;
            }
            proof {
                assert(bytes@.take(bytes@.len() as int) =~= bytes@);
            }
            return Err(DepthParseError::Malformed);
        }
        proof {
            assert(acc * 10 + d <= usize::MAX) by (nonlinear_arith)
                requires
                    acc <= usize::MAX / 10,
                    !(acc == usize::MAX / 10 && d > usize::MAX % 10),
                    usize::MAX == usize::MAX / 10 * 10 + usize::MAX % 10,
                    0 <= d <= 9,
            ;
        }
        acc = acc * 10 + d;
        i = i + 1;
    }
    proof {
        assert(bytes@.take(bytes@.len() as int) =~= bytes@);
    }
    if acc == 0 {
        Err(DepthParseError::Zero)
    } else {
        Ok(acc)
    }
}

} // verus!
