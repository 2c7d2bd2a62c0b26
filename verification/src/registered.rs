//! The registry of named mutators.
//!
//! Every entry carries a name, an optional description and a mutator
//! handle: either a built-in transform, dispatched directly, or an
//! FFI-backed stage identified by an index into the application's plugin
//! table. The registry is an ordered list, built-ins first, looked up by
//! name with a linear scan; appending rejects duplicate names.

use vstd::prelude::*;

use crate::arith::arith_decode;
use crate::arith::arith_encode;
use crate::arith::arith_decode_spec;
use crate::arith::arith_encode_spec;
use crate::bsc::bsc_decode;
use crate::bsc::bsc_decode_spec;
use crate::bsc::bsc_encode;
use crate::bsc::bsc_store_spec;
use crate::bwt::bwt_decode;
use crate::bwt::bwt_decode_spec;
use crate::bwt::bwt_encode;
use crate::bwt::bwt_encode_ok;
use crate::mtf::mtf_decode;
use crate::mtf::mtf_decode_spec;
use crate::mtf::mtf_encode;
use crate::mtf::mtf_encode_spec;
use crate::mutator::MutateError;
use crate::mutator::Mutator;
use crate::rle::rle_decode_spec;
use crate::rle::rle_encode_rel;
use crate::rle::Rle;
use vstd::string::StringSliceAdditionalSpecFns;

verus! {

/// A built-in two-way transform, dispatched directly.
#[derive(Clone, Copy, PartialEq, Eq, Structural, Debug)]
pub enum DynMutator {
    Bwt,
    Mtf,
    Arithmetic,
    Rle,
    Bsc,
}

impl Mutator for DynMutator {
    open spec fn drive_ok(&self, input: Seq<u8>) -> bool {
        match *self {
            DynMutator::Bwt => input.len() <= u32::MAX,
            DynMutator::Mtf => true,
            DynMutator::Arithmetic => input.len() <= u32::MAX,
            DynMutator::Rle => true,
            DynMutator::Bsc => true,
        }
    }

    open spec fn drive_err(&self, input: Seq<u8>) -> MutateError {
        MutateError::InputTooLarge
    }

    open spec fn drive_rel(&self, input: Seq<u8>, output: Seq<u8>) -> bool {
        match *self {
            DynMutator::Bwt => if input.len() < 4 {
                output == input
            } else {
                bwt_encode_ok(input, output)
            },
            DynMutator::Mtf => output == mtf_encode_spec(input),
            DynMutator::Arithmetic => output == arith_encode_spec(input) && output.len() >= 1,
            DynMutator::Rle => rle_encode_rel(input, output),
            DynMutator::Bsc => output == bsc_store_spec(input),
        }
    }

    open spec fn revert_rel(&self, input: Seq<u8>, r: Result<Seq<u8>, MutateError>) -> bool {
        match *self {
            DynMutator::Bwt => r == bwt_decode_spec(input),
            DynMutator::Mtf => r == Ok::<Seq<u8>, MutateError>(mtf_decode_spec(input)),
            DynMutator::Arithmetic => r == arith_decode_spec(input),
            DynMutator::Rle => r == rle_decode_spec(input),
            DynMutator::Bsc => r == bsc_decode_spec(input),
        }
    }

    fn drive_mutation(&mut self, data: &[u8], buf: &mut Vec<u8>) -> (r: Result<(), MutateError>) {
        match *self {
            DynMutator::Bwt => bwt_encode(data, buf),
            DynMutator::Mtf => mtf_encode(data, buf),
            DynMutator::Arithmetic => arith_encode(data, buf),
            DynMutator::Rle => {
                let coder = Rle { debug: false };
                let out = coder.rle_encode(data);
                *buf = out;
                Ok(())
            },
            DynMutator::Bsc => bsc_encode(data, buf),
        }
    }

    fn revert_mutation(&mut self, data: &[u8], buf: &mut Vec<u8>) -> (r: Result<(), MutateError>) {
        match *self {
            DynMutator::Bwt => bwt_decode(data, buf),
            DynMutator::Mtf => mtf_decode(data, buf),
            DynMutator::Arithmetic => arith_decode(data, buf),
            DynMutator::Rle => {
                let coder = Rle { debug: false };
                match coder.rle_decode(data) {
                    Ok(out) => {
                        *buf = out;
                        Ok(())
                    },
                    Err(e) => Err(e),
                }
            },
            DynMutator::Bsc => bsc_decode(data, buf),
        }
    }
}

/// An FFI-backed stage: an index into the application's plugin table. The
/// verified engine cannot run foreign code, so both operations surface
/// `ExternalStage` here; the application's runner executes the plugin.
#[derive(Clone, Copy, PartialEq, Eq, Structural, Debug)]
pub struct FfiMutator {
    pub plugin_index: usize,
}

impl Mutator for FfiMutator {
    open spec fn drive_ok(&self, input: Seq<u8>) -> bool {
        false
    }

    open spec fn drive_err(&self, input: Seq<u8>) -> MutateError {
        MutateError::ExternalStage
    }

    open spec fn drive_rel(&self, input: Seq<u8>, output: Seq<u8>) -> bool {
        true
    }

    open spec fn revert_rel(&self, input: Seq<u8>, r: Result<Seq<u8>, MutateError>) -> bool {
        r == Err::<Seq<u8>, MutateError>(MutateError::ExternalStage)
    }

    fn drive_mutation(&mut self, data: &[u8], buf: &mut Vec<u8>) -> (r: Result<(), MutateError>) {
        Err(MutateError::ExternalStage)
    }

    fn revert_mutation(&mut self, data: &[u8], buf: &mut Vec<u8>) -> (r: Result<(), MutateError>) {
        Err(MutateError::ExternalStage)
    }
}

/// Why a candidate plugin failed validation: each variant names the
/// required export that was missing.
#[derive(Clone, Copy, PartialEq, Eq, Structural, Debug)]
pub enum APIError {
    MissingName,
    MissingDescription,
    MissingDriveMutation,
    MissingRevertMutation,
}

/// A mutator handle: built-in, or backed by a loaded plugin.
#[derive(Clone, Copy, PartialEq, Eq, Structural, Debug)]
pub enum EnumMutator {
    Dyn(DynMutator),
    Ffi(FfiMutator),
}

impl Mutator for EnumMutator {
    open spec fn drive_ok(&self, input: Seq<u8>) -> bool {
        match *self {
            EnumMutator::Dyn(m) => m.drive_ok(input),
            EnumMutator::Ffi(m) => m.drive_ok(input),
        }
    }

    open spec fn drive_err(&self, input: Seq<u8>) -> MutateError {
        match *self {
            EnumMutator::Dyn(m) => m.drive_err(input),
            EnumMutator::Ffi(m) => m.drive_err(input),
        }
    }

    open spec fn drive_rel(&self, input: Seq<u8>, output: Seq<u8>) -> bool {
        match *self {
            EnumMutator::Dyn(m) => m.drive_rel(input, output),
            EnumMutator::Ffi(m) => m.drive_rel(input, output),
        }
    }

    open spec fn revert_rel(&self, input: Seq<u8>, r: Result<Seq<u8>, MutateError>) -> bool {
        match *self {
            EnumMutator::Dyn(m) => m.revert_rel(input, r),
            EnumMutator::Ffi(m) => m.revert_rel(input, r),
        }
    }

    fn drive_mutation(&mut self, data: &[u8], buf: &mut Vec<u8>) -> (r: Result<(), MutateError>) {
        match *self {
            EnumMutator::Dyn(m) => {
                let mut mm = m;
                mm.drive_mutation(data, buf)
            },
            EnumMutator::Ffi(m) => {
                let mut mm = m;
                mm.drive_mutation(data, buf)
            },
        }
    }

    fn revert_mutation(&mut self, data: &[u8], buf: &mut Vec<u8>) -> (r: Result<(), MutateError>) {
        match *self {
            EnumMutator::Dyn(m) => {
                let mut mm = m;
                mm.revert_mutation(data, buf)
            },
            EnumMutator::Ffi(m) => {
                let mut mm = m;
                mm.revert_mutation(data, buf)
            },
        }
    }
}

/// A named registry entry.
#[derive(Clone, Copy, Debug)]
pub struct RegisteredCompressor {
    pub mutator: EnumMutator,
    pub name: &'static str,
    pub short_description: Option<&'static str>,
}

impl RegisteredCompressor {
    /// Register a built-in transform under `name`.
    pub fn new_dyn(mutator: DynMutator, name: &'static str, short_description: Option<
        &'static str,
    >) -> (r: RegisteredCompressor)
        ensures
            r.mutator == EnumMutator::Dyn(mutator),
            r.name == name,
            r.short_description == short_description,
    {
        RegisteredCompressor { mutator: EnumMutator::Dyn(mutator), name, short_description }
    }

    /// Register a plugin-backed transform under `name`.
    pub fn new_ffi(mutator: FfiMutator, name: &'static str, short_description: Option<
        &'static str,
    >) -> (r: RegisteredCompressor)
        ensures
            r.mutator == EnumMutator::Ffi(mutator),
            r.name == name,
            r.short_description == short_description,
    {
        RegisteredCompressor { mutator: EnumMutator::Ffi(mutator), name, short_description }
    }
}

/// The first entry whose name has exactly the bytes `name`.
pub open spec fn reg_find(entries: Seq<RegisteredCompressor>, name: Seq<u8>) -> Option<
    RegisteredCompressor,
>
    decreases entries.len(),
{
    if entries.len() == 0 {
        None
    } else if entries[0].name.spec_bytes() == name {
        Some(entries[0])
    } else {
        reg_find(entries.skip(1), name)
    }
}

/// Compare two byte slices for equality.
#[verifier::loop_isolation(false)]
pub fn bytes_eq(a: &[u8], b: &[u8]) -> (r: bool)
    ensures
        r == (a@ == b@),
{
    if a.len() != b.len() {
        proof {
            assert(a@ != b@);
        }
        return false;
    }
    let n = a.len();
    let mut i: usize = 0;
    while i < n
        invariant
            0 <= i <= n,
            n == a@.len() == b@.len(),
            forall|j: int| 0 <= j < i ==> a@[j] == b@[j],
        decreases n - i,
    {
        if a[i] != b[i] {
            return false;
        }
        i = i + 1;
    }
    proof {
        assert(a@ =~= b@);
    }
    true
}

/// The ordered collection of registered mutators.
pub struct Registry {
    pub entries: Vec<RegisteredCompressor>,
}

impl Registry {
    /// The registry holding the built-in transforms, in declaration order.
    pub fn new() -> (r: Registry)
        ensures
            r.entries@.len() == 5,
            r.entries@[0].mutator == EnumMutator::Dyn(DynMutator::Arithmetic),
            r.entries@[1].mutator == EnumMutator::Dyn(DynMutator::Bwt),
            r.entries@[2].mutator == EnumMutator::Dyn(DynMutator::Mtf),
            r.entries@[3].mutator == EnumMutator::Dyn(DynMutator::Bsc),
            r.entries@[4].mutator == EnumMutator::Dyn(DynMutator::Rle),
    {
        let mut entries: Vec<RegisteredCompressor> = Vec::new();
        entries.push(
            RegisteredCompressor::new_dyn(
                DynMutator::Arithmetic,
                "arcode",
                Some("Arithmetic coding"),
            ),
        );
        entries.push(
            RegisteredCompressor::new_dyn(DynMutator::Bwt, "bwt", Some("Burrows-Wheeler transform")),
        );
        entries.push(
            RegisteredCompressor::new_dyn(DynMutator::Mtf, "mtf", Some("Move-to-front coding")),
        );
        entries.push(
            RegisteredCompressor::new_dyn(DynMutator::Bsc, "bsc", Some("Block-framed coder")),
        );
        entries.push(
            RegisteredCompressor::new_dyn(DynMutator::Rle, "rle", Some("Run-length encoding")),
        );
        Registry { entries }
    }

    /// Look a name up as raw bytes: the first entry with that exact name.
    #[verifier::loop_isolation(false)]
    pub fn find_bytes(&self, name: &[u8]) -> (r: Option<&RegisteredCompressor>)
        ensures
            match r {
                Some(e) => reg_find(self.entries@, name@) == Some(*e),
                None => reg_find(self.entries@, name@) is None,
            },
    {
        let n = self.entries.len();
        proof {
            assert(self.entries@.skip(0) =~= self.entries@);
        }
        let mut i: usize = 0;
        while i < n
            invariant
                0 <= i <= n,
                n == self.entries@.len(),
                reg_find(self.entries@, name@) == reg_find(self.entries@.skip(i as int), name@),
            decreases n - i,
        {
            let e = &self.entries[i];
            if bytes_eq(e.name.as_bytes(), name) {
                proof {
                    assert(self.entries@.skip(i as int)[0] == self.entries@[i as int]);
                }
                return Some(e);
            }
            proof {
                assert(self.entries@.skip(i as int)[0] == self.entries@[i as int]);
                assert(self.entries@.skip(i as int).skip(1) =~= self.entries@.skip(i + 1 as int));
            }
            i = i + 1;
        }
        proof {
            assert(self.entries@.skip(n as int).len() == 0);
        }
        None
    }

    /// Look up a mutator by name.
    pub fn find(&self, name: &str) -> (r: Option<&RegisteredCompressor>)
        ensures
            match r {
                Some(e) => reg_find(self.entries@, name.spec_bytes()) == Some(*e),
                None => reg_find(self.entries@, name.spec_bytes()) is None,
            },
    {
        self.find_bytes(name.as_bytes())
    }

    /// Append an entry; a name already present is rejected.
    pub fn append(&mut self, entry: RegisteredCompressor) -> (r: Result<(), MutateError>)
        ensures
            match r {
                Ok(()) => {
                    &&& reg_find(old(self).entries@, entry.name.spec_bytes()) is None
                    &&& final(self).entries@ == old(self).entries@.push(entry)
                },
                Err(e) => {
                    &&& e == MutateError::MalformedInput
                    &&& reg_find(old(self).entries@, entry.name.spec_bytes()) is Some
                    &&& final(self).entries@ == old(self).entries@
                },
            },
    {
        match self.find_bytes(entry.name.as_bytes()) {
            Some(_) => Err(MutateError::MalformedInput),
            None => {
                self.entries.push(entry);
                Ok(())
            },
        }
    }

    /// How many mutators are registered.
    pub fn len(&self) -> (r: usize)
        ensures
            r == self.entries@.len(),
    {
        self.entries.len()
    }
}

/// Look `s` up in `registry`, as the pipeline-description parsers do.
pub fn get_specific_compressor_from_name<'a>(s: &str, registry: &'a Registry) -> (r: Option<
    &'a RegisteredCompressor,
>)
    ensures
        match r {
            Some(e) => reg_find(registry.entries@, s.spec_bytes()) == Some(*e),
            None => reg_find(registry.entries@, s.spec_bytes()) is None,
        },
{
    registry.find(s)
}

} // verus!
