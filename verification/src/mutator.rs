//! The mutator contract: every transform exposes a forward (`drive`) and a
//! backward (`revert`) operation over byte buffers, together with the error
//! kinds a stage can surface.

use vstd::prelude::*;

verus! {

/// Why a single stage failed.
#[derive(Clone, Copy, PartialEq, Eq, Structural, Debug)]
pub enum MutateError {
    /// `revert` was handed bytes that fail the transform's layout or
    /// validity checks.
    MalformedInput,
    /// The input is too large for the transform's size fields.
    InputTooLarge,
    /// The stage can only be executed by the application's external runner
    /// (a loaded plugin, or the external block compressor).
    ExternalStage,
}

/// A stage failure annotated with the index of the failing stage.
#[derive(Clone, Copy, PartialEq, Eq, Structural, Debug)]
pub struct StageError {
    pub stage: usize,
    pub error: MutateError,
}

/// The two-way transform contract.
///
/// `drive_ok` says on which inputs the forward transform succeeds and
/// `drive_err` which error it surfaces otherwise; `drive_rel` relates a
/// successful input to its output, and `revert_rel` relates a backward
/// input to the whole outcome. For most transforms the relations pin the
/// result to one function of the input. The executable methods must behave
/// as the relations say, overwrite whatever the output buffer held, and
/// leave the mutator's own state unchanged.
pub trait Mutator: Sized {
    spec fn drive_ok(&self, input: Seq<u8>) -> bool;

    spec fn drive_err(&self, input: Seq<u8>) -> MutateError;

    spec fn drive_rel(&self, input: Seq<u8>, output: Seq<u8>) -> bool;

    spec fn revert_rel(&self, input: Seq<u8>, r: Result<Seq<u8>, MutateError>) -> bool;

    /// Apply the forward transform of `data` into `buf`. Whatever `buf`
    /// held on entry is discarded.
    fn drive_mutation(&mut self, data: &[u8], buf: &mut Vec<u8>) -> (r: Result<(), MutateError>)
        ensures
            *final(self) == *old(self),
            old(self).drive_ok(data@) ==> r is Ok && old(self).drive_rel(data@, final(buf)@),
            !old(self).drive_ok(data@) ==> r == Err::<(), MutateError>(
                old(self).drive_err(data@),
            ),
    ;

    /// Apply the backward transform of `data` into `buf`. Whatever `buf`
    /// held on entry is discarded.
    fn revert_mutation(&mut self, data: &[u8], buf: &mut Vec<u8>) -> (r: Result<(), MutateError>)
        ensures
            *final(self) == *old(self),
            match r {
                Ok(()) => old(self).revert_rel(data@, Ok(final(buf)@)),
                Err(e) => old(self).revert_rel(data@, Err(e)),
            },
    ;
}

} // verus!
