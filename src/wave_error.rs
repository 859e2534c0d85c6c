//! Errors of the flow registry, with their numeric codes.
use vstd::prelude::*;

verus! {

/// Why a registry instruction was refused.
#[derive(Clone, Copy, Debug, PartialEq, Eq, Structural)]
pub enum WaveError {
    InvalidInstruction,
    Unauthorized,
    InvalidFlowId,
    InvalidCircuitHash,
    InvalidMerkleRoot,
    InvalidProof,
    InvalidNullifier,
    NullifierAlreadyUsed,
    FlowDisabled,
    InvalidCallbackProgram,
    InvalidAccountData,
}

/// Code of each error: its position in the declaration.
pub open spec fn wave_error_code(e: WaveError) -> u32 {
    match e {
        WaveError::InvalidInstruction => 0,
        WaveError::Unauthorized => 1,
        WaveError::InvalidFlowId => 2,
        WaveError::InvalidCircuitHash => 3,
        WaveError::InvalidMerkleRoot => 4,
        WaveError::InvalidProof => 5,
        WaveError::InvalidNullifier => 6,
        WaveError::NullifierAlreadyUsed => 7,
        WaveError::FlowDisabled => 8,
        WaveError::InvalidCallbackProgram => 9,
        WaveError::InvalidAccountData => 10,
    }
}

impl WaveError {
    /// Numeric code carried by a custom program error.
    pub fn code(&self) -> (r: u32)
        ensures
            r == wave_error_code(*self),
    {
        match self {
            WaveError::InvalidInstruction => 0,
            WaveError::Unauthorized => 1,
            WaveError::InvalidFlowId => 2,
            WaveError::InvalidCircuitHash => 3,
            WaveError::InvalidMerkleRoot => 4,
            WaveError::InvalidProof => 5,
            WaveError::InvalidNullifier => 6,
            WaveError::NullifierAlreadyUsed => 7,
            WaveError::FlowDisabled => 8,
            WaveError::InvalidCallbackProgram => 9,
            WaveError::InvalidAccountData => 10,
        }
    }
}

/// Records the errors handed to it: the last one and how many.
pub struct TestErrorHandler {
    pub last_error: Option<WaveError>,
    pub error_count: usize,
}

impl TestErrorHandler {
    pub fn new() -> (r: TestErrorHandler)
        ensures
            r.last_error is None,
            r.error_count == 0,
    {
        TestErrorHandler { last_error: None, error_count: 0 }
    }

    /// Records `error` and returns its code. The count stops at its maximum.
    pub fn handle_error(&mut self, error: WaveError) -> (r: u32)
        ensures
            final(self).last_error == Some(error),
            final(self).error_count == (if old(self).error_count < usize::MAX {
                old(self).error_count + 1
            } else {
                old(self).error_count as int
            }),
            r == wave_error_code(error),
    {
        self.last_error = Some(error);
        self.error_count = self.error_count.saturating_add(1);
        error.code()
    }

    pub fn clear(&mut self)
        ensures
            final(self).last_error is None,
            final(self).error_count == 0,
    {
        self.last_error = None;
        self.error_count = 0;
    }
}

} // verus!
