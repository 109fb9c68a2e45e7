//! Exit classification for one execution frame, and the validation
//! errors a dispatcher entry point reports before interpretation begins.

use vstd::prelude::*;

verus! {

/// How a frame succeeded.
#[derive(Clone, Copy, PartialEq, Eq, Structural, Debug)]
pub enum SucceedKind {
    /// Ran off the end of the code or hit an explicit stop.
    Stop,
    /// Returned an explicit memory slice.
    Returned,
}

/// An execution error: the frame's overlay is discarded and all gas
/// supplied to the frame is consumed, but the parent may continue.
#[derive(Clone, Copy, PartialEq, Eq, Structural, Debug)]
pub enum ErrorKind {
    OutOfGas,
    StackUnderflow,
    StackOverflow,
    InvalidJump,
    InvalidOpcode,
}

/// An engine-level failure that aborts the whole top-level call,
/// discarding every overlay including the root's.
#[derive(Clone, Copy, PartialEq, Eq, Structural, Debug)]
pub enum FatalKind {
    CallDepthExceeded,
}

/// The tagged outcome of one execution frame.
#[derive(Clone, Copy, PartialEq, Eq, Structural, Debug)]
pub enum ExitReason {
    Succeed(SucceedKind),
    Revert,
    Error(ErrorKind),
    Fatal(FatalKind),
}

impl ExitReason {
    pub open spec fn is_succeed(&self) -> bool {
        matches!(self, ExitReason::Succeed(_))
    }

    pub open spec fn is_fatal(&self) -> bool {
        matches!(self, ExitReason::Fatal(_))
    }

    /// Whether the frame's overlay is kept by the parent.
    pub fn is_success(&self) -> (r: bool)
        ensures
            r == self.is_succeed(),
    {
        match self {
            ExitReason::Succeed(_) => true,
            _ => false,
        }
    }

    /// Whether the outcome aborts the whole top-level call.
    pub fn is_fatal_exec(&self) -> (r: bool)
        ensures
            r == self.is_fatal(),
    {
        match self {
            ExitReason::Fatal(_) => true,
            _ => false,
        }
    }
}

/// A validation failure: detected before interpretation begins, and no
/// state is mutated.
#[derive(Clone, Copy, PartialEq, Eq, Structural, Debug)]
pub enum ValidationError {
    InsufficientBalance,
    AddressCollision,
    CodeAlreadySet,
}

} // verus!
