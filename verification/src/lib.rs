//! Copy-and-patch code generation.
//!
//! Stencils (pre-compiled machine code snippets with relocation holes) are
//! copied into a code buffer and patched with constants, stack offsets and
//! jump targets. Everything that decides which bytes end up where lives in
//! this crate and carries a contract.
#![allow(unused_imports)]

pub mod archive;
pub mod expand;
pub mod extract;
pub mod managed;
pub mod objects;
pub mod patch;
pub mod perm;
pub mod regs;
pub mod relocation;
pub mod samples;
pub mod single;
pub mod stencils;

pub use stencils::{Stencil, StencilFamily, StencilLibrary, StencilStack};

use vstd::prelude::*;

verus! {

/// Why emitting or linking code failed.
#[derive(Debug, Clone, Copy, PartialEq, Eq, Structural)]
pub enum PatchError {
    /// A location names a register the stencils do not have.
    InvalidRegister,
    /// The family has no stencil for these locations.
    StencilNotFound,
    /// The block must end with a returning or switching stencil.
    NotEnded,
    /// The block already ended.
    AlreadyEnded,
    /// The last stencil was not returning or switching.
    InvalidEnd,
    /// A jump goes to a block that does not exist.
    UnresolvedBlockTarget,
    /// A block must be branched into before emitting code.
    BlockOutOfScope,
    /// Only the entry block takes parameters.
    InvalidParams,
    /// A variable is used outside the blocks it lives in.
    VariableOutOfScope,
    /// No slot is left for another variable.
    OutOfVariables,
    /// Mapping memory for the program failed.
    Mmap,
}

/// The message for each patching error.
pub open spec fn patch_error_text(e: PatchError) -> Seq<char> {
    match e {
        PatchError::InvalidRegister => "invalid register"@,
        PatchError::StencilNotFound => "stencil not found"@,
        PatchError::NotEnded => "patch block must be ended with an returning or switching stencil"@,
        PatchError::AlreadyEnded => "patch block already ended"@,
        PatchError::InvalidEnd => "last stencil was not returning or switching"@,
        PatchError::UnresolvedBlockTarget => "block target not found"@,
        PatchError::BlockOutOfScope => "a block must be branched into before emitting code"@,
        PatchError::InvalidParams => "one can only add params for the entry block"@,
        PatchError::VariableOutOfScope => "variable not found in current scope"@,
        PatchError::OutOfVariables => "unable to allocate slot for variable"@,
        PatchError::Mmap => "unable to mmap"@,
    }
}

impl PatchError {
    /// The message for each error.
    pub fn message(&self) -> (r: &'static str)
        ensures
            r@ == patch_error_text(*self),
    {
        match self {
            PatchError::InvalidRegister => "invalid register",
            PatchError::StencilNotFound => "stencil not found",
            PatchError::NotEnded => "patch block must be ended with an returning or switching stencil",
            PatchError::AlreadyEnded => "patch block already ended",
            PatchError::InvalidEnd => "last stencil was not returning or switching",
            PatchError::UnresolvedBlockTarget => "block target not found",
            PatchError::BlockOutOfScope => "a block must be branched into before emitting code",
            PatchError::InvalidParams => "one can only add params for the entry block",
            PatchError::VariableOutOfScope => "variable not found in current scope",
            PatchError::OutOfVariables => "unable to allocate slot for variable",
            PatchError::Mmap => "unable to mmap",
        }
    }
}

} // verus!
