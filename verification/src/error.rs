//! The fatal conditions of legalization.

use crate::entities::Inst;
use vstd::prelude::*;

verus! {

/// Why legalization gave up. Each is a violated internal expectation, not a recoverable state:
/// the function may have been altered on the way and is to be discarded.
#[derive(Clone, Copy, Debug, PartialEq, Eq, Structural)]
pub enum LegalizeError {
    /// No conversion kind relates a value type to the ABI argument type it has to meet.
    UnsupportedConversion,
    /// Converting the values needs more ABI arguments than the signature has.
    AbiArgumentsExhausted,
    /// The converted values fill fewer ABI arguments than the signature has.
    AbiArgumentsLeftOver,
    /// The target left an argument of a signature without a location.
    SignatureNotLegalized,
    /// The results of this call differ from the return types of its signature. Converting
    /// returned ABI values back is not supported.
    UnconvertedCallResults(Inst),
    /// The target has no encoding for this instruction, and the rewrite it asked for did not
    /// change anything.
    NoLegalization(Inst),
    /// The rewriting that the target asked for of this instruction cannot be made: it refers
    /// to what the function does not have.
    InvalidRewrite(Inst),
    /// More rewrites were needed than the caller allowed.
    RewriteLimit,
}

impl LegalizeError {
    /// True for the errors of converting values to ABI arguments or back: no conversion, too
    /// few ABI arguments, or too many.
    pub open spec fn is_conversion(self) -> bool {
        self == LegalizeError::UnsupportedConversion || self == LegalizeError::AbiArgumentsExhausted
            || self == LegalizeError::AbiArgumentsLeftOver
    }
}

} // verus!
