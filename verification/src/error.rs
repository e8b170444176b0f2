//! The ways in which assembling code files from a document can fail.

use vstd::prelude::*;

verus! {

/// Every failure of scanning, decoding or assembly; all of them abort the
/// whole run, so no partial set of files is ever reported as a success.
#[derive(Debug, Clone)]
pub enum MdError {
    /// A block's metadata text is not valid JSON or matches no operation
    /// shape; carries the offending text.
    MetadataDecode(String),
    /// The document holds no recognizable code blocks.
    NoBlocks,
    /// A descriptor was routed to a file accumulated for a different target;
    /// an internal invariant guard that correct routing never triggers.
    TargetMismatch,
    /// An insert position or a removal range falls outside the bounds of the
    /// line sequence it is applied to.
    IndexOutOfRange,
}

} // verus!
