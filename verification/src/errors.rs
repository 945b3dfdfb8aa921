//! The fatal failures of the compaction pipeline. Every kind aborts the
//! whole run with no output.

use vstd::prelude::*;

verus! {

/// Why a whole intermediary run fails: a malformed property value list at
/// parse time, or a structural failure found while verifying and compacting.
#[derive(Debug, Clone, Copy, PartialEq, Eq, Structural)]
pub enum BuildError {
    /// A raw value list failed to classify.
    Malformed(crate::property::PropertyKindParseError),
    /// A consistency check failed, or a name collision survived.
    Invalid(CompactError),
}

/// Why a run over raw input fails.
#[derive(Debug, Clone, Copy, PartialEq, Eq, Structural)]
pub enum CompactError {
    /// A block's state count differs from the product of its declared
    /// property sizes, or a block has no state at all.
    StateCountMismatch,
    /// A state's property-name set differs from the block's declared set.
    PropertyCountMismatch,
    /// A state chooses a value that its property's declared list lacks.
    UnknownPropertyValue,
    /// A state's declared id differs from the recomputed one.
    IdMismatch,
    /// Two distinct enumerations would share one final property name.
    NameCollision,
}

} // verus!
