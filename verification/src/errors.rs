//! The ways a selection run can fail.  Every failure is reported to the
//! caller; the engine never retries and never coerces a bad outcome into
//! an arbitrary pick.
use vstd::prelude::*;

verus! {

/// A failure of the selection engine.
#[derive(Clone, Copy, Debug, PartialEq, Eq, Structural)]
pub enum SelectError {
    /// More distinct segments were seen than the bitmask has bits.
    ConfigurationExhausted,
    /// The computed common prefix is not a literal prefix of every name:
    /// the upstream listing is malformed.
    PrefixMismatch,
    /// A version pattern matched a name but its number does not fit:
    /// treated as a defect, never as a missing version.
    VersionParseAmbiguous,
    /// The caller required exactly one result and the final count differs.
    SelectionCardinality,
}

} // verus!
