use vstd::prelude::*;

verus! {

/// Why an adaptation did not take place. The buffer is left as it was in every case.
#[derive(Clone, Copy, Debug, PartialEq, Eq, Structural)]
pub enum AdaptError {
    /// The buffer is too short for the magic tag and version, the magic tag is wrong,
    /// or the table directory cannot be read.
    MalformedHeader,
    /// A table count, offset or length exceeds its bound, a table lies outside the buffer,
    /// or the rewrites of address tables and descriptors would overlap.
    BoundsViolation,
    /// There is no address table to infer a width from, no single width fits every
    /// address table, or the inferred width cannot be expanded.
    DetectionFailed,
    /// The patched buffer did not pass its own re-check.
    PatchInvariantViolation,
}

} // verus!
