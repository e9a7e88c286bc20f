use vstd::prelude::*;

verus! {

/// Why a record was refused or a pass could not finish.
#[derive(Debug, Clone, Copy, PartialEq, Eq, Structural)]
pub enum ScheduleError {
    /// The identifier is already present in the registry.
    DuplicateId,
    /// The duration field is not a non-negative integer that fits in `u32`.
    InvalidDuration,
    /// A dependency names a task that is not (yet) in the registry.
    UnknownDependency,
    /// The record does not consist of an identifier, a duration and at most
    /// one dependency list.
    MalformedRecord,
    /// A computed time does not fit in `u32`.
    TimeOverflow,
}

} // verus!
