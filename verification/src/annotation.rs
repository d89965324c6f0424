//! Annotation status enums shared by module docs and the IR.
use vstd::prelude::*;

verus! {

/// Whether a declared design pattern has been confirmed in the code.
#[derive(Debug, Clone, Copy, PartialEq, Eq, Structural)]
pub enum PatternStatus {
    Planned,
    Verified,
}

/// Implementation health of a file listed in a `@c4` file table.
#[derive(Debug, Clone, Copy, PartialEq, Eq, Structural)]
pub enum HealthStatus {
    Planned,
    Active,
    Stable,
}

} // verus!
