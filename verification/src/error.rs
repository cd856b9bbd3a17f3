use vstd::prelude::*;

verus! {

/// Failures reported by the computation engines.
#[derive(Debug, Clone, PartialEq, Eq)]
pub enum KernelError {
    /// The dependency network has a cycle; the activity named is one that could not be ordered.
    CircularDependency(String),
    UnknownActivity(String),
    UnknownResource(String),
    UnknownCalendar(String),
    /// A date or datetime string could not be read; the text is the input.
    DateParse(String),
    InvalidInput(String),
}

} // verus!
