//! Errors of the engine core. Each variant names one failure the verified
//! code can report; the contextual text lives in `message`.

use vstd::prelude::*;

verus! {

#[derive(Clone, Copy, PartialEq, Eq, Structural, Debug)]
pub enum EngineError {
    /// A part number beyond the container's parts was asked for.
    NoSuchPart,
    /// A part-file line did not parse as a JSON array of strings.
    BadJson,
    /// Stored container bytes did not decode as a container.
    CorruptContainer,
    /// A referenced part file is gone from the working directory.
    TempDirModified,
    /// A byte-count or counter would exceed the machine's integer range.
    SizeOverflow,
}

impl EngineError {
    /// The user-visible text for this error.
    pub fn message(&self) -> (r: &'static str)
        ensures
            *self is TempDirModified ==> r@ == "Temp directory modified while running"@,
            *self is NoSuchPart ==> r@ == "Part does not exist"@,
            *self is BadJson ==> r@ == "Could not parse json"@,
            *self is CorruptContainer ==> r@ == "Could not deserialize container"@,
            *self is SizeOverflow ==> r@ == "Value sizes exceed the machine's integer range"@,
    {
        match self {
            EngineError::NoSuchPart => "Part does not exist",
            EngineError::BadJson => "Could not parse json",
            EngineError::CorruptContainer => "Could not deserialize container",
            EngineError::TempDirModified => "Temp directory modified while running",
            EngineError::SizeOverflow => "Value sizes exceed the machine's integer range",
        }
    }
}

} // verus!
