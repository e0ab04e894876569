//! The failures that the library reports.

use vstd::prelude::*;

verus! {

/// Why an operation on a container or a sidecar record was refused.
#[derive(Clone, Copy, Debug, PartialEq, Eq, Structural)]
pub enum InjectError {
    /// The container is structurally invalid.
    FormatError,
    /// The sidecar record has no usable date field for one of the two times.
    MissingField,
    /// A date field is present but cannot be read as a timestamp.
    MalformedTimestamp,
    /// An existing metadata block uses a layout that cannot be patched safely.
    UnsupportedDirectoryLayout,
    /// The container kind is not one of the supported kinds.
    UnsupportedContainer,
}

impl InjectError {
    /// A short human-readable description of the failure.
    pub fn describe(&self) -> (text: String)
        ensures
            text@ == error_text(*self)@,
    {
        error_text_of(*self).to_owned()
    }
}

/// The text that [`InjectError::describe`] returns for each failure.
pub open spec fn error_text(e: InjectError) -> &'static str {
    match e {
        InjectError::FormatError => "container is structurally invalid",
        InjectError::MissingField => "sidecar record lacks a date field",
        InjectError::MalformedTimestamp => "sidecar date cannot be parsed",
        InjectError::UnsupportedDirectoryLayout => "existing metadata block cannot be patched",
        InjectError::UnsupportedContainer => "container kind is not supported",
    }
}

fn error_text_of(e: InjectError) -> (text: &'static str)
    ensures
        text == error_text(e),
{
    match e {
        InjectError::FormatError => "container is structurally invalid",
        InjectError::MissingField => "sidecar record lacks a date field",
        InjectError::MalformedTimestamp => "sidecar date cannot be parsed",
        InjectError::UnsupportedDirectoryLayout => "existing metadata block cannot be patched",
        InjectError::UnsupportedContainer => "container kind is not supported",
    }
}

} // verus!
