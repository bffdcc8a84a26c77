//! Errors of the field element operations.

use vstd::prelude::*;

verus! {

/// What can go wrong when a field element is read from bytes.
#[derive(Debug, Clone, Copy, PartialEq, Eq, Structural)]
pub enum FieldError {
    /// The bytes encode an integer that is not below the modulus.
    InvalidValue,
}

impl FieldError {
    /// The error in words.
    pub fn message(&self) -> (r: String)
        ensures
            r@ == "Invalid value"@,
    {
        match self {
            FieldError::InvalidValue => "Invalid value".to_string(),
        }
    }
}

} // verus!
