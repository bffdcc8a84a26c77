//! Conversions into field elements. Integers are reduced; bytes are decoded
//! and refused where they are out of range.

use super::encoding::decode;
use super::errors::FieldError;
use super::{FieldElement, PRIME};
use vstd::prelude::*;

verus! {

impl vstd::std_specs::convert::FromSpecImpl<u64> for FieldElement {
    open spec fn obeys_from_spec() -> bool {
        true
    }

    open spec fn from_spec(x: u64) -> FieldElement {
        FieldElement::of(x as int)
    }
}

impl From<u64> for FieldElement {
    /// The element that holds `x mod PRIME`.
    fn from(x: u64) -> (r: FieldElement)
        ensures
            r@ == (x as int) % (PRIME as int),
    {
        FieldElement::new(x)
    }
}

impl vstd::std_specs::convert::FromSpecImpl<u32> for FieldElement {
    open spec fn obeys_from_spec() -> bool {
        true
    }

    open spec fn from_spec(x: u32) -> FieldElement {
        FieldElement::of(x as int)
    }
}

impl From<u32> for FieldElement {
    /// The element that holds `x mod PRIME`.
    fn from(x: u32) -> (r: FieldElement)
        ensures
            r@ == (x as int) % (PRIME as int),
    {
        FieldElement::new(x as u64)
    }
}

impl vstd::std_specs::convert::FromSpecImpl<u16> for FieldElement {
    open spec fn obeys_from_spec() -> bool {
        true
    }

    open spec fn from_spec(x: u16) -> FieldElement {
        FieldElement::of(x as int)
    }
}

impl From<u16> for FieldElement {
    /// The element that holds `x mod PRIME`.
    fn from(x: u16) -> (r: FieldElement)
        ensures
            r@ == (x as int) % (PRIME as int),
    {
        FieldElement::new(x as u64)
    }
}

impl vstd::std_specs::convert::FromSpecImpl<u8> for FieldElement {
    open spec fn obeys_from_spec() -> bool {
        true
    }

    open spec fn from_spec(x: u8) -> FieldElement {
        FieldElement::of(x as int)
    }
}

impl From<u8> for FieldElement {
    /// The element that holds `x mod PRIME`.
    fn from(x: u8) -> (r: FieldElement)
        ensures
            r@ == (x as int) % (PRIME as int),
    {
        FieldElement::new(x as u64)
    }
}

impl vstd::std_specs::convert::TryFromSpecImpl<[u8; 8]> for FieldElement {
    open spec fn obeys_try_from_spec() -> bool {
        true
    }

    open spec fn try_from_spec(bytes: [u8; 8]) -> Result<FieldElement, FieldError> {
        decode(bytes@)
    }
}

impl TryFrom<[u8; 8]> for FieldElement {
    type Error = FieldError;

    /// The element that the bytes encode, as `from_bytes` gives it.
    fn try_from(bytes: [u8; 8]) -> (r: Result<FieldElement, FieldError>) {
        FieldElement::from_bytes(&bytes)
    }
}

} // verus!
