use rescue_field::field_element::errors::FieldError;
use rescue_field::field_element::{FieldElement, PRIME};

#[test]
fn to_bytes_is_little_endian() {
    assert_eq!(FieldElement::new(1).to_bytes(), [1, 0, 0, 0, 0, 0, 0, 0]);
    assert_eq!(FieldElement::new(256).to_bytes(), [0, 1, 0, 0, 0, 0, 0, 0]);
    assert_eq!(
        FieldElement::new(1234567890123456789).to_bytes(),
        [21, 129, 233, 125, 244, 16, 34, 17]
    );
    assert_eq!(
        FieldElement::new(0x0102030405060708).to_bytes(),
        [8, 7, 6, 5, 4, 3, 2, 1]
    );
    for x in [0u64, 1, 255, 256, 65535, 4294967296, PRIME - 1] {
        assert_eq!(FieldElement::new(x).to_bytes(), x.to_le_bytes());
    }
}

#[test]
fn from_bytes_reads_little_endian() {
    assert_eq!(
        FieldElement::from_bytes(&[21, 129, 233, 125, 244, 16, 34, 17]),
        Ok(FieldElement::new(1234567890123456789))
    );
    assert_eq!(
        FieldElement::from_bytes(&[255, 255, 255, 255, 0, 0, 0, 0]),
        Ok(FieldElement::new(4294967295))
    );
    assert_eq!(
        FieldElement::from_bytes(&[255, 255, 255, 255, 0, 0, 0, 1]),
        Ok(FieldElement::new(0x01000000ffffffff))
    );
    assert_eq!(FieldElement::from_bytes(&[0; 8]), Ok(FieldElement::zero()));
}

#[test]
fn from_bytes_refuses_the_modulus_and_above() {
    let prime = PRIME.to_le_bytes();
    assert_eq!(prime, [1, 0, 0, 0, 255, 255, 255, 255]);
    assert_eq!(FieldElement::from_bytes(&prime), Err(FieldError::InvalidValue));
    assert_eq!(
        FieldElement::from_bytes(&(PRIME + 1).to_le_bytes()),
        Err(FieldError::InvalidValue)
    );
    assert_eq!(FieldElement::from_bytes(&[255; 8]), Err(FieldError::InvalidValue));
    assert_eq!(
        FieldElement::from_bytes(&(PRIME - 1).to_le_bytes()),
        Ok(FieldElement::new(PRIME - 1))
    );
}

#[test]
fn bytes_round_trip() {
    for x in [0u64, 1, 2, 255, 256, 4294967295, 4294967296, 1234567890123456789, PRIME - 1] {
        let a = FieldElement::new(x);
        assert_eq!(FieldElement::from_bytes(&a.to_bytes()), Ok(a));
        assert_eq!(FieldElement::try_from(a.to_bytes()), Ok(a));
    }
}

#[test]
fn try_from_matches_from_bytes() {
    for bytes in [[0u8; 8], [255; 8], [1, 0, 0, 0, 255, 255, 255, 255], [9, 8, 7, 6, 5, 4, 3, 2]] {
        assert_eq!(FieldElement::try_from(bytes), FieldElement::from_bytes(&bytes));
    }
}

#[test]
fn error_message() {
    assert_eq!(FieldError::InvalidValue.message(), "Invalid value");
}
