use rescue_field::field_element::{reduce, FieldElement, PRIME};
use rescue_field::generate_params::{compute_round_constants, round_constants_from_bytes};
use sha3::digest::{ExtendableOutput, Update};
use sha3::Shake256;

#[test]
fn constants_from_fixed_bytes() {
    let bytes: Vec<u8> = (1u8..=36).collect();
    let table = round_constants_from_bytes::<2, 1>(&bytes);
    assert_eq!(table[0][0][0].value(), 578437734407012856);
    assert_eq!(table[0][0][1].value(), 1229499328604408568);
    assert_eq!(table[1][0][0].value(), 1880560922801804280);
    assert_eq!(table[1][0][1].value(), 2531622516999199992);
}

#[test]
fn constants_from_bytes_are_laid_out_by_half_round_column() {
    let bytes: Vec<u8> = (0..9 * 2 * 3 * 4).map(|i| (i * 7 + 3) as u8).collect();
    let table = round_constants_from_bytes::<4, 3>(&bytes);
    for h in 0..2 {
        for j in 0..3 {
            for c in 0..4 {
                let i = (h * 3 + j) * 4 + c;
                let mut value: u128 = 0;
                for k in (0..9).rev() {
                    value = value * 256 + bytes[9 * i + k] as u128;
                }
                assert_eq!(table[h][j][c], FieldElement::new(reduce(value)));
            }
        }
    }
}

#[test]
fn constants_from_all_ones_bytes() {
    let bytes = [255u8; 18];
    let table = round_constants_from_bytes::<1, 1>(&bytes);
    assert_eq!(table[0][0][0].value(), 1099511627519);
    assert_eq!(table[1][0][0].value(), 1099511627519);
}

#[test]
fn no_constants_from_no_bytes() {
    let table = round_constants_from_bytes::<0, 5>(&[]);
    assert_eq!(table.len(), 2);
    assert_eq!(table[0].len(), 5);
    assert_eq!(table[0][0].len(), 0);
}

#[test]
fn round_constants_known_answer() {
    let table = compute_round_constants::<2, 3, 2>(128);
    let expected: [u64; 12] = [
        18367704176076567412,
        15547420746595342002,
        11891086448973569636,
        4706260688967220682,
        6835280792322612781,
        17363832776080928498,
        3425192344890048913,
        164738826166434563,
        10530896792293402666,
        11603895193014758797,
        5930631164985473330,
        15321892960295695646,
    ];
    for h in 0..2 {
        for j in 0..2 {
            for c in 0..3 {
                assert_eq!(table[h][j][c].value(), expected[(h * 2 + j) * 3 + c]);
            }
        }
    }
}

#[test]
fn round_constants_known_answer_wide() {
    let table = compute_round_constants::<8, 12, 7>(128);
    assert_eq!(table[0][0][0].value(), 16378474442478210384);
    assert_eq!(table[0][0][1].value(), 5717303077328794701);
    assert_eq!(table[0][0][2].value(), 17627127958155359575);
    assert_eq!(table[0][6][11].value(), 7433459060720392994);
    assert_eq!(table[1][0][0].value(), 6151921309828389571);
    assert_eq!(table[1][6][11].value(), 9237032230961641373);
}

#[test]
fn round_constants_follow_the_seed() {
    let mut hasher = Shake256::default();
    hasher.update(b"Rescue - XLIX (18446744069414584321,4,1,80");
    let bytes = hasher.finalize_boxed(9 * 2 * 4 * 3);
    assert_eq!(
        compute_round_constants::<3, 4, 3>(80),
        round_constants_from_bytes::<4, 3>(&bytes)
    );
    assert_ne!(
        compute_round_constants::<3, 4, 3>(80),
        compute_round_constants::<3, 4, 3>(81)
    );
    assert_ne!(
        compute_round_constants::<3, 4, 3>(80),
        compute_round_constants::<2, 4, 3>(80)
    );
}

#[test]
fn round_constants_are_canonical() {
    let table = compute_round_constants::<8, 12, 7>(128);
    for half in table.iter() {
        for round in half.iter() {
            for constant in round.iter() {
                assert!(constant.value() < PRIME);
            }
        }
    }
}
