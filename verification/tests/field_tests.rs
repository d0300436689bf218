use plonkit::field::FieldElement;

const MODULUS: &str = "21888242871839275222246405745257275088548364400416034343698204186575808495617";
const MODULUS_LIMBS: [u64; 4] = [
    0x43e1f593f0000001,
    0x2833e84879b97091,
    0xb85045b68181585d,
    0x30644e72e131a029,
];

#[test]
fn decimal_small_values() {
    assert_eq!(FieldElement::from_decimal("0").unwrap().to_limbs(), [0, 0, 0, 0]);
    assert_eq!(FieldElement::from_decimal("1").unwrap().to_limbs(), [1, 0, 0, 0]);
    assert_eq!(FieldElement::from_decimal("255").unwrap().to_limbs(), [255, 0, 0, 0]);
}

#[test]
fn decimal_above_one_limb() {
    // 2^64 + 5
    let e = FieldElement::from_decimal("18446744073709551621").unwrap();
    assert_eq!(e.to_limbs(), [5, 1, 0, 0]);
}

#[test]
fn decimal_is_reduced_modulo_the_order() {
    assert_eq!(FieldElement::from_decimal(MODULUS).unwrap().to_limbs(), [0, 0, 0, 0]);
    let plus_two = "21888242871839275222246405745257275088548364400416034343698204186575808495619";
    assert_eq!(FieldElement::from_decimal(plus_two).unwrap().to_limbs(), [2, 0, 0, 0]);
}

#[test]
fn decimal_refused_forms() {
    assert!(FieldElement::from_decimal("").is_none());
    assert!(FieldElement::from_decimal("01").is_none());
    assert!(FieldElement::from_decimal("00").is_none());
    assert!(FieldElement::from_decimal("12a").is_none());
    assert!(FieldElement::from_decimal("-1").is_none());
    assert!(FieldElement::from_decimal("+1").is_none());
    assert!(FieldElement::from_decimal(" 1").is_none());
}

#[test]
fn limbs_below_the_order_only() {
    assert!(FieldElement::from_limbs(MODULUS_LIMBS).is_none());
    let mut below = MODULUS_LIMBS;
    below[0] -= 1;
    assert_eq!(FieldElement::from_limbs(below).unwrap().to_limbs(), below);
    assert!(FieldElement::from_limbs([u64::MAX; 4]).is_none());
    assert_eq!(FieldElement::from_limbs([7, 0, 0, 0]).unwrap().to_limbs(), [7, 0, 0, 0]);
}

#[test]
fn one_is_one() {
    assert_eq!(FieldElement::one().to_limbs(), [1, 0, 0, 0]);
}
