use plonkit::utils::repr_to_big;
use plonkit::field::FieldElement;

#[test]
fn repr_text_to_decimal() {
    assert_eq!(repr_to_big("0x0000000000000000000000000000000000000000000000000000000000000001"), "1");
    assert_eq!(repr_to_big("0x0000000000000000000000000000000000000000000000000000000000000000"), "0");
    assert_eq!(repr_to_big("0xff"), "255");
    assert_eq!(repr_to_big("0xFF"), "255");
    assert_eq!(repr_to_big("0x1_0"), "16");
    assert_eq!(repr_to_big("0x+10"), "16");
    assert_eq!(repr_to_big("0x10000000000000000"), "18446744073709551616");
}

#[test]
fn repr_text_of_the_field_order() {
    assert_eq!(
        repr_to_big("0x30644e72e131a029b85045b68181585d2833e84879b9709143e1f593f0000001"),
        "21888242871839275222246405745257275088548364400416034343698204186575808495617"
    );
}

#[test]
fn decimal_text_reads_back() {
    for limbs in [[0u64, 0, 0, 0], [9, 0, 0, 0], [5, 1, 0, 0], [0x43e1f593f0000000, 0x2833e84879b97091, 0xb85045b68181585d, 0x30644e72e131a029]] {
        let hex = format!("0x{:016x}{:016x}{:016x}{:016x}", limbs[3], limbs[2], limbs[1], limbs[0]);
        let text = repr_to_big(&hex);
        assert_eq!(FieldElement::from_decimal(&text).unwrap().to_limbs(), limbs);
    }
}
