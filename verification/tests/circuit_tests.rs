use plonkit::circom_circuit::{
    parse_index, r1cs_from_json, try_witness_from_json, witness_from_json, witness_from_strings,
    CircomCircuit, CircuitJson, VarIndex, R1CS,
};
use plonkit::field::FieldElement;

fn fe(s: &str) -> FieldElement {
    FieldElement::from_decimal(s).unwrap()
}

fn pair(a: &str, b: &str) -> (String, String) {
    (a.to_string(), b.to_string())
}

#[test]
fn index_parsing() {
    assert_eq!(parse_index("0"), Some(0));
    assert_eq!(parse_index("42"), Some(42));
    assert_eq!(parse_index("007"), Some(7));
    assert_eq!(parse_index("+7"), Some(7));
    assert_eq!(parse_index(&usize::MAX.to_string()), Some(usize::MAX));
    assert_eq!(parse_index(""), None);
    assert_eq!(parse_index("+"), None);
    assert_eq!(parse_index("++1"), None);
    assert_eq!(parse_index("-1"), None);
    assert_eq!(parse_index("1a"), None);
    assert_eq!(parse_index(" 1"), None);
    assert_eq!(parse_index("\u{0663}"), None);
    assert_eq!(parse_index("99999999999999999999999999"), None);
}

#[test]
fn index_parsing_agrees_with_std() {
    for s in ["0", "1", "+12", "12+", "", "+", "-0", "x", "18446744073709551616", "0018"] {
        assert_eq!(parse_index(s), s.parse::<usize>().ok(), "on {:?}", s);
    }
}

fn sample_json() -> CircuitJson {
    CircuitJson {
        constraints: vec![
            vec![
                vec![pair("1", "1")],
                vec![pair("2", "1")],
                vec![pair("10", "1"), pair("3", "21888242871839275222246405745257275088548364400416034343698204186575808495616")],
            ],
            vec![vec![], vec![], vec![pair("+0", "5")], vec![pair("9", "9")]],
        ],
        num_inputs: 2,
        num_outputs: 1,
        num_variables: 11,
    }
}

#[test]
fn r1cs_from_json_counts_and_terms() {
    let r = r1cs_from_json(&sample_json());
    assert_eq!(r.num_inputs, 4);
    assert_eq!(r.num_aux, 7);
    assert_eq!(r.num_variables, 11);
    assert_eq!(r.constraints.len(), 2);
    let (a, b, c) = &r.constraints[0];
    assert_eq!(a.len(), 1);
    assert_eq!(a[0].0, 1);
    assert_eq!(a[0].1.to_limbs(), [1, 0, 0, 0]);
    assert_eq!(b[0].0, 2);
    assert_eq!(c.len(), 2);
    assert_eq!(c[0].0, 10);
    assert_eq!(c[1].0, 3);
    // the field order minus one
    assert_eq!(
        c[1].1.to_limbs(),
        [0x43e1f593f0000000, 0x2833e84879b97091, 0xb85045b68181585d, 0x30644e72e131a029]
    );
    let (a, b, c) = &r.constraints[1];
    assert!(a.is_empty() && b.is_empty());
    assert_eq!(c.len(), 1);
    assert_eq!(c[0].0, 0);
    assert_eq!(c[0].1.to_limbs(), [5, 0, 0, 0]);
}

#[test]
fn witness_from_decimal_strings() {
    let w = witness_from_strings(&vec!["1".to_string(), "3".to_string(), "0".to_string()]);
    let limbs: Vec<[u64; 4]> = w.iter().map(|e| e.to_limbs()).collect();
    assert_eq!(limbs, vec![[1, 0, 0, 0], [3, 0, 0, 0], [0, 0, 0, 0]]);
}

#[test]
fn witness_from_json_text() {
    let w = witness_from_json("[\"1\", \"18446744073709551616\"]");
    assert_eq!(w.len(), 2);
    assert_eq!(w[0].to_limbs(), [1, 0, 0, 0]);
    assert_eq!(w[1].to_limbs(), [0, 1, 0, 0]);
    assert!(witness_from_json("[]").is_empty());
}

#[test]
fn witness_from_json_refusals() {
    assert!(try_witness_from_json("[\"1\", \"2\"]").is_some());
    assert!(try_witness_from_json("[\"1\", \"02\"]").is_none());
    assert!(try_witness_from_json("[1, 2]").is_none());
    assert!(try_witness_from_json("not json").is_none());
    assert!(try_witness_from_json("[\"1\"] trailing").is_none());
    let w = try_witness_from_json("[\"7\"]").unwrap();
    assert_eq!(w[0].to_limbs(), [7, 0, 0, 0]);
}

fn sample_circuit(witness: Option<Vec<FieldElement>>, mapping: Option<Vec<usize>>) -> CircomCircuit {
    let one = fe("1");
    CircomCircuit {
        r1cs: R1CS {
            num_inputs: 2,
            num_aux: 2,
            num_variables: 4,
            constraints: vec![(
                vec![(1, one), (2, fe("2"))],
                vec![(3, one)],
                vec![(0, fe("5"))],
            )],
        },
        witness,
        wire_mapping: mapping,
        aux_offset: 10,
    }
}

#[test]
fn make_index_inputs_and_aux() {
    let c = sample_circuit(None, None);
    assert_eq!(c.make_index(0), VarIndex::Input(0));
    assert_eq!(c.make_index(1), VarIndex::Input(1));
    assert_eq!(c.make_index(2), VarIndex::Aux(10));
    assert_eq!(c.make_index(3), VarIndex::Aux(11));
}

#[test]
fn distinct_wires_distinct_variables() {
    let c = sample_circuit(None, None);
    let vars: Vec<VarIndex> = (0..4).map(|w| c.make_index(w)).collect();
    for i in 0..4 {
        for j in 0..4 {
            assert_eq!(i == j, vars[i] == vars[j]);
        }
    }
}

#[test]
fn synthesize_without_witness_uses_ones() {
    let c = sample_circuit(None, None);
    let s = c.synthesize();
    assert_eq!(s.inputs.len(), 1);
    assert_eq!(s.aux.len(), 2);
    for e in s.inputs.iter().chain(s.aux.iter()) {
        assert_eq!(e.to_limbs(), [1, 0, 0, 0]);
    }
    assert_eq!(s.constraints.len(), 1);
    let (a, b, cc) = &s.constraints[0];
    assert_eq!(a.iter().map(|t| t.0).collect::<Vec<_>>(), vec![VarIndex::Input(1), VarIndex::Aux(10)]);
    assert_eq!(a[1].1.to_limbs(), [2, 0, 0, 0]);
    assert_eq!(b[0].0, VarIndex::Aux(11));
    assert_eq!(cc[0].0, VarIndex::Input(0));
    assert_eq!(cc[0].1.to_limbs(), [5, 0, 0, 0]);
}

#[test]
fn synthesize_with_witness() {
    let w = vec![fe("1"), fe("20"), fe("30"), fe("40")];
    let c = sample_circuit(Some(w), None);
    let s = c.synthesize();
    assert_eq!(s.inputs[0].to_limbs(), [20, 0, 0, 0]);
    assert_eq!(s.aux[0].to_limbs(), [30, 0, 0, 0]);
    assert_eq!(s.aux[1].to_limbs(), [40, 0, 0, 0]);
}

#[test]
fn synthesize_with_witness_and_mapping() {
    let w = vec![fe("1"), fe("20"), fe("30"), fe("40")];
    let c = sample_circuit(Some(w), Some(vec![0, 3, 1, 2]));
    assert_eq!(c.wire_value(1).to_limbs(), [40, 0, 0, 0]);
    let s = c.synthesize();
    assert_eq!(s.inputs[0].to_limbs(), [40, 0, 0, 0]);
    assert_eq!(s.aux[0].to_limbs(), [20, 0, 0, 0]);
    assert_eq!(s.aux[1].to_limbs(), [30, 0, 0, 0]);
}

#[test]
fn terms_point_at_the_values_of_their_wires() {
    let w = vec![fe("1"), fe("20"), fe("30"), fe("40")];
    let c = sample_circuit(Some(w), Some(vec![0, 3, 1, 2]));
    let s = c.synthesize();
    for wire in 1..4usize {
        let value = match c.make_index(wire) {
            VarIndex::Input(k) => s.inputs[k - 1],
            VarIndex::Aux(j) => s.aux[j - c.aux_offset],
        };
        assert_eq!(value.to_limbs(), c.wire_value(wire).to_limbs());
    }
}

#[test]
fn witness_json_text_check() {
    assert!(plonkit::circom_circuit::is_witness_json_text("[\"0\", \"12\"]"));
    assert!(!plonkit::circom_circuit::is_witness_json_text("[\"-1\"]"));
    assert!(!plonkit::circom_circuit::is_witness_json_text("{}"));
    let w = plonkit::reader::try_witness_from_json("[\"5\"]").unwrap();
    assert_eq!(w[0].to_limbs(), [5, 0, 0, 0]);
    assert!(plonkit::reader::try_witness_from_json("[\"5\", 5]").is_none());
}
