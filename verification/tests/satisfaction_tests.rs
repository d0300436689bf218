use bellman_ce::pairing::bn256::{Fr, FrRepr};
use bellman_ce::pairing::ff::{Field, PrimeField};
use plonkit::circom_circuit::{CircomCircuit, Synthesis, VarIndex, R1CS};
use plonkit::field::FieldElement;

fn fe(s: &str) -> FieldElement {
    FieldElement::from_decimal(s).unwrap()
}

fn fr(e: &FieldElement) -> Fr {
    Fr::from_repr(FrRepr(e.to_limbs())).unwrap()
}

fn circuit(witness: &[&str]) -> CircomCircuit {
    let one = fe("1");
    CircomCircuit {
        r1cs: R1CS {
            num_inputs: 2,
            num_aux: 2,
            num_variables: 4,
            // (w2 + 0*w0) * (w3) = (w1), and (w0) * (w1) = (w1)
            constraints: vec![
                (vec![(2, one), (0, fe("0"))], vec![(3, one)], vec![(1, one)]),
                (vec![(0, one)], vec![(1, one)], vec![(1, one)]),
            ],
        },
        witness: Some(witness.iter().map(|s| fe(s)).collect()),
        wire_mapping: None,
        aux_offset: 5,
    }
}

fn wire_lc(c: &CircomCircuit, lc: &[(usize, FieldElement)]) -> Fr {
    let mut acc = Fr::zero();
    for (w, coeff) in lc {
        let mut t = fr(coeff);
        t.mul_assign(&fr(&c.wire_value(*w)));
        acc.add_assign(&t);
    }
    acc
}

fn var_value(s: &Synthesis, offset: usize, v: VarIndex) -> Fr {
    match v {
        VarIndex::Input(0) => Fr::one(),
        VarIndex::Input(k) => fr(&s.inputs[k - 1]),
        VarIndex::Aux(j) => fr(&s.aux[j - offset]),
    }
}

fn var_lc(s: &Synthesis, offset: usize, lc: &[(VarIndex, FieldElement)]) -> Fr {
    let mut acc = Fr::zero();
    for (v, coeff) in lc {
        let mut t = fr(coeff);
        t.mul_assign(&var_value(s, offset, *v));
        acc.add_assign(&t);
    }
    acc
}

fn r1cs_holds(c: &CircomCircuit) -> bool {
    c.r1cs.constraints.iter().all(|(a, b, cc)| {
        let mut l = wire_lc(c, a);
        l.mul_assign(&wire_lc(c, b));
        l == wire_lc(c, cc)
    })
}

fn synthesis_holds(s: &Synthesis, offset: usize) -> bool {
    s.constraints.iter().all(|(a, b, cc)| {
        let mut l = var_lc(s, offset, a);
        l.mul_assign(&var_lc(s, offset, b));
        l == var_lc(s, offset, cc)
    })
}

#[test]
fn synthesized_system_holds_exactly_when_r1cs_does() {
    for (witness, expected) in [
        (["1", "6", "2", "3"], true),
        (["1", "7", "2", "3"], false),
        (["1", "0", "0", "9"], true),
    ] {
        let c = circuit(&witness);
        let s = c.synthesize();
        assert_eq!(r1cs_holds(&c), expected);
        assert_eq!(synthesis_holds(&s, c.aux_offset), expected);
    }
}
