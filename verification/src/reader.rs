//! Reading circuits and witnesses from the forms circom writes them in.

use crate::circom_circuit::{
    circuit_json_readable, constraints_view, is_witness_json, json_constraints_view,
    json_string_array, r1cs_bytes_fit, witness_values, CircuitJson, R1CS,
};
use crate::field::{decimal_value, is_field_decimal, modulus, FieldElement};
use crate::r1cs_reader::{spec_read, R1csError};
use vstd::prelude::*;

verus! {

/// Reads a witness from a JSON array of decimal strings.
pub fn witness_from_json(text: &str) -> (r: Vec<FieldElement>)
    requires
        is_witness_json(text@),
    ensures
        r@.map_values(|e: FieldElement| e@) == witness_values(json_string_array(text@)->0),
        r@.len() == json_string_array(text@)->0.len(),
        forall|i: int|
            0 <= i < r@.len() ==> (#[trigger] r@[i])@ == decimal_value(json_string_array(text@)->0[i])
                % modulus(),
{
    crate::circom_circuit::witness_from_json(text)
}

/// Reads a witness from a JSON text, or gives `None` when the text is not an
/// array of field elements in decimal.
pub fn try_witness_from_json(text: &str) -> (r: Option<Vec<FieldElement>>)
    ensures
        r is Some <==> is_witness_json(text@),
        r matches Some(w) ==> w@.map_values(|e: FieldElement| e@) == witness_values(
            json_string_array(text@)->0,
        ),
        r is Some <==> (json_string_array(text@) matches Some(strs) && forall|i: int|
            0 <= i < strs.len() ==> is_field_decimal(#[trigger] strs[i])),
        r matches Some(w) ==> w@.len() == json_string_array(text@)->0.len() && forall|i: int|
            0 <= i < w@.len() ==> (#[trigger] w@[i])@ == decimal_value(json_string_array(text@)->0[i])
                % modulus(),
{
    proof {
        crate::circom_circuit::lemma_witness_json_is_field_decimal_array(text@);
    }
    if crate::circom_circuit::is_witness_json_text(text) {
        Some(witness_from_json(text))
    } else {
        None
    }
}

/// Builds the constraint system of a circuit from its JSON description.
pub fn load_r1cs_from_json(circuit_json: &CircuitJson) -> (r: R1CS)
    requires
        circuit_json_readable(*circuit_json),
    ensures
        r.num_inputs == circuit_json.num_inputs + circuit_json.num_outputs + 1,
        r.num_aux == circuit_json.num_variables - r.num_inputs,
        r.num_variables == circuit_json.num_variables,
        constraints_view(r.constraints@) == json_constraints_view(circuit_json.constraints@),
{
    crate::circom_circuit::r1cs_from_json(circuit_json)
}

/// Reads the constraint system of a circuit, and its wire-to-label map, from the
/// bytes of a `.r1cs` file.
pub fn r1cs_from_bin(bytes: &[u8]) -> (r: Result<(R1CS, Vec<usize>), R1csError>)
    requires
        r1cs_bytes_fit(bytes@),
    ensures
        match spec_read(bytes@) {
            Err(e) => r == Err::<(R1CS, Vec<usize>), R1csError>(e),
            Ok(f) => r matches Ok((cs, mapping)) && {
                &&& cs.num_inputs == 1 + f.header.n_pub_in + f.header.n_pub_out
                &&& cs.num_variables == f.header.n_wires
                &&& cs.num_inputs + cs.num_aux == cs.num_variables
                &&& constraints_view(cs.constraints@) == f.constraints
                &&& mapping@.len() == f.wire_mapping.len()
                &&& forall|i: int|
                    0 <= i < mapping@.len() ==> #[trigger] mapping@[i] == f.wire_mapping[i] as usize
            },
        },
{
    crate::circom_circuit::r1cs_from_bin(bytes)
}

} // verus!
