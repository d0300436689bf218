pub mod circom_circuit;
pub mod field;
pub mod r1cs_reader;
pub mod prover;
pub mod utils;
pub mod reader;
