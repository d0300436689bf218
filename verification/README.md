# plonkit

Reading circom circuits and witnesses for PLONK proving over BN256, verified with Verus.

- `src/field.rs`: BN256 scalar field elements in canonical limb form, read from decimal text or limbs.
- `src/r1cs_reader.rs`: the binary `.r1cs` format, with its byte-level description (`spec_read`).
- `src/circom_circuit.rs`: constraint systems from JSON or `.r1cs` bytes, witnesses from JSON,
  and the plan by which a circuit allocates variables and enforces constraints.
- `src/reader.rs`: the same readers under the names of the loading API.
- `src/prover.rs`: setup sizes for a circuit.
- `src/utils.rs`: decimal text of hexadecimal representations.
- `app/`: files, streams, serde and the bellman `Circuit` implementation and prover around the library.
