# noir_halo2_backend_pse

Circom artefacts for a Noir/Halo2 backend over the BN254 scalar field, verified with Verus.

- `src/le_bytes.rs`: little-endian integers, as the `.wtns` format stores them.
- `src/wtns.rs`: the binary `.wtns` witness format: reading, writing, and the laws
  that tie the two together (what is written reads back; what reads writes back).
- `src/field.rs`: field elements as 32 big-endian bytes, with the arithmetic of
  `acvm` and `ark_bn254`.
- `src/expression.rs`: ACIR arithmetic expressions, their value under an assignment,
  and their byte encoding.
- `src/circuit.rs`: the translation of R1CS constraints into ACIR opcodes of bounded
  width, and its soundness: a satisfied constraint system gives opcodes that all
  vanish under the solved witness map.
- `src/converse.rs`: the converse of that soundness: under any assignment, opcodes
  that all vanish mean that every constraint holds.
- `src/circom.rs`: the witness map of a `.wtns` file.
- `src/circ_translator.rs`: the same translation for constraint systems of the CirC
  compiler.
- `app/`: file input and conversions into `acvm`'s own types.
