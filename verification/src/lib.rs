//! A backend around Circom artefacts for the Noir/Halo2 proving stack:
//! the binary `.wtns` witness format, and the translation of R1CS constraint
//! systems into width-bounded arithmetic opcodes over the BN254 scalar field.
use vstd::prelude::*;

pub mod le_bytes;
pub mod wtns;
pub mod field;
pub mod expression;
pub mod circuit;
pub mod circom;
pub mod circ_translator;
pub mod converse;

verus! {

/// The proving backend handle.
#[derive(Debug, Clone, Copy)]
pub struct PseHalo2;

impl PseHalo2 {
    pub fn new() -> (backend: PseHalo2)
        ensures
            backend == PseHalo2,
    {
        PseHalo2
    }
}

impl Default for PseHalo2 {
    fn default() -> (backend: PseHalo2)
        ensures
            backend == PseHalo2,
    {
        PseHalo2::new()
    }
}

} // verus!
