//! The witness values of a Circom `.wtns` file as a witness map.
use vstd::prelude::*;
use crate::circuit::WitnessMap;
use crate::field::{Fe, be_value, modulus};
use crate::wtns::WtnsFile;

verus! {

/// The witness map of the values of a `.wtns` file: value `i` (stored little-endian)
/// becomes witness `i - 1`, for every `i` but `0` (the constant wire), reduced into the
/// field.
pub fn witness_map_from_wtns<const FS: usize>(file: &WtnsFile<FS>) -> (m: WitnessMap)
    requires
        file.witness.0@.len() <= u32::MAX,
    ensures
        m@ == Map::new(
            |k: u32| k + 1 < file.witness@.len(),
            |k: u32| be_value(file.witness@[k + 1].reverse()) % modulus(),
        ),
{
    let w = &file.witness.0;
    let ghost wv = file.witness@;
    let mut m = WitnessMap::new();
    let mut i: usize = 1;
    if w.len() == 0 {
        assert(m@ =~= Map::new(
            |k: u32| k + 1 < wv.len(),
            |k: u32| be_value(wv[k + 1].reverse()) % modulus(),
        ));
        return m;
    }
    while i < w.len()
        invariant
            1 <= i <= w@.len(),
            w@.len() <= u32::MAX,
            wv == file.witness@,
            w == &file.witness.0,
            m@ == Map::new(
                |k: u32| k + 1 < i,
                |k: u32| be_value(wv[k + 1].reverse()) % modulus(),
            ),
        decreases w@.len() - i,
    {
        let bytes = w[i].as_bytes();
        let mut be: Vec<u8> = Vec::new();
        let mut j: usize = bytes.len();
        while j > 0
            invariant
                j <= bytes@.len(),
                be@ == bytes@.subrange(j as int, bytes@.len() as int).reverse(),
            decreases j,
        {
            j = j - 1;
            be.push(bytes[j]);
            assert(be@ =~= bytes@.subrange(j as int, bytes@.len() as int).reverse());
        }
        assert(bytes@.subrange(0, bytes@.len() as int) =~= bytes@);
        assert(wv[i as int] == w@[i as int]@);
        let v = Fe::from_be_bytes_reduce(be.as_slice());
        let ghost before = m@;
        m.insert((i - 1) as u32, v);
        i = i + 1;
        assert(m@ =~= Map::new(
            |k: u32| k + 1 < i,
            |k: u32| be_value(wv[k + 1].reverse()) % modulus(),
        ));
    }
    m
}

} // verus!
