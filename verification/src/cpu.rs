//! Reading the CPU's own state.
use vstd::prelude::*;

verus! {

/// The exception level encoded in the CurrentEL register, bits[3:2].
pub fn current_el(current_el_reg: u64) -> (el: u64)
    ensures
        el == current_el_reg / 4,
{
    let el = current_el_reg >> 2u64;
    assert(el == current_el_reg / 4) by (bit_vector)
        requires el == current_el_reg >> 2u64;
    el
}

} // verus!
