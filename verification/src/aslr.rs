//! Addresses against one base, as addresses against another.

use vstd::prelude::*;

use crate::va::{wrap_add, Va};

verus! {

/// The offset of `va` from `base`. An address below the base has none.
pub open spec fn offset_in(base: Va, va: Va) -> Option<u64> {
    if va.0 >= base.0 {
        Some((va.0 - base.0) as u64)
    } else {
        None
    }
}

/// The offset of `va` from `base`.
pub fn rva_of(base: Va, va: Va) -> (r: Option<u64>)
    ensures
        r == offset_in(base, va),
{
    va.0.checked_sub(base.0)
}

/// The address `rva` bytes into an image at `base`, wrapping at the end of the
/// address space.
pub fn va_at(base: Va, rva: u64) -> (r: Va)
    ensures
        r == Va(wrap_add(base.0, rva)),
{
    base.offset(rva)
}

/// The address that lies as far from `to_base` as `va` from `from_base`.
pub open spec fn moved(va: Va, from_base: Va, to_base: Va) -> Option<Va> {
    match offset_in(from_base, va) {
        Some(rva) => Some(Va(wrap_add(to_base.0, rva))),
        None => None,
    }
}

/// Moves an address from one base to another.
pub fn rebase(va: Va, from_base: Va, to_base: Va) -> (r: Option<Va>)
    ensures
        r == moved(va, from_base, to_base),
{
    match rva_of(from_base, va) {
        Some(rva) => Some(va_at(to_base, rva)),
        None => None,
    }
}

/// An address that is moved to another base and back is the same again, as long
/// as it did not run past the end of the address space.
pub proof fn moving_back_undoes_a_move(va: Va, from_base: Va, to_base: Va)
    requires
        va.0 >= from_base.0,
        to_base.0 + (va.0 - from_base.0) <= u64::MAX,
    ensures
        moved(va, from_base, to_base) matches Some(m) && moved(m, to_base, from_base) == Some(va),
{
}

/// The address at an offset has this offset, as long as it lies in the address
/// space.
pub proof fn offsets_are_kept(base: Va, rva: u64)
    requires
        base.0 + rva <= u64::MAX,
    ensures
        offset_in(base, Va(wrap_add(base.0, rva))) == Some(rva),
{
}

} // verus!
