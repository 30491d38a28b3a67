//! Virtual addresses.

use vstd::prelude::*;
use vstd::string::StringExecFns;

use crate::text::{hex, hexadecimal};

verus! {

/// A virtual address.
#[derive(Clone, Copy, Debug, PartialEq, Eq, PartialOrd, Ord, Hash, Structural)]
pub struct Va(pub u64);

/// `a + n`, wrapping at the end of the address space.
pub open spec fn wrap_add(a: u64, n: u64) -> u64 {
    if a + n > u64::MAX {
        (a + n - u64::MAX - 1) as u64
    } else {
        (a + n) as u64
    }
}

impl Va {
    /// The address as a number.
    pub fn get(self) -> (r: u64)
        ensures
            r == self.0,
    {
        self.0
    }

    /// The address `n` bytes further on, wrapping at the end of the address
    /// space.
    pub fn offset(self, n: u64) -> (r: Va)
        ensures
            r.0 == wrap_add(self.0, n),
    {
        Va(self.0.wrapping_add(n))
    }

    /// How the address is written: `0x` and lower-case hexadecimal digits.
    pub open spec fn text(self) -> Seq<char> {
        "0x"@ + hex(self.0 as nat)
    }

    /// The address as text.
    pub fn to_text(self) -> (s: String)
        ensures
            s@ == self.text(),
    {
        let digits = hexadecimal(self.0, false, 0);
        let s = String::from_str("0x");
        s.concat(digits.as_str())
    }
}

} // verus!
