//! A secure field-element wrapper: values are forced into the canonical
//! range immediately on construction, so aliases of the same residue cannot
//! masquerade as distinct values (the non-canonical variant enables a
//! double-spend style replay).

use vstd::prelude::*;

verus! {

/// A field element that cannot hold a non-canonical residue.
#[derive(Debug, PartialEq, Eq, Structural)]
pub struct SecureFieldElement {
    value: u32,
}

impl SecureFieldElement {
    /// The residue this element stands for.
    pub closed spec fn v(self) -> int {
        self.value as int
    }

    /// Secure: force the value into `[0, P-1]` immediately.
    pub fn new(val: u32) -> (r: Self)
        ensures
            r.v() == (val as int) % 17,
            0 <= r.v() < 17,
    {
        SecureFieldElement { value: val % 17 }
    }
}

} // verus!
