//! Account identities.

use vstd::prelude::*;
use vstd::std_specs::cmp::PartialEqSpecImpl;

verus! {

/// A 32-byte account address. The exchange never looks inside an address: it
/// only compares two of them for equality.
#[derive(Clone, Copy, Debug)]
pub struct Pubkey {
    pub bytes: [u8; 32],
}

impl PartialEq for Pubkey {
    fn eq(&self, other: &Pubkey) -> (same: bool) {
        let mut i: usize = 0;
        while i < 32
            invariant
                i <= 32,
                forall|j: int| 0 <= j < i ==> self.bytes[j] == other.bytes[j],
            decreases 32 - i,
        {
            if self.bytes[i] != other.bytes[i] {
                return false;
            }
            i += 1;
        }
        assert(self.bytes =~= other.bytes);
        true
    }
}

impl Eq for Pubkey {

}

impl PartialEqSpecImpl for Pubkey {
    open spec fn obeys_eq_spec() -> bool {
        true
    }

    open spec fn eq_spec(&self, other: &Pubkey) -> bool {
        *self == *other
    }
}

impl Pubkey {
    /// Wraps 32 raw bytes as an address.
    pub fn new(bytes: [u8; 32]) -> (key: Pubkey)
        ensures
            key.bytes == bytes,
    {
        Pubkey { bytes }
    }

    /// The raw bytes of the address.
    pub fn to_bytes(&self) -> (bytes: [u8; 32])
        ensures
            bytes == self.bytes,
    {
        self.bytes
    }
}

} // verus!
