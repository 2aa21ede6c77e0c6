//! Addresses in the guest's physical address space and inside one memory region.

use vstd::prelude::*;

verus! {

/// Type of the raw value stored in an address.
pub type GuestUsize = u64;

/// A guest physical address.
#[derive(Clone, Copy, Debug, PartialEq, Eq, PartialOrd, Ord, Hash, Structural)]
pub struct GuestAddress(pub u64);

/// An offset inside a memory region.
#[derive(Clone, Copy, Debug, PartialEq, Eq, PartialOrd, Ord, Hash, Structural)]
pub struct MemoryRegionAddress(pub u64);

impl GuestAddress {
    /// The number of the address.
    pub fn raw_value(&self) -> (raw: GuestUsize)
        ensures
            raw == self.0,
    {
        self.0
    }

    /// The address `other` bytes further on, or `None` where that passes the largest address.
    pub fn checked_add(&self, other: GuestUsize) -> (sum: Option<GuestAddress>)
        ensures
            self.0 + other <= u64::MAX ==> sum == Some(GuestAddress((self.0 + other) as u64)),
            self.0 + other > u64::MAX ==> sum is None,
    {
        match self.0.checked_add(other) {
            Some(raw) => Some(GuestAddress(raw)),
            None => None,
        }
    }

    /// The address `other` bytes further on, where the caller knows that there is one.
    pub fn unchecked_add(&self, other: GuestUsize) -> (sum: GuestAddress)
        requires
            self.0 + other <= u64::MAX,
        ensures
            sum.0 == self.0 + other,
    {
        GuestAddress(self.0 + other)
    }

    /// The distance from `base` up to this address, or `None` where this address is below `base`.
    pub fn checked_offset_from(&self, base: GuestAddress) -> (offset: Option<GuestUsize>)
        ensures
            base.0 <= self.0 ==> offset == Some((self.0 - base.0) as u64),
            self.0 < base.0 ==> offset is None,
    {
        self.0.checked_sub(base.0)
    }
}

impl MemoryRegionAddress {
    /// The number of bytes from the start of the region.
    pub fn raw_value(&self) -> (raw: GuestUsize)
        ensures
            raw == self.0,
    {
        self.0
    }
}

} // verus!
