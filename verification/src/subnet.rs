//! IP prefixes: an address and a prefix length.

use vstd::prelude::*;

verus! {

/// An IP prefix: an address and the number of leading bits that are
/// significant. Addresses are carried as 128-bit values; IPv4 addresses
/// occupy the low bits of that space.
#[derive(Clone, Copy, Debug, PartialEq, Eq, Structural)]
pub struct Subnet {
    pub address: u128,
    pub prefix_len: u8,
}

impl Subnet {
    /// A prefix length never exceeds the address width.
    pub open spec fn wf(self) -> bool {
        self.prefix_len <= 128
    }

    /// Whether `ip` falls inside this prefix: the leading `prefix_len`
    /// bits of `ip` equal those of the subnet address.
    pub open spec fn contains(self, ip: u128) -> bool {
        self.prefix_len == 0 || (self.address >> (128 - self.prefix_len) as u128) == (ip >> (
        128 - self.prefix_len) as u128)
    }

    pub fn new(address: u128, prefix_len: u8) -> (r: Subnet)
        requires
            prefix_len <= 128,
        ensures
            r.address == address,
            r.prefix_len == prefix_len,
            r.wf(),
    {
        Subnet { address, prefix_len }
    }

    /// Longest-prefix containment test for a destination address.
    pub fn contains_ip(self, ip: u128) -> (r: bool)
        requires
            self.wf(),
        ensures
            r == self.contains(ip),
    {
        if self.prefix_len == 0 {
            true
        } else {
            let shift: u32 = 128 - self.prefix_len as u32;
            (self.address >> shift) == (ip >> shift)
        }
    }
}

} // verus!
