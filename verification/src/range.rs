use vstd::prelude::*;

verus! {

/// One contiguous block of IPv4 addresses, as the closed interval
/// `[start, end]` of 32-bit address values. A CIDR block `a.b.c.d/p`
/// expands to the interval from its network address to its broadcast
/// address.
#[derive(Clone, Copy, Debug, PartialEq, Eq, Structural)]
pub struct IpRange {
    pub start: u32,
    pub end: u32,
}

impl IpRange {
    /// A range is well formed when its interval is non-empty.
    pub open spec fn wf(self) -> bool {
        self.start <= self.end
    }
}

/// Does address `a` fall inside the range `r`?
pub open spec fn in_range(r: IpRange, a: u32) -> bool {
    r.start <= a <= r.end
}

} // verus!
