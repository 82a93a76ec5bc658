use vstd::prelude::*;

use crate::combiner::{covers, line_covers, wf_seq, Combiner};
use crate::parse::{ipv4_value, is_ipv4, parse_ipv4, split_bytes, NEWLINE};
use crate::range::IpRange;

verus! {

/// Why a gated operation could not produce a result.
#[derive(Clone, Copy, Debug, PartialEq, Eq, Structural)]
pub enum OpError {
    /// The combiner slot is absent: teardown has already released it.
    Unavailable,
    /// The queried address text does not parse as a dotted quad.
    MalformedAddress,
}

/// The process-wide combiner slot: it either holds the one combiner
/// instance, or teardown has already released it. A host serializes its
/// calls through a mutual-exclusion gate around this value, and the
/// methods here state the effect of each gated operation.
pub struct CombinerSlot {
    inner: Option<Combiner>,
}

impl CombinerSlot {
    /// Does the slot still hold the combiner?
    pub closed spec fn is_present(self) -> bool {
        self.inner is Some
    }

    /// The ranges of the held combiner.
    pub closed spec fn ranges(self) -> Seq<IpRange> {
        self.inner->0@
    }

    pub open spec fn inv(self) -> bool {
        self.is_present() ==> wf_seq(self.ranges())
    }

    /// A fresh slot holding an empty combiner.
    pub fn new() -> (s: CombinerSlot)
        ensures
            s.inv(),
            s.is_present(),
            s.ranges() == Seq::<IpRange>::empty(),
    {
        CombinerSlot { inner: Some(Combiner::new()) }
    }

    /// Bulk-load CIDR lines into the held combiner: every valid line is
    /// merged, every other line skipped, and the number of stored ranges
    /// afterwards is reported. When the slot is absent the call fails
    /// without changing anything.
    pub fn load(&mut self, text: &[u8]) -> (res: Result<usize, OpError>)
        requires
            old(self).inv(),
        ensures
            final(self).inv(),
            !old(self).is_present() ==> res == Err::<usize, OpError>(OpError::Unavailable)
                && *final(self) == *old(self),
            old(self).is_present() ==> {
                &&& final(self).is_present()
                &&& res matches Ok(count) && count as nat == final(self).ranges().len()
                &&& forall|a: u32|
                    #![trigger covers(final(self).ranges(), a)]
                    covers(final(self).ranges(), a) <==> covers(old(self).ranges(), a)
                        || line_covers(split_bytes(text@, NEWLINE), a)
            },
    {
        match &mut self.inner {
            Some(c) => {
                c.load(text);
                Ok(c.size())
            },
            None => Err(OpError::Unavailable),
        }
    }

    /// Replace whatever the slot holds with a fresh empty combiner, so
    /// the slot is present and covers no address; never an error.
    pub fn clear(&mut self)
        ensures
            final(self).inv(),
            final(self).is_present(),
            final(self).ranges() == Seq::<IpRange>::empty(),
            forall|a: u32| !covers(final(self).ranges(), a),
    {
        self.inner = Some(Combiner::new());
    }

    /// Test a textual address against the held combiner. Malformed text
    /// is a hard error, reported before the slot is consulted; an absent
    /// slot is the other error; otherwise the definite boolean answer.
    pub fn contains(&self, addr: &[u8]) -> (res: Result<bool, OpError>)
        requires
            self.inv(),
        ensures
            !is_ipv4(addr@) ==> res == Err::<bool, OpError>(OpError::MalformedAddress),
            is_ipv4(addr@) && !self.is_present() ==> res == Err::<bool, OpError>(
                OpError::Unavailable,
            ),
            is_ipv4(addr@) && self.is_present() ==> res == Ok::<bool, OpError>(
                covers(self.ranges(), ipv4_value(addr@)),
            ),
    {
        match parse_ipv4(addr) {
            Some(a) => match &self.inner {
                Some(c) => Ok(c.contains(a)),
                None => Err(OpError::Unavailable),
            },
            None => Err(OpError::MalformedAddress),
        }
    }

    /// Release the held combiner: the slot becomes absent, and only a
    /// clear builds a fresh instance.
    pub fn teardown(&mut self)
        ensures
            final(self).inv(),
            !final(self).is_present(),
    {
        self.inner = None;
    }
}

} // verus!
