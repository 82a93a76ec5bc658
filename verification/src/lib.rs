//! Membership testing of IPv4 addresses against a dynamically loaded set of
//! CIDR ranges.
//!
//! The heart of the crate is [`combiner::Combiner`]: it ingests possibly
//! overlapping CIDR blocks and keeps them as a sorted sequence of disjoint,
//! non-adjacent ranges, so containment queries are a single binary search.
//! [`slot::CombinerSlot`] wraps one combiner in the present/absent lifecycle
//! that a host process drives, and [`parse`] holds the verified text grammar
//! for `a.b.c.d` addresses and `a.b.c.d/prefix` lines.

pub mod combiner;
pub mod laws;
pub mod parse;
pub mod range;
pub mod slot;
