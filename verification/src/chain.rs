//! Chains of filters: when a scalable filter grows, and by what.
//!
//! A part is full when at least half of its bits are set; that is the fill at
//! which a filter sized for its rate has taken the entries it was sized for. A
//! part is followed by another only once it is full. Each part is sized for
//! twice the entries of the part before, at half its false-positive rate, so
//! that the rates of all parts together stay below twice the rate of the
//! first. Halving a normal double lowers its bit pattern by `RATE_STEP`; that
//! is how a rate is halved without floating point.

use vstd::prelude::*;
use crate::error::ExPoppyError;
use crate::filter::answers;
use crate::membership::FilterView;
use crate::params::{Params, Variant, RATE_FLOOR};

verus! {

/// What halving a rate takes from its bit pattern: one step of the exponent.
pub const RATE_STEP: u64 = 0x0010_0000_0000_0000;

/// The greatest number of parts. Capacities double from part to part, so no
/// chain is longer than there are bits in a capacity.
pub const MAX_PARTS: usize = 64;

/// Whether a filter is full: at least half of its bits are set.
pub open spec fn full(v: FilterView) -> bool {
    2 * v.ones() >= v.bit_size
}

/// The request for the part that follows a full part with view `last`: twice
/// the capacity at half the rate, if both can be had.
pub open spec fn request_after(last: FilterView) -> Option<Params> {
    if 2 * last.capacity <= usize::MAX && last.rate_bits - RATE_STEP >= RATE_FLOOR
        && Variant::spec_from_tag(last.variant) is Some {
        Some(
            Params {
                version: last.version,
                capacity: (2 * last.capacity) as usize,
                rate_bits: (last.rate_bits - RATE_STEP) as u64,
                variant: Variant::spec_from_tag(last.variant)->Some_0,
            },
        )
    } else {
        None
    }
}

/// Whether `next` stands rightly behind `last` in a chain: `last` is full, and
/// `next` is of the same version and variant, sized for twice the entries at
/// half the rate.
pub open spec fn follows(last: FilterView, next: FilterView) -> bool {
    &&& full(last)
    &&& next.version == last.version
    &&& next.variant == last.variant
    &&& next.capacity == 2 * last.capacity
    &&& next.rate_bits == last.rate_bits - RATE_STEP
}

/// Whether each part of a chain stands rightly behind the part before.
pub open spec fn chained(parts: Seq<FilterView>) -> bool {
    forall|i: int| 0 <= i < parts.len() - 1 ==> follows(#[trigger] parts[i], parts[i + 1])
}

/// The entries that a chain reports: those that one of its parts reports.
pub open spec fn chain_members(parts: Seq<FilterView>) -> Set<Seq<u8>> {
    Set::new(
        |data: Seq<u8>| exists|i: int| 0 <= i < parts.len() && (#[trigger] parts[i]).reports(data),
    )
}

/// What `next_request` returns for a chain: nothing while the last part is not
/// full; else the request for the next part, or `InvalidParameter` if the chain
/// has all the parts it can have or the next part cannot be sized.
pub open spec fn next_step(parts: Seq<FilterView>) -> Result<Option<Params>, ExPoppyError> {
    let last = parts.last();
    if !full(last) {
        Ok(None)
    } else if parts.len() >= MAX_PARTS {
        Err(ExPoppyError::InvalidParameter)
    } else {
        match request_after(last) {
            Some(request) => Ok(Some(request)),
            None => Err(ExPoppyError::InvalidParameter),
        }
    }
}

/// Whether `grow` takes a filter with view `next` into a chain: the chain asks
/// for a part, and `next` is that part, with no bit set in it yet.
pub open spec fn accepts(parts: Seq<FilterView>, next: FilterView) -> bool {
    &&& next_step(parts) matches Ok(Some(request)) && answers(request, next)
    &&& next.ones() == 0
}

/// Every entry that a chain reports is reported by a chain whose parts report
/// all that the parts of the first did.
pub proof fn lemma_chain_members_stay(before: Seq<FilterView>, after: Seq<FilterView>)
    requires
        before.len() <= after.len(),
        forall|i: int|
            0 <= i < before.len() ==> (#[trigger] before[i]).members().subset_of(
                after[i].members(),
            ),
    ensures
        chain_members(before).subset_of(chain_members(after)),
{
    assert forall|entry: Seq<u8>| chain_members(before).contains(entry) implies chain_members(
        after,
    ).contains(entry) by {
        let i = choose|i: int| 0 <= i < before.len() && (#[trigger] before[i]).reports(entry);
        assert(before[i].members().contains(entry));
        assert(before[i].members().subset_of(after[i].members()));
        assert(after[i].members().contains(entry));
        assert(after[i].reports(entry));
    }
}

} // verus!
