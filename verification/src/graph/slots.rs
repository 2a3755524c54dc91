//! Neighbour slots: one `u32` that either names a node or is empty.
use optional::Optioned;
use vstd::prelude::*;

verus! {

/// A neighbour slot, stored as an `Optioned<u32>` of the `optional` crate: it takes the room of
/// a `u32` and gives up `u32::MAX` as a value.
#[verifier::external_body]
pub struct Slot {
    inner: Optioned<u32>,
}

/// What a slot holds: the stored value, or nothing.
pub uninterp spec fn slot_value(slot: Slot) -> Option<u32>;

impl Slot {
    /// `Optioned::<u32>::some`: a slot that holds `value`. The crate keeps `u32::MAX` for the
    /// empty slot and panics on it.
    #[verifier::external_body]
    pub(crate) fn some(value: u32) -> (slot: Slot)
        requires
            value != u32::MAX,
        ensures
            slot_value(slot) == Some(value),
    {
        Slot { inner: Optioned::some(value) }
    }

    /// `Optioned::<u32>::none`: the empty slot.
    #[verifier::external_body]
    pub(crate) fn none() -> (slot: Slot)
        ensures
            slot_value(slot) == None::<u32>,
    {
        Slot { inner: Optioned::none() }
    }

    /// `Optioned::<u32>::into_option`: the content of the slot as a plain `Option`. The stored
    /// value is never the reserved `u32::MAX`.
    #[verifier::external_body]
    pub(crate) fn get(&self) -> (content: Option<u32>)
        ensures
            content == slot_value(*self),
            content != Some(u32::MAX),
    {
        self.inner.into_option()
    }

    /// `std::mem::size_of` of an `Optioned<u32>`: the crate documents that it takes only as much
    /// space as the enclosed value.
    #[verifier::external_body]
    pub(crate) fn size_bytes() -> (bytes: usize)
        ensures
            bytes == 4,
    {
        std::mem::size_of::<Optioned<u32>>()
    }
}

} // verus!
