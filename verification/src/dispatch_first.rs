//! First-capable dispatch policy: substrates are kept in registration order
//! and `first_capable` answers the first registered one, or `None` when none
//! is registered. Capability filtering is not wired in: the answer is the
//! first *registered* substrate.
use vstd::prelude::*;

verus! {

/// Outcome of a registry operation.
#[derive(Debug, Clone, Copy, PartialEq, Eq, Structural)]
pub enum DispatchResult {
    /// The operation succeeded (the ABI's `Ok`).
    Success,
    /// The operation failed (the ABI's `Err`).
    Failure,
}

/// Substrate ids in registration order.
pub struct SubstrateRegistry {
    substrates: Vec<u32>,
}

/// The substrate registered at position `index`, if there is one.
pub open spec fn substrate_at(ids: Seq<u32>, index: int) -> Option<u32> {
    if 0 <= index < ids.len() {
        Some(ids[index])
    } else {
        None
    }
}

/// The substrate a first-capable dispatch picks: the first registered one.
pub open spec fn first_registered(ids: Seq<u32>) -> Option<u32> {
    if ids.len() > 0 {
        Some(ids[0])
    } else {
        None
    }
}

impl View for SubstrateRegistry {
    type V = Seq<u32>;

    closed spec fn view(&self) -> Seq<u32> {
        self.substrates@
    }
}

impl SubstrateRegistry {
    /// An empty registry.
    pub fn new() -> (r: Self)
        ensures
            r@ == Seq::<u32>::empty(),
    {
        SubstrateRegistry { substrates: Vec::new() }
    }

    /// Append `substrate_id` after every substrate registered so far.
    pub fn register(&mut self, substrate_id: u32) -> (r: DispatchResult)
        ensures
            r == DispatchResult::Success,
            final(self)@ == old(self)@.push(substrate_id),
    {
        self.substrates.push(substrate_id);
        DispatchResult::Success
    }

    /// Number of registered substrates.
    pub fn substrate_count(&self) -> (n: usize)
        ensures
            n == self@.len(),
    {
        self.substrates.len()
    }

    /// The substrate registered at position `index` (0 is the first).
    pub fn get_substrate(&self, index: usize) -> (r: Option<u32>)
        ensures
            r == substrate_at(self@, index as int),
            r is Some <==> index < self@.len(),
            r matches Some(id) ==> id == self@[index as int],
    {
        if index < self.substrates.len() {
            Some(self.substrates[index])
        } else {
            None
        }
    }

    /// Remove every registered substrate.
    pub fn clear(&mut self)
        ensures
            final(self)@ == Seq::<u32>::empty(),
    {
        self.substrates.clear();
    }

    /// The first registered substrate, or `None` when none is registered.
    pub fn first_capable(&self) -> (r: Option<u32>)
        ensures
            r == first_registered(self@),
            r is None <==> self@.len() == 0,
            r matches Some(id) ==> id == self@[0],
    {
        if self.substrates.len() > 0 {
            Some(self.substrates[0])
        } else {
            None
        }
    }
}

impl Default for SubstrateRegistry {
    fn default() -> (r: Self)
        ensures
            r@ == Seq::<u32>::empty(),
    {
        Self::new()
    }
}

/// First-capable picks the substrate at position 0, whatever is registered.
pub proof fn lemma_first_capable_is_position_zero(ids: Seq<u32>)
    ensures
        first_registered(ids) == substrate_at(ids, 0),
{
}

/// Registering appends: the new substrate is found at the old count, and every
/// earlier position (and every position past the end) answers as before.
pub proof fn lemma_register_preserves_order(ids: Seq<u32>, id: u32, index: int)
    ensures
        substrate_at(ids.push(id), ids.len() as int) == Some(id),
        index != ids.len() ==> substrate_at(ids.push(id), index) == substrate_at(ids, index),
        ids.push(id).len() == ids.len() + 1,
{
}

/// Registering more substrates never changes which one first-capable picks,
/// except that the first registration into an empty registry becomes the pick.
pub proof fn lemma_register_keeps_first_capable(ids: Seq<u32>, id: u32)
    ensures
        first_registered(ids.push(id)) == (if ids.len() == 0 {
            Some(id)
        } else {
            first_registered(ids)
        }),
{
}

/// An empty (new or cleared) registry has no substrate at any position and no
/// first-capable pick.
pub proof fn lemma_empty_registry_answers_none(index: int)
    ensures
        first_registered(Seq::<u32>::empty()) == None::<u32>,
        substrate_at(Seq::<u32>::empty(), index) == None::<u32>,
{
}

/// Position `index` answers the id registered there, and `None` exactly when
/// no substrate was registered at that position.
pub proof fn lemma_substrate_at_reads_the_sequence(ids: Seq<u32>, index: int)
    ensures
        substrate_at(ids, index) is Some <==> 0 <= index < ids.len(),
        substrate_at(ids, index) matches Some(id) ==> id == ids[index],
{
}

/// First-capable answers `None` exactly when nothing is registered, and
/// otherwise the id registered first.
pub proof fn lemma_first_registered_reads_the_sequence(ids: Seq<u32>)
    ensures
        first_registered(ids) is None <==> ids.len() == 0,
        first_registered(ids) matches Some(id) ==> id == ids[0],
{
}

} // verus!
