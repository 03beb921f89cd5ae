//! Trusted interface to `arrayvec::ArrayVec`, the capacity-bounded vector
//! that backs belt segment queues and inventory slot arrays.
//!
//! The contents of such a vector are named by the uninterpreted functions
//! [`belt_slots`] and [`inv_slots`]; every wrapper below states its effect
//! over that name, following what `arrayvec`'s source shows.

use vstd::prelude::*;
use arrayvec::ArrayVec;

verus! {

#[verifier::external_type_specification]
#[verifier::external_body]
#[verifier::reject_recursive_types(T)]
pub struct ExArrayVec<T, const CAP: usize>(ArrayVec<T, CAP>);

/// Capacity of every belt segment queue: at most this many tokens ride one
/// segment at a time.
pub const BELT_CAPACITY: usize = 3;

/// Greatest number of slots an inventory can be created with.
pub const MAX_INVENTORY_SIZE: usize = 64;

/// One occupied position of a belt queue:
/// `(token identity, item type code, progress)`.
pub type BeltSlot = (u64, u64, u64);

/// One inventory slot: empty, or `(item type code, stored count)`.
pub type InvSlot = Option<(u64, usize)>;

/// The ordered contents of a belt queue, front-most first.
pub uninterp spec fn belt_slots(q: ArrayVec<BeltSlot, 3>) -> Seq<BeltSlot>;

/// The ordered slots of an inventory.
pub uninterp spec fn inv_slots(q: ArrayVec<InvSlot, 64>) -> Seq<InvSlot>;

/// Relies on `ArrayVec::new`: creates an empty vector.
#[verifier::external_body]
pub(crate) fn belt_queue_new() -> (q: ArrayVec<BeltSlot, 3>)
    ensures
        belt_slots(q) == Seq::<BeltSlot>::empty(),
{
    ArrayVec::new()
}

/// Relies on `ArrayVec::len`: the number of stored elements.
#[verifier::external_body]
pub(crate) fn belt_queue_len(q: &ArrayVec<BeltSlot, 3>) -> (n: usize)
    ensures
        n == belt_slots(*q).len(),
{
    q.len()
}

/// Relies on the slice index through `ArrayVec`'s `Deref`: the element at `i`.
#[verifier::external_body]
pub(crate) fn belt_queue_get(q: &ArrayVec<BeltSlot, 3>, i: usize) -> (e: BeltSlot)
    requires
        i < belt_slots(*q).len(),
    ensures
        e == belt_slots(*q)[i as int],
{
    q[i]
}

/// Relies on the slice index through `ArrayVec`'s `DerefMut`: replaces the
/// element at `i`, moving nothing else.
#[verifier::external_body]
pub(crate) fn belt_queue_set(q: &mut ArrayVec<BeltSlot, 3>, i: usize, e: BeltSlot)
    requires
        i < belt_slots(*old(q)).len(),
    ensures
        belt_slots(*final(q)) == belt_slots(*old(q)).update(i as int, e),
{
    q[i] = e;
}

/// Relies on `ArrayVec::push`: appends at the back; panics only when full,
/// which the precondition rules out.
#[verifier::external_body]
pub(crate) fn belt_queue_push(q: &mut ArrayVec<BeltSlot, 3>, e: BeltSlot)
    requires
        belt_slots(*old(q)).len() < 3,
    ensures
        belt_slots(*final(q)) == belt_slots(*old(q)).push(e),
{
    q.push(e);
}

/// Relies on `ArrayVec::remove(0)`: removes the front element and shifts the
/// rest down; panics only on an empty vector, which the precondition rules out.
#[verifier::external_body]
pub(crate) fn belt_queue_pop_front(q: &mut ArrayVec<BeltSlot, 3>) -> (e: BeltSlot)
    requires
        belt_slots(*old(q)).len() > 0,
    ensures
        e == belt_slots(*old(q))[0],
        belt_slots(*final(q)) == belt_slots(*old(q)).subrange(1, belt_slots(*old(q)).len() as int),
{
    q.remove(0)
}

/// Relies on `ArrayVec::new`: creates an empty vector.
#[verifier::external_body]
pub(crate) fn inv_array_new() -> (q: ArrayVec<InvSlot, 64>)
    ensures
        inv_slots(q) == Seq::<InvSlot>::empty(),
{
    ArrayVec::new()
}

/// Relies on `ArrayVec::len`: the number of stored elements.
#[verifier::external_body]
pub(crate) fn inv_array_len(q: &ArrayVec<InvSlot, 64>) -> (n: usize)
    ensures
        n == inv_slots(*q).len(),
{
    q.len()
}

/// Relies on the slice index through `ArrayVec`'s `Deref`: the element at `i`.
#[verifier::external_body]
pub(crate) fn inv_array_get(q: &ArrayVec<InvSlot, 64>, i: usize) -> (e: InvSlot)
    requires
        i < inv_slots(*q).len(),
    ensures
        e == inv_slots(*q)[i as int],
{
    q[i]
}

/// Relies on the slice index through `ArrayVec`'s `DerefMut`: replaces the
/// element at `i`, moving nothing else.
#[verifier::external_body]
pub(crate) fn inv_array_set(q: &mut ArrayVec<InvSlot, 64>, i: usize, e: InvSlot)
    requires
        i < inv_slots(*old(q)).len(),
    ensures
        inv_slots(*final(q)) == inv_slots(*old(q)).update(i as int, e),
{
    q[i] = e;
}

/// Relies on `ArrayVec::push`: appends at the back; panics only when full,
/// which the precondition rules out.
#[verifier::external_body]
pub(crate) fn inv_array_push(q: &mut ArrayVec<InvSlot, 64>, e: InvSlot)
    requires
        inv_slots(*old(q)).len() < 64,
    ensures
        inv_slots(*final(q)) == inv_slots(*old(q)).push(e),
{
    q.push(e);
}

} // verus!
