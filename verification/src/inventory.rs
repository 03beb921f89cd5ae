//! Inventories: fixed arrays of optional `(item type, count)` stacks that
//! consume tokens from saturated belt fronts.

use vstd::prelude::*;
use arrayvec::ArrayVec;
use crate::queue::{
    inv_array_get, inv_array_len, inv_array_new, inv_array_push, inv_array_set, inv_slots, InvSlot,
    MAX_INVENTORY_SIZE,
};

verus! {

/// Greatest count one inventory slot stacks of a single item type.
pub const STACK_SIZE: usize = 5;

/// Whether a slot already stacking `code` can take `amount` more units
/// without passing [`STACK_SIZE`].
pub open spec fn slot_fits(s: InvSlot, code: u64, amount: usize) -> bool {
    s matches Some((c, n)) && c == code && n + amount <= STACK_SIZE
}

/// The first index at or after `i` whose slot fits `amount` units of
/// `code`; `slots.len()` when none does.
pub open spec fn first_fit_from(slots: Seq<InvSlot>, code: u64, amount: usize, i: int) -> int
    decreases slots.len() - i,
{
    if i < 0 || i >= slots.len() {
        slots.len() as int
    } else if slot_fits(slots[i], code, amount) {
        i
    } else {
        first_fit_from(slots, code, amount, i + 1)
    }
}

/// The first empty slot index at or after `i`; `slots.len()` when none is.
pub open spec fn first_empty_from(slots: Seq<InvSlot>, i: int) -> int
    decreases slots.len() - i,
{
    if i < 0 || i >= slots.len() {
        slots.len() as int
    } else if slots[i] is None {
        i
    } else {
        first_empty_from(slots, i + 1)
    }
}

/// The slot an insertion of `amount` units of `code` writes to: the first
/// slot stacking the same type with room, else the first empty slot — an
/// empty slot too takes at most [`STACK_SIZE`] units — else none (the
/// insertion fails).
pub open spec fn insert_target(slots: Seq<InvSlot>, code: u64, amount: usize) -> Option<int> {
    let fit = first_fit_from(slots, code, amount, 0);
    let empty = first_empty_from(slots, 0);
    if fit < slots.len() {
        Some(fit)
    } else if amount <= STACK_SIZE && empty < slots.len() {
        Some(empty)
    } else {
        None
    }
}

/// The value the target slot holds after the insertion.
pub open spec fn inserted_slot(s: InvSlot, code: u64, amount: usize) -> InvSlot {
    match s {
        Some((_, n)) => Some((code, (n + amount) as usize)),
        None => Some((code, amount)),
    }
}

/// A capacity-limited stack store: a fixed array of optional
/// `(item type code, count)` slots. A full inventory simply rejects
/// further insertion; nothing is ever evicted.
pub struct Inventory {
    slots: ArrayVec<InvSlot, 64>,
}

impl View for Inventory {
    type V = Seq<InvSlot>;

    closed spec fn view(&self) -> Seq<InvSlot> {
        inv_slots(self.slots)
    }
}

impl Inventory {
    /// Well-formedness: no more slots than the array's capacity.
    pub open spec fn wf(self) -> bool {
        self@.len() <= MAX_INVENTORY_SIZE
    }

    /// An inventory of `n` empty slots.
    pub fn new(n: usize) -> (inv: Inventory)
        requires
            n <= MAX_INVENTORY_SIZE,
        ensures
            inv.wf(),
            inv@.len() == n,
            forall|i: int| 0 <= i < n ==> (#[trigger] inv@[i]) is None,
    {
        let mut slots = inv_array_new();
        let mut i: usize = 0;
        while i < n
            invariant
                i <= n,
                n <= MAX_INVENTORY_SIZE,
                inv_slots(slots).len() == i,
                forall|j: int| 0 <= j < i ==> (#[trigger] inv_slots(slots)[j]) is None,
            decreases n - i,
        {
            inv_array_push(&mut slots, None);
            i += 1;
        }
        Inventory { slots }
    }

    /// The number of slots.
    pub fn num_slots(&self) -> (n: usize)
        ensures
            n == self@.len(),
    {
        inv_array_len(&self.slots)
    }

    /// The slot at index `i`.
    pub fn slot(&self, i: usize) -> (s: InvSlot)
        requires
            i < self@.len(),
        ensures
            s == self@[i as int],
    {
        inv_array_get(&self.slots, i)
    }

    /// Insert `amount` units of `item_type`.
    ///
    /// Scans for the first slot stacking the same type with room for
    /// `amount` more (staying within [`STACK_SIZE`]), else takes the first
    /// empty slot, which holds at most a full stack too; fails, mutating
    /// nothing, when neither eligible slot exists.
    pub fn insert(&mut self, amount: usize, item_type: crate::belts::ItemType) -> (ok: bool)
        ensures
            final(self).wf() == old(self).wf(),
            final(self)@.len() == old(self)@.len(),
            ok == (insert_target(old(self)@, item_type.spec_code(), amount) is Some),
            insert_target(old(self)@, item_type.spec_code(), amount) matches Some(t)
                ==> final(self)@ == old(self)@.update(
                t,
                inserted_slot(old(self)@[t], item_type.spec_code(), amount),
            ),
            insert_target(old(self)@, item_type.spec_code(), amount) is None ==> final(self)@
                == old(self)@,
    {
        let code = item_type.code();
        let n = inv_array_len(&self.slots);
        let ghost slots0 = self@;

        // First pass: a slot already stacking this type with room.
        let mut i: usize = 0;
        while i < n
            invariant
                i <= n,
                n == slots0.len(),
                self@ == slots0,
                slots0 == old(self)@,
                code == item_type.spec_code(),
                first_fit_from(slots0, code, amount, i as int) == first_fit_from(
                    slots0,
                    code,
                    amount,
                    0,
                ),
            decreases n - i,
        {
            let s = inv_array_get(&self.slots, i);
            match s {
                Some((c, cnt)) => {
                    if c == code && amount <= STACK_SIZE && cnt <= STACK_SIZE - amount {
                        proof {
                            assert(slot_fits(slots0[i as int], code, amount));
                            assert(first_fit_from(slots0, code, amount, 0) == i as int);
                        }
                        inv_array_set(&mut self.slots, i, Some((code, cnt + amount)));
                        return true;
                    }
                },
                None => {},
            }
            proof {
                assert(!slot_fits(slots0[i as int], code, amount));
            }
            i += 1;
        }
        proof {
            assert(first_fit_from(slots0, code, amount, 0) == slots0.len());
        }

        // Second pass: the first empty slot, if a full stack can hold `amount`.
        if amount > STACK_SIZE {
            return false;
        }
        let mut j: usize = 0;
        while j < n
            invariant
                j <= n,
                n == slots0.len(),
                self@ == slots0,
                slots0 == old(self)@,
                code == item_type.spec_code(),
                amount <= STACK_SIZE,
                first_empty_from(slots0, j as int) == first_empty_from(slots0, 0),
                first_fit_from(slots0, code, amount, 0) == slots0.len(),
            decreases n - j,
        {
            let s = inv_array_get(&self.slots, j);
            if s.is_none() {
                proof {
                    assert(first_empty_from(slots0, 0) == j as int);
                }
                inv_array_set(&mut self.slots, j, Some((code, amount)));
                return true;
            }
            j += 1;
        }
        proof {
            assert(first_empty_from(slots0, 0) == slots0.len());
        }
        false
    }
}

/// Marks a structure tile as feeding an inventory: tokens that stall at a
/// belt front adjacent to it are drained into that inventory.
#[derive(Clone, Copy, PartialEq, Eq, Structural, Debug)]
pub struct BeltInput {
    /// Index of the fed inventory in the world's inventory arena.
    pub inventory: usize,
}

} // verus!
