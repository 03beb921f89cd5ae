//! Belt segments: capacity-bounded queues of item tokens with fixed-point
//! progress, non-overtaking advancement, and ordered placement.

use vstd::prelude::*;
use vstd::math::{max, min};
use arrayvec::ArrayVec;
use crate::map::{BuildingTileType, TilePos};
use crate::queue::{
    belt_queue_get, belt_queue_len, belt_queue_new, belt_queue_pop_front, belt_queue_push,
    belt_queue_set, belt_slots, BeltSlot, BELT_CAPACITY,
};

verus! {

/// A token's progress along its segment runs from `0` (entry) to this value
/// (exit); it stands for the real interval from zero to one.
pub const PROGRESS_SCALE: u64 = 300;

/// Minimum spacing between two occupied slots of one segment, derived from
/// the segment capacity: one third of a segment.
pub const ITEM_SIZE: u64 = PROGRESS_SCALE / 3;

/// Entry offset applied when a token turns onto a perpendicular segment:
/// half a segment.
pub const HALF_ENTRY_OFFSET: u64 = PROGRESS_SCALE / 2;

/// Largest time step the simulation accepts in one tick, in progress units.
/// Any longer real-time interval behaves identically, because a token's
/// progress saturates at the segment exit.
pub const MAX_TICK: u64 = 2 * PROGRESS_SCALE;

/// The kind of item a token carries.
#[derive(Clone, Copy, PartialEq, Eq, Structural, Debug)]
pub enum ItemType {
    Coal,
}

impl ItemType {
    /// The numeric code a belt slot stores for this item type.
    pub open spec fn spec_code(self) -> u64 {
        match self {
            ItemType::Coal => 0,
        }
    }

    pub fn code(&self) -> (c: u64)
        ensures
            c == self.spec_code(),
    {
        match self {
            ItemType::Coal => 0,
        }
    }

    /// The item type stored under a numeric code, if any.
    pub open spec fn spec_from_code(c: u64) -> Option<ItemType> {
        if c == 0 {
            Some(ItemType::Coal)
        } else {
            None
        }
    }

    pub fn from_code(c: u64) -> (r: Option<ItemType>)
        ensures
            r == ItemType::spec_from_code(c),
    {
        if c == 0 {
            Some(ItemType::Coal)
        } else {
            None
        }
    }
}

/// A movable item token: an identity and an item type. A token belongs to
/// exactly one belt segment at a time; it is created by a producer and
/// destroyed when an inventory consumes it or its segment is demolished.
#[derive(Clone, Copy, PartialEq, Eq, Structural, Debug)]
pub struct Item {
    pub id: u64,
    pub item_type: ItemType,
}

impl Item {
    /// The belt slot this token occupies when placed at `pos`.
    pub open spec fn spec_slot(self, pos: u64) -> BeltSlot {
        (self.id, self.item_type.spec_code(), pos)
    }
}

/// Whether a queue with contents `q` accepts a token at progress `pos`: a
/// slot is free and the candidate keeps the minimum spacing behind the
/// current last occupant.
pub open spec fn queue_accepts(q: Seq<BeltSlot>, pos: u64) -> bool {
    &&& q.len() < BELT_CAPACITY
    &&& (q.len() == 0 || pos + ITEM_SIZE <= q.last().2)
}

/// The progress ceiling imposed on a token by the token ahead of it at
/// progress `prev`: one item size behind it, but never below zero.
pub open spec fn cap_behind(prev: int) -> int {
    max(prev - ITEM_SIZE, 0)
}

/// The progress of slot `i` after every token of `s` advanced by `dt`,
/// front to back: each moves `dt` forward, clamped so that the front stays
/// within the segment and every follower keeps at least [`ITEM_SIZE`]
/// behind the (already advanced) token ahead.
pub open spec fn advanced_progress(s: Seq<BeltSlot>, dt: u64, i: int) -> int
    decreases i,
{
    if i <= 0 {
        min(s[0].2 + dt, PROGRESS_SCALE as int)
    } else {
        min(s[i].2 + dt, cap_behind(advanced_progress(s, dt, i - 1)))
    }
}

/// The whole queue after every token advanced by `dt`: identities and item
/// types stay put, each progress moves per [`advanced_progress`].
pub open spec fn advanced_queue(q: Seq<BeltSlot>, dt: u64) -> Seq<BeltSlot> {
    Seq::new(q.len(), |i: int| (q[i].0, q[i].1, advanced_progress(q, dt, i) as u64))
}

/// A single-tile conveyor segment: an ordered, capacity-bounded queue of
/// `(token identity, item type code, progress)` slots, front-most first.
pub struct Belt {
    items: ArrayVec<BeltSlot, 3>,
}

impl View for Belt {
    type V = Seq<BeltSlot>;

    closed spec fn view(&self) -> Seq<BeltSlot> {
        belt_slots(self.items)
    }
}

impl Belt {
    /// Well-formedness: at most [`BELT_CAPACITY`] occupants; every progress
    /// within the segment; occupants ordered front-to-back by strictly
    /// decreasing progress, each at least [`ITEM_SIZE`] apart.
    pub open spec fn wf(self) -> bool {
        &&& self@.len() <= BELT_CAPACITY
        &&& forall|i: int| 0 <= i < self@.len() ==> (#[trigger] self@[i]).2 <= PROGRESS_SCALE
        &&& forall|i: int|
            0 < i < self@.len() ==> (#[trigger] self@[i]).2 + ITEM_SIZE <= self@[i - 1].2
    }

    /// Whether a token at progress `pos` may enter: a slot is free and the
    /// candidate keeps the minimum spacing behind the current last occupant.
    pub open spec fn spec_accepts(self, pos: u64) -> bool {
        queue_accepts(self@, pos)
    }

    /// An empty belt segment.
    pub fn new() -> (b: Belt)
        ensures
            b@ == Seq::<BeltSlot>::empty(),
            b.wf(),
    {
        let b = Belt { items: belt_queue_new() };
        proof {
            assert(b@.len() == 0);
        }
        b
    }

    /// The number of tokens riding this segment.
    pub fn len(&self) -> (n: usize)
        ensures
            n == self@.len(),
    {
        belt_queue_len(&self.items)
    }

    /// The slot at queue position `i` (position `0` is the front).
    pub fn get(&self, i: usize) -> (s: BeltSlot)
        requires
            i < self@.len(),
        ensures
            s == self@[i as int],
    {
        belt_queue_get(&self.items, i)
    }

    /// The front-most slot, if the segment is occupied.
    pub fn front(&self) -> (r: Option<BeltSlot>)
        ensures
            r == (if self@.len() == 0 {
                Option::<BeltSlot>::None
            } else {
                Some(self@[0])
            }),
    {
        let n = belt_queue_len(&self.items);
        if n == 0 {
            None
        } else {
            Some(belt_queue_get(&self.items, 0))
        }
    }

    /// Report whether a token at progress `pos` could enter right now,
    /// without touching the segment.
    pub fn accepts(&self, pos: u64) -> (r: bool)
        requires
            self.wf(),
            pos <= PROGRESS_SCALE,
        ensures
            r == self.spec_accepts(pos),
    {
        let n = belt_queue_len(&self.items);
        if n >= BELT_CAPACITY {
            false
        } else if n == 0 {
            true
        } else {
            let last = belt_queue_get(&self.items, n - 1);
            pos + ITEM_SIZE <= last.2
        }
    }

    /// Place `item` onto this segment at progress `pos`.
    ///
    /// Succeeds exactly when the segment accepts a token at `pos`; on
    /// success the token joins the back of the queue, on failure — in
    /// particular on a full segment — the segment is left untouched.
    pub fn place(&mut self, pos: u64, item: Item) -> (ok: bool)
        requires
            old(self).wf(),
            pos <= PROGRESS_SCALE,
        ensures
            final(self).wf(),
            ok == old(self).spec_accepts(pos),
            ok ==> final(self)@ == old(self)@.push(item.spec_slot(pos)),
            !ok ==> final(self)@ == old(self)@,
    {
        self.place_new(pos, item)
    }

    /// Place a freshly created token onto this segment at progress `pos`;
    /// the caller commits the token's identity only when placement succeeds.
    pub fn place_new(&mut self, pos: u64, item: Item) -> (ok: bool)
        requires
            old(self).wf(),
            pos <= PROGRESS_SCALE,
        ensures
            final(self).wf(),
            ok == old(self).spec_accepts(pos),
            ok ==> final(self)@ == old(self)@.push(item.spec_slot(pos)),
            !ok ==> final(self)@ == old(self)@,
    {
        self.receive(item.id, item.item_type.code(), pos)
    }

    /// Accept the raw slot data of an in-flight token at progress `pos`:
    /// the placement step of a hand-off between two segments.
    pub fn receive(&mut self, id: u64, code: u64, pos: u64) -> (ok: bool)
        requires
            old(self).wf(),
            pos <= PROGRESS_SCALE,
        ensures
            final(self).wf(),
            ok == old(self).spec_accepts(pos),
            ok ==> final(self)@ == old(self)@.push((id, code, pos)),
            !ok ==> final(self)@ == old(self)@,
    {
        let n = belt_queue_len(&self.items);
        let accepts = if n >= BELT_CAPACITY {
            false
        } else if n == 0 {
            true
        } else {
            let last = belt_queue_get(&self.items, n - 1);
            pos + ITEM_SIZE <= last.2
        };
        if accepts {
            belt_queue_push(&mut self.items, (id, code, pos));
        }
        accepts
    }

    /// Remove and return the front-most slot, shifting the rest forward in
    /// queue order.
    pub fn pop_front(&mut self) -> (s: BeltSlot)
        requires
            old(self).wf(),
            old(self)@.len() > 0,
        ensures
            final(self).wf(),
            s == old(self)@[0],
            final(self)@ == old(self)@.drop_first(),
    {
        let s = belt_queue_pop_front(&mut self.items);
        proof {
            assert(final(self)@ =~= old(self)@.drop_first());
        }
        s
    }

    /// Advance every token by `dt`, front to back: progress increases by
    /// `dt` but is clamped so that the front token never passes the segment
    /// exit and no token comes within [`ITEM_SIZE`] of the one ahead.
    pub fn advance(&mut self, dt: u64)
        requires
            old(self).wf(),
            dt <= MAX_TICK,
        ensures
            final(self).wf(),
            final(self)@ == advanced_queue(old(self)@, dt),
            final(self)@.len() == old(self)@.len(),
            forall|i: int|
                0 <= i < old(self)@.len() ==> #[trigger] final(self)@[i] == (
                old(self)@[i].0,
                old(self)@[i].1,
                advanced_progress(old(self)@, dt, i) as u64,
            ),
    {
        let ghost orig: Seq<BeltSlot> = self@;
        let n = belt_queue_len(&self.items);
        let mut i: usize = 0;
        let mut cap: u64 = PROGRESS_SCALE;
        while i < n
            invariant
                n == orig.len(),
                orig.len() <= BELT_CAPACITY,
                i <= n,
                self@.len() == orig.len(),
                forall|j: int| 0 <= j < orig.len() ==> (#[trigger] orig[j]).2 <= PROGRESS_SCALE,
                forall|j: int| 0 < j < orig.len() ==> (#[trigger] orig[j]).2 + ITEM_SIZE <= orig[j - 1].2,
                forall|j: int| i <= j < orig.len() ==> #[trigger] self@[j] == orig[j],
                forall|j: int|
                    0 <= j < i ==> #[trigger] self@[j] == (
                    orig[j].0,
                    orig[j].1,
                    advanced_progress(orig, dt, j) as u64,
                ),
                forall|j: int| 0 <= j < i ==> (#[trigger] self@[j]).2 >= orig[j].2,
                forall|j: int| 0 <= j < i ==> (#[trigger] self@[j]).2 <= PROGRESS_SCALE,
                forall|j: int|
                    0 < j < i ==> (#[trigger] self@[j]).2 + ITEM_SIZE <= self@[j - 1].2,
                i == 0 ==> cap == PROGRESS_SCALE,
                i > 0 ==> cap == cap_behind(advanced_progress(orig, dt, i - 1)),
                cap <= PROGRESS_SCALE,
                dt <= MAX_TICK,
            decreases n - i,
        {
            let slot = belt_queue_get(&self.items, i);
            assert(slot == orig[i as int]);
            let p = slot.2 + dt;
            let np = if p > cap {
                cap
            } else {
                p
            };
            proof {
                assert(np == advanced_progress(orig, dt, i as int));
                if i > 0 {
                    // The token ahead never moves backwards, so its gap
                    // ceiling stays at least one item size above this one.
                    assert(self@[i - 1].2 >= orig[i - 1].2);
                    assert(orig[i as int].2 + ITEM_SIZE <= orig[i - 1].2);
                    assert(self@[i - 1].2 >= ITEM_SIZE);
                    assert(cap == cap_behind(self@[i - 1].2 as int));
                    assert(np + ITEM_SIZE <= self@[i - 1].2);
                }
            }
            belt_queue_set(&mut self.items, i, (slot.0, slot.1, np));
            cap = if np >= ITEM_SIZE {
                np - ITEM_SIZE
            } else {
                0
            };
            i += 1;
        }
        proof {
            assert(self@ =~= advanced_queue(orig, dt));
        }
    }
}

/// Law: on a well-formed belt segment the occupied slots are ordered
/// front-to-back by strictly decreasing progress, any two of them at least
/// one item size apart — not only adjacent ones.
pub proof fn lemma_belt_slot_ordering(b: Belt, i: int, j: int)
    requires
        b.wf(),
        0 <= i < j < b@.len(),
    ensures
        b@[j].2 + ITEM_SIZE <= b@[i].2,
        b@[j].2 < b@[i].2,
    decreases j - i,
{
    if j > i + 1 {
        lemma_belt_slot_ordering(b, i, j - 1);
    }
}

/// Law: every token of a well-formed belt segment has its progress within
/// the segment, from entry to exit.
pub proof fn lemma_belt_progress_in_range(b: Belt, i: int)
    requires
        b.wf(),
        0 <= i < b@.len(),
    ensures
        0 <= b@[i].2 <= PROGRESS_SCALE,
{
}

/// The belt tile type that would carry a token from tile `from` to the
/// adjacent tile `to`, if the two are orthogonal neighbors.
pub open spec fn spec_belt_dir_between(from: TilePos, to: TilePos) -> Option<BuildingTileType> {
    if from.x > 0 && to.x == from.x - 1 && to.y == from.y {
        Some(BuildingTileType::BeltRight)
    } else if to.x == from.x + 1 && to.y == from.y {
        Some(BuildingTileType::BeltLeft)
    } else if from.y > 0 && to.x == from.x && to.y == from.y - 1 {
        Some(BuildingTileType::BeltUp)
    } else if to.x == from.x && to.y == from.y + 1 {
        Some(BuildingTileType::BeltDown)
    } else {
        None
    }
}

/// The belt tile type pointing from the previously laid tile `to` toward
/// the newly requested tile `from` (used while dragging a run of belts).
pub fn belt_dir_between(from: TilePos, to: TilePos) -> (r: Option<BuildingTileType>)
    ensures
        r == spec_belt_dir_between(from, to),
{
    if from.x > 0 && to.x == from.x - 1 && to.y == from.y {
        Some(BuildingTileType::BeltRight)
    } else if to.x > from.x && to.x - 1 == from.x && to.y == from.y {
        Some(BuildingTileType::BeltLeft)
    } else if from.y > 0 && to.x == from.x && to.y == from.y - 1 {
        Some(BuildingTileType::BeltUp)
    } else if to.x == from.x && to.y > from.y && to.y - 1 == from.y {
        Some(BuildingTileType::BeltDown)
    } else {
        None
    }
}

} // verus!
