//! The simulation world: a position-indexed tile registry, arenas of belt
//! segments, miners, inventories and buildings with stable indices, and the
//! per-tick passes that move, produce and consume tokens.
//!
//! Token accounting is part of the world's well-formedness: every token a
//! producer ever created is either still riding a belt, was consumed by an
//! inventory, or was despawned when its segment was demolished. Demolishing
//! a segment destroys the tokens it holds — that is this crate's documented
//! disposal policy.

use vstd::prelude::*;
use vstd::math::min;
use crate::belts::{advanced_queue, queue_accepts, spec_belt_dir_between, Belt, ItemType, MAX_TICK, PROGRESS_SCALE};
use crate::buildings::{
    spec_translated, spec_translation_fits, Building, BuildingLayout, BuildingTemplate,
    BuildingType, BuildRequestedEvent, DemolishEvent, FootprintTile, PlacementRejected,
};
use crate::inventory::{insert_target, inserted_slot, BeltInput, Inventory};
use crate::map::{BuildingTileType, TilePos};
use crate::mine::{output_positions, spec_output_positions, Mine, MINE_OUTPUT_PROGRESS};
use crate::queue::{BeltSlot, InvSlot};

verus! {

/// One occupied cell of the tile registry: the structure tile standing
/// there and its links into the world's arenas.
#[derive(Clone, Copy)]
pub struct TileEntry {
    /// The cell's position; unique across the registry.
    pub pos: TilePos,
    /// The structure tile occupying the cell.
    pub tile: BuildingTileType,
    /// The building this tile belongs to, if any.
    pub building: Option<usize>,
    /// The belt segment transported by this tile, if it is a belt tile.
    pub belt: Option<usize>,
    /// The inventory this tile feeds tokens into, if any.
    pub belt_input: Option<BeltInput>,
    /// The miner working from this tile, if any.
    pub miner: Option<usize>,
}

/// The number of tokens held by one belt arena slot.
pub open spec fn slot_count(b: Option<Belt>) -> int {
    match b {
        Some(belt) => belt@.len() as int,
        None => 0,
    }
}

/// The number of tokens riding the first `n` belt arena slots.
pub open spec fn tokens_in(belts: Seq<Option<Belt>>, n: int) -> int
    decreases n,
{
    if n <= 0 {
        0
    } else {
        tokens_in(belts, n - 1) + slot_count(belts[n - 1])
    }
}

/// The number of tokens riding any belt of the arena.
pub open spec fn total_tokens(belts: Seq<Option<Belt>>) -> int {
    tokens_in(belts, belts.len() as int)
}

pub proof fn lemma_tokens_in_nonneg(belts: Seq<Option<Belt>>, n: int)
    ensures
        tokens_in(belts, n) >= 0,
    decreases n,
{
    if n > 0 {
        lemma_tokens_in_nonneg(belts, n - 1);
    }
}

/// Counting is insensitive to anything past the counted prefix.
pub proof fn lemma_tokens_in_agree(b1: Seq<Option<Belt>>, b2: Seq<Option<Belt>>, n: int)
    requires
        forall|j: int| 0 <= j < n ==> b1[j] == b2[j],
    ensures
        tokens_in(b1, n) == tokens_in(b2, n),
    decreases n,
{
    if n > 0 {
        lemma_tokens_in_agree(b1, b2, n - 1);
    }
}

/// Replacing one arena slot shifts the count by the difference of the two
/// slots' token counts.
pub proof fn lemma_tokens_in_update(belts: Seq<Option<Belt>>, i: int, e: Option<Belt>, n: int)
    requires
        0 <= i < belts.len(),
        n <= belts.len(),
    ensures
        tokens_in(belts.update(i, e), n) == tokens_in(belts, n) + (if i < n {
            slot_count(e) - slot_count(belts[i])
        } else {
            0
        }),
    decreases n,
{
    if n > 0 {
        lemma_tokens_in_update(belts, i, e, n - 1);
    }
}

pub proof fn lemma_total_update(belts: Seq<Option<Belt>>, i: int, e: Option<Belt>)
    requires
        0 <= i < belts.len(),
    ensures
        total_tokens(belts.update(i, e)) == total_tokens(belts) + slot_count(e) - slot_count(
            belts[i],
        ),
{
    lemma_tokens_in_update(belts, i, e, belts.len() as int);
}

/// No single live belt holds more tokens than the whole arena.
pub proof fn lemma_total_lower_bound(belts: Seq<Option<Belt>>, i: int)
    requires
        0 <= i < belts.len(),
    ensures
        total_tokens(belts) >= slot_count(belts[i]),
    decreases belts.len(),
{
    lemma_tokens_in_nonneg(belts, i);
    lemma_tokens_in_suffix(belts, i + 1, belts.len() as int);
    lemma_tokens_in_step(belts, i + 1);
}

/// Counting a longer prefix never counts fewer tokens.
pub proof fn lemma_tokens_in_suffix(belts: Seq<Option<Belt>>, lo: int, hi: int)
    requires
        0 <= lo <= hi,
    ensures
        tokens_in(belts, hi) >= tokens_in(belts, lo),
    decreases hi - lo,
{
    if lo < hi {
        lemma_tokens_in_suffix(belts, lo, hi - 1);
        lemma_tokens_in_step(belts, hi);
        lemma_slot_count_nonneg(belts[hi - 1]);
    }
}

pub proof fn lemma_tokens_in_step(belts: Seq<Option<Belt>>, n: int)
    requires
        n > 0,
    ensures
        tokens_in(belts, n) == tokens_in(belts, n - 1) + slot_count(belts[n - 1]),
{
}

pub proof fn lemma_slot_count_nonneg(b: Option<Belt>)
    ensures
        slot_count(b) >= 0,
{
}

/// Appending an arena slot adds its token count.
pub proof fn lemma_total_push(belts: Seq<Option<Belt>>, e: Option<Belt>)
    ensures
        total_tokens(belts.push(e)) == total_tokens(belts) + slot_count(e),
{
    let pushed = belts.push(e);
    lemma_tokens_in_step(pushed, pushed.len() as int);
    lemma_tokens_in_agree(pushed, belts, belts.len() as int);
}

/// Whether no two registry entries claim the same position.
pub open spec fn positions_unique(grid: Seq<TileEntry>) -> bool {
    forall|i: int, j: int|
        0 <= i < j < grid.len() ==> (#[trigger] grid[i]).pos != (#[trigger] grid[j]).pos
}

/// Whether one registry entry's arena links point at live arena slots.
pub open spec fn entry_refs_wf(
    e: TileEntry,
    belts: Seq<Option<Belt>>,
    inventories: Seq<Option<Inventory>>,
    miners: Seq<Option<Mine>>,
    buildings: Seq<Option<Building>>,
) -> bool {
    &&& (e.belt matches Some(b) ==> 0 <= b < belts.len() && belts[b as int] is Some)
    &&& (e.belt_input matches Some(bi) ==> 0 <= bi.inventory < inventories.len()
        && inventories[bi.inventory as int] is Some)
    &&& (e.miner matches Some(m) ==> 0 <= m < miners.len() && miners[m as int] is Some)
    &&& (e.building matches Some(k) ==> 0 <= k < buildings.len() && buildings[k as int] is Some)
}

/// Whether every registry entry's links are live.
pub open spec fn grid_refs_wf(
    grid: Seq<TileEntry>,
    belts: Seq<Option<Belt>>,
    inventories: Seq<Option<Inventory>>,
    miners: Seq<Option<Mine>>,
    buildings: Seq<Option<Building>>,
) -> bool {
    forall|i: int|
        0 <= i < grid.len() ==> entry_refs_wf(#[trigger] grid[i], belts, inventories, miners, buildings)
}

/// Whether no two registry entries claim the same belt segment: a segment
/// has exactly one owning tile, so it can never be its own neighbor.
pub open spec fn belts_injective(grid: Seq<TileEntry>) -> bool {
    forall|i: int, j: int|
        0 <= i < j < grid.len() && (#[trigger] grid[i]).belt is Some && (#[trigger] grid[j]).belt
            is Some ==> grid[i].belt != grid[j].belt
}

/// Whether no two registry entries claim the same inventory.
pub open spec fn inventories_injective(grid: Seq<TileEntry>) -> bool {
    forall|i: int, j: int|
        0 <= i < j < grid.len() && (#[trigger] grid[i]).belt_input is Some && (#[trigger] grid[j]).belt_input
            is Some ==> grid[i].belt_input != grid[j].belt_input
}

/// Whether no two registry entries claim the same miner.
pub open spec fn miners_injective(grid: Seq<TileEntry>) -> bool {
    forall|i: int, j: int|
        0 <= i < j < grid.len() && (#[trigger] grid[i]).miner is Some && (#[trigger] grid[j]).miner
            is Some ==> grid[i].miner != grid[j].miner
}

/// Whether every live belt is well-formed.
pub open spec fn live_belts_wf(belts: Seq<Option<Belt>>) -> bool {
    forall|i: int| 0 <= i < belts.len() ==> ((#[trigger] belts[i]) matches Some(b) ==> b.wf())
}

/// Whether every live inventory is well-formed.
pub open spec fn live_inventories_wf(inventories: Seq<Option<Inventory>>) -> bool {
    forall|i: int|
        0 <= i < inventories.len() ==> ((#[trigger] inventories[i]) matches Some(v) ==> v.wf())
}

/// Whether every live miner is well-formed.
pub open spec fn live_miners_wf(miners: Seq<Option<Mine>>) -> bool {
    forall|i: int| 0 <= i < miners.len() ==> ((#[trigger] miners[i]) matches Some(m) ==> m.wf())
}

/// The index of the registry entry at `pos`, scanning from `i`;
/// `grid.len()` when there is none.
pub open spec fn find_entry_from(grid: Seq<TileEntry>, pos: TilePos, i: int) -> int
    decreases grid.len() - i,
{
    if i < 0 || i >= grid.len() {
        grid.len() as int
    } else if grid[i].pos == pos {
        i
    } else {
        find_entry_from(grid, pos, i + 1)
    }
}

/// The index of the registry entry at `pos`, or `grid.len()` if the cell
/// is empty.
pub open spec fn spec_find_entry(grid: Seq<TileEntry>, pos: TilePos) -> int {
    find_entry_from(grid, pos, 0)
}

/// A scan result never runs past the registry's end.
pub proof fn lemma_find_entry_bound(grid: Seq<TileEntry>, pos: TilePos, i: int)
    ensures
        find_entry_from(grid, pos, i) <= grid.len(),
    decreases grid.len() - i,
{
    if 0 <= i < grid.len() && grid[i].pos != pos {
        lemma_find_entry_bound(grid, pos, i + 1);
    }
}

/// An empty cell holds no entry anywhere in the registry.
pub proof fn lemma_find_entry_none(grid: Seq<TileEntry>, pos: TilePos, i: int)
    requires
        0 <= i,
        find_entry_from(grid, pos, i) == grid.len(),
    ensures
        forall|j: int| i <= j < grid.len() ==> (#[trigger] grid[j]).pos != pos,
    decreases grid.len() - i,
{
    if i < grid.len() {
        lemma_find_entry_none(grid, pos, i + 1);
    }
}

/// A found entry index is in range and carries the position.
pub proof fn lemma_find_entry_some(grid: Seq<TileEntry>, pos: TilePos, i: int)
    requires
        0 <= i,
        find_entry_from(grid, pos, i) < grid.len(),
    ensures
        i <= find_entry_from(grid, pos, i) < grid.len(),
        grid[find_entry_from(grid, pos, i)].pos == pos,
    decreases grid.len() - i,
{
    if i < grid.len() && grid[i].pos != pos {
        lemma_find_entry_some(grid, pos, i + 1);
    }
}

/// Replace the element of `v` at `i`, returning the previous one. The two
/// calls of this helper that bracket a mutation give split access to one
/// arena slot without aliasing.
pub fn vec_replace<T>(v: &mut Vec<T>, i: usize, val: T) -> (prev: T)
    requires
        i < old(v).len(),
    ensures
        prev == old(v)@[i as int],
        final(v)@ == old(v)@.update(i as int, val),
{
    let prev = v.remove(i);
    v.insert(i, val);
    proof {
        assert(final(v)@ =~= old(v)@.update(i as int, val));
    }
    prev
}

/// Registry links stay live when the arenas change without killing any
/// live slot.
proof fn lemma_refs_preserved(
    grid: Seq<TileEntry>,
    b0: Seq<Option<Belt>>,
    b1: Seq<Option<Belt>>,
    v0: Seq<Option<Inventory>>,
    v1: Seq<Option<Inventory>>,
    m0: Seq<Option<Mine>>,
    m1: Seq<Option<Mine>>,
    k0: Seq<Option<Building>>,
    k1: Seq<Option<Building>>,
)
    requires
        grid_refs_wf(grid, b0, v0, m0, k0),
        b1.len() == b0.len(),
        forall|j: int| 0 <= j < b0.len() ==> ((#[trigger] b0[j]) is Some ==> b1[j] is Some),
        v1.len() == v0.len(),
        forall|j: int| 0 <= j < v0.len() ==> ((#[trigger] v0[j]) is Some ==> v1[j] is Some),
        m1.len() == m0.len(),
        forall|j: int| 0 <= j < m0.len() ==> ((#[trigger] m0[j]) is Some ==> m1[j] is Some),
        k1.len() == k0.len(),
        forall|j: int| 0 <= j < k0.len() ==> ((#[trigger] k0[j]) is Some ==> k1[j] is Some),
    ensures
        grid_refs_wf(grid, b1, v1, m1, k1),
{
    assert forall|i: int|
        0 <= i < grid.len() implies entry_refs_wf(#[trigger] grid[i], b1, v1, m1, k1) by {
        assert(entry_refs_wf(grid[i], b0, v0, m0, k0));
    }
}

/// Registry links stay live when the building arena only grows or keeps
/// its live slots.
proof fn lemma_refs_preserved_buildings(
    grid: Seq<TileEntry>,
    belts: Seq<Option<Belt>>,
    invs: Seq<Option<Inventory>>,
    miners: Seq<Option<Mine>>,
    k0: Seq<Option<Building>>,
    k1: Seq<Option<Building>>,
)
    requires
        grid_refs_wf(grid, belts, invs, miners, k0),
        k1.len() >= k0.len(),
        forall|j: int| 0 <= j < k0.len() ==> ((#[trigger] k0[j]) is Some ==> k1[j] is Some),
    ensures
        grid_refs_wf(grid, belts, invs, miners, k1),
{
    assert forall|i: int|
        0 <= i < grid.len() implies entry_refs_wf(#[trigger] grid[i], belts, invs, miners, k1) by {
        assert(entry_refs_wf(grid[i], belts, invs, miners, k0));
    }
}

/// Remove and return the front slot of the belt in arena slot `b`.
fn pop_front_at(belts: &mut Vec<Option<Belt>>, b: usize) -> (s: BeltSlot)
    requires
        b < old(belts)@.len(),
        live_belts_wf(old(belts)@),
        old(belts)@[b as int] is Some,
        slot_count(old(belts)@[b as int]) > 0,
    ensures
        final(belts)@.len() == old(belts)@.len(),
        forall|j: int|
            0 <= j < old(belts)@.len() && j != b ==> final(belts)@[j] == old(belts)@[j],
        final(belts)@[b as int] is Some,
        live_belts_wf(final(belts)@),
        slot_count(final(belts)@[b as int]) == slot_count(old(belts)@[b as int]) - 1,
        total_tokens(final(belts)@) == total_tokens(old(belts)@) - 1,
        s == old(belts)@[b as int]->Some_0@[0],
        final(belts)@[b as int]->Some_0@ == old(belts)@[b as int]->Some_0@.drop_first(),
{
    let taken = vec_replace(belts, b, None);
    match taken {
        Some(mut belt) => {
            proof {
                assert(old(belts)@[b as int] matches Some(x) && x.wf());
            }
            let s = belt.pop_front();
            let ghost nb = belt;
            let _ = vec_replace(belts, b, Some(belt));
            proof {
                assert(belts@ =~= old(belts)@.update(b as int, Some(nb)));
                lemma_total_update(old(belts)@, b as int, Some(nb));
                assert forall|j: int|
                    0 <= j < belts@.len() implies ((#[trigger] belts@[j]) matches Some(x)
                    ==> x.wf()) by {
                    if j != b as int {
                        assert(belts@[j] == old(belts)@[j]);
                    }
                }
            }
            s
        },
        None => {
            proof {
                assert(false);
            }
            (0, 0, 0)
        },
    }
}

/// Advance every token of the belt in arena slot `b` by `dt`.
fn advance_belt(belts: &mut Vec<Option<Belt>>, b: usize, dt: u64)
    requires
        b < old(belts)@.len(),
        live_belts_wf(old(belts)@),
        old(belts)@[b as int] is Some,
        dt <= MAX_TICK,
    ensures
        final(belts)@.len() == old(belts)@.len(),
        forall|j: int|
            0 <= j < old(belts)@.len() && j != b ==> final(belts)@[j] == old(belts)@[j],
        final(belts)@[b as int] is Some,
        live_belts_wf(final(belts)@),
        slot_count(final(belts)@[b as int]) == slot_count(old(belts)@[b as int]),
        total_tokens(final(belts)@) == total_tokens(old(belts)@),
        final(belts)@[b as int]->Some_0@ == advanced_queue(old(belts)@[b as int]->Some_0@, dt),
{
    let taken = vec_replace(belts, b, None);
    match taken {
        Some(mut belt) => {
            proof {
                assert(old(belts)@[b as int] matches Some(x) && x.wf());
            }
            belt.advance(dt);
            let ghost nb = belt;
            let _ = vec_replace(belts, b, Some(belt));
            proof {
                assert(belts@ =~= old(belts)@.update(b as int, Some(nb)));
                lemma_total_update(old(belts)@, b as int, Some(nb));
                assert forall|j: int|
                    0 <= j < belts@.len() implies ((#[trigger] belts@[j]) matches Some(x)
                    ==> x.wf()) by {
                    if j != b as int {
                        assert(belts@[j] == old(belts)@[j]);
                    }
                }
            }
        },
        None => {
            proof {
                assert(false);
            }
        },
    }
}

/// Hand the front token of arena slot `src` over to arena slot `dst` at
/// entry progress `new_p`. The destination decides by its own acceptance
/// rule; on refusal nothing moves and the caller retries next tick
/// (back-pressure).
fn transfer_token(belts: &mut Vec<Option<Belt>>, src: usize, dst: usize, new_p: u64) -> (moved:
    bool)
    requires
        src != dst,
        src < old(belts)@.len(),
        dst < old(belts)@.len(),
        live_belts_wf(old(belts)@),
        old(belts)@[src as int] is Some,
        old(belts)@[dst as int] is Some,
        slot_count(old(belts)@[src as int]) > 0,
        new_p <= PROGRESS_SCALE,
    ensures
        final(belts)@.len() == old(belts)@.len(),
        forall|j: int|
            0 <= j < old(belts)@.len() && j != src && j != dst
                ==> final(belts)@[j] == old(belts)@[j],
        final(belts)@[src as int] is Some,
        final(belts)@[dst as int] is Some,
        live_belts_wf(final(belts)@),
        total_tokens(final(belts)@) == total_tokens(old(belts)@),
        moved == old(belts)@[dst as int]->Some_0.spec_accepts(new_p),
        moved ==> final(belts)@[dst as int]->Some_0@ == old(belts)@[dst as int]->Some_0@.push(
            (
                old(belts)@[src as int]->Some_0@[0].0,
                old(belts)@[src as int]->Some_0@[0].1,
                new_p,
            ),
        ),
        moved
            ==> final(belts)@[src as int]->Some_0@ == old(belts)@[src as int]->Some_0@.drop_first(),
        !moved ==> final(belts)@[src as int] == old(belts)@[src as int]
            && final(belts)@[dst as int]->Some_0@ == old(belts)@[dst as int]->Some_0@,
{
    proof {
        assert(old(belts)@[src as int] matches Some(x) && x.wf());
        assert(old(belts)@[dst as int] matches Some(x) && x.wf());
    }
    let front = match &belts[src] {
        Some(belt) => belt.front(),
        None => None,
    };
    let (tid, tcode) = match front {
        Some(s) => (s.0, s.1),
        None => {
            proof {
                assert(false);
            }
            (0u64, 0u64)
        },
    };
    let dtaken = vec_replace(belts, dst, None);
    let mut moved = false;
    match dtaken {
        Some(mut dbelt) => {
            moved = dbelt.receive(tid, tcode, new_p);
            let ghost nd = dbelt;
            let _ = vec_replace(belts, dst, Some(dbelt));
            proof {
                assert(belts@ =~= old(belts)@.update(dst as int, Some(nd)));
                lemma_total_update(old(belts)@, dst as int, Some(nd));
            }
            if moved {
                let staken = vec_replace(belts, src, None);
                match staken {
                    Some(mut sbelt) => {
                        proof {
                            assert(sbelt == old(belts)@[src as int]->Some_0);
                        }
                        let _ = sbelt.pop_front();
                        let ghost ns = sbelt;
                        let _ = vec_replace(belts, src, Some(sbelt));
                        proof {
                            let mid = old(belts)@.update(dst as int, Some(nd));
                            assert(belts@ =~= mid.update(src as int, Some(ns)));
                            lemma_total_update(mid, src as int, Some(ns));
                            assert forall|j: int|
                                0 <= j < belts@.len() implies ((#[trigger] belts@[j]) matches Some(
                                x,
                            ) ==> x.wf()) by {
                                if j != src as int && j != dst as int {
                                    assert(belts@[j] == old(belts)@[j]);
                                }
                            }
                        }
                    },
                    None => {
                        proof {
                            assert(false);
                        }
                    },
                }
            } else {
                proof {
                    assert forall|j: int|
                        0 <= j < belts@.len() implies ((#[trigger] belts@[j]) matches Some(x)
                        ==> x.wf()) by {
                        if j != dst as int {
                            assert(belts@[j] == old(belts)@[j]);
                        }
                    }
                }
            }
        },
        None => {
            proof {
                assert(false);
            }
        },
    }
    moved
}

/// Removing one registry entry and killing exactly the arena slots it
/// linked to keeps the registry well-formed: by injectivity no other entry
/// shared those slots.
proof fn lemma_remove_entry_wf(
    g: Seq<TileEntry>,
    j: int,
    belts: Seq<Option<Belt>>,
    invs: Seq<Option<Inventory>>,
    miners: Seq<Option<Mine>>,
    buildings: Seq<Option<Building>>,
    belts2: Seq<Option<Belt>>,
    invs2: Seq<Option<Inventory>>,
    miners2: Seq<Option<Mine>>,
)
    requires
        positions_unique(g),
        grid_refs_wf(g, belts, invs, miners, buildings),
        belts_injective(g),
        inventories_injective(g),
        miners_injective(g),
        0 <= j < g.len(),
        belts2 == (match g[j].belt {
            Some(b) => belts.update(b as int, None),
            None => belts,
        }),
        invs2 == (match g[j].belt_input {
            Some(bi) => invs.update(bi.inventory as int, None),
            None => invs,
        }),
        miners2 == (match g[j].miner {
            Some(m) => miners.update(m as int, None),
            None => miners,
        }),
    ensures
        positions_unique(g.remove(j)),
        grid_refs_wf(g.remove(j), belts2, invs2, miners2, buildings),
        belts_injective(g.remove(j)),
        inventories_injective(g.remove(j)),
        miners_injective(g.remove(j)),
{
    let r = g.remove(j);
    assert forall|i1: int, i2: int| 0 <= i1 < i2 < r.len() implies (#[trigger] r[i1]).pos != (
    #[trigger] r[i2]).pos by {
        let o1: int = if i1 < j {
            i1
        } else {
            i1 + 1
        };
        let o2: int = if i2 < j {
            i2
        } else {
            i2 + 1
        };
        assert(r[i1] == g[o1]);
        assert(r[i2] == g[o2]);
    }
    assert forall|i1: int, i2: int|
        0 <= i1 < i2 < r.len() && (#[trigger] r[i1]).belt is Some && (#[trigger] r[i2]).belt
            is Some implies r[i1].belt != r[i2].belt by {
        let o1: int = if i1 < j {
            i1
        } else {
            i1 + 1
        };
        let o2: int = if i2 < j {
            i2
        } else {
            i2 + 1
        };
        assert(r[i1] == g[o1]);
        assert(r[i2] == g[o2]);
    }
    assert forall|i1: int, i2: int|
        0 <= i1 < i2 < r.len() && (#[trigger] r[i1]).belt_input is Some && (
        #[trigger] r[i2]).belt_input is Some implies r[i1].belt_input != r[i2].belt_input by {
        let o1: int = if i1 < j {
            i1
        } else {
            i1 + 1
        };
        let o2: int = if i2 < j {
            i2
        } else {
            i2 + 1
        };
        assert(r[i1] == g[o1]);
        assert(r[i2] == g[o2]);
    }
    assert forall|i1: int, i2: int|
        0 <= i1 < i2 < r.len() && (#[trigger] r[i1]).miner is Some && (#[trigger] r[i2]).miner
            is Some implies r[i1].miner != r[i2].miner by {
        let o1: int = if i1 < j {
            i1
        } else {
            i1 + 1
        };
        let o2: int = if i2 < j {
            i2
        } else {
            i2 + 1
        };
        assert(r[i1] == g[o1]);
        assert(r[i2] == g[o2]);
    }
    assert forall|i: int|
        0 <= i < r.len() implies entry_refs_wf(#[trigger] r[i], belts2, invs2, miners2, buildings) by {
        let o: int = if i < j {
            i
        } else {
            i + 1
        };
        assert(r[i] == g[o]);
        assert(entry_refs_wf(g[o], belts, invs, miners, buildings));
        if g[o].belt is Some && g[j].belt is Some {
            assert(g[o].belt != g[j].belt);
        }
        if g[o].belt_input is Some && g[j].belt_input is Some {
            assert(g[o].belt_input != g[j].belt_input);
        }
        if g[o].miner is Some && g[j].miner is Some {
            assert(g[o].miner != g[j].miner);
        }
    }
}

/// Whether a footprint placed at `origin` may be built on `grid`: every
/// tile translates without overflow, lands on the grid, and finds its cell
/// free. A request failing any of these is rejected with nothing mutated.
pub open spec fn spec_can_place(grid: Seq<TileEntry>, fp: Seq<FootprintTile>, origin: TilePos) -> bool {
    forall|i: int|
        0 <= i < fp.len() ==> {
            &&& spec_translation_fits(#[trigger] fp[i], origin)
            &&& spec_translated(fp[i], origin).0.spec_in_bounds()
            &&& spec_find_entry(grid, spec_translated(fp[i], origin).0) == grid.len()
        }
}

/// The queue view of the belt arena: each live slot's ordered contents.
pub open spec fn belt_queues(belts: Seq<Option<Belt>>) -> Seq<Option<Seq<BeltSlot>>> {
    Seq::new(
        belts.len(),
        |i: int|
            match belts[i] {
                Some(b) => Some(b@),
                None => None,
            },
    )
}

/// The slot view of the inventory arena.
pub open spec fn inv_views(inventories: Seq<Option<Inventory>>) -> Seq<Option<Seq<InvSlot>>> {
    Seq::new(
        inventories.len(),
        |i: int|
            match inventories[i] {
                Some(v) => Some(v@),
                None => None,
            },
    )
}

/// The hand-off attempt of the belt tile at registry index `gi`, on the
/// queue view: when the tile holds a belt whose front token would pass the
/// segment exit, and the tile it feeds holds a belt reachable at a defined
/// entry offset, the front moves onto that belt at progress
/// `min(front + dt - PROGRESS_SCALE + offset, PROGRESS_SCALE)` — exactly
/// when the destination accepts it; otherwise every queue stays put
/// (back-pressure, retried next tick).
pub open spec fn spec_transfer(
    grid: Seq<TileEntry>,
    qs: Seq<Option<Seq<BeltSlot>>>,
    gi: int,
    dt: u64,
) -> Seq<Option<Seq<BeltSlot>>> {
    let e = grid[gi];
    match e.belt {
        Some(b) => if 0 <= b < qs.len() && qs[b as int] is Some && qs[b as int]->Some_0.len() > 0
            && qs[b as int]->Some_0[0].2 + dt > PROGRESS_SCALE {
            let front = qs[b as int]->Some_0[0];
            match e.tile.spec_next_belt_pos(e.pos) {
                Some(np) => {
                    let tj = spec_find_entry(grid, np);
                    if tj < grid.len() {
                        match grid[tj].belt {
                            Some(nb) => match e.tile.spec_next_belt_start(grid[tj].tile) {
                                Some(off) => {
                                    let new_p = min(
                                        front.2 + dt - PROGRESS_SCALE + off,
                                        PROGRESS_SCALE as int,
                                    ) as u64;
                                    if 0 <= nb < qs.len() && qs[nb as int] is Some
                                        && queue_accepts(qs[nb as int]->Some_0, new_p) {
                                        qs.update(
                                            nb as int,
                                            Some(
                                                qs[nb as int]->Some_0.push(
                                                    (front.0, front.1, new_p),
                                                ),
                                            ),
                                        ).update(b as int, Some(qs[b as int]->Some_0.drop_first()))
                                    } else {
                                        qs
                                    }
                                },
                                None => qs,
                            },
                            None => qs,
                        }
                    } else {
                        qs
                    }
                },
                None => qs,
            }
        } else {
            qs
        },
        None => qs,
    }
}

/// One belt tile's move step on the queue view: the front hand-off attempt,
/// then the advancement of the tile's own queue by `dt` per
/// [`advanced_queue`] (clamped, non-overtaking, minimum spacing kept).
pub open spec fn spec_belt_step(
    grid: Seq<TileEntry>,
    qs: Seq<Option<Seq<BeltSlot>>>,
    gi: int,
    dt: u64,
) -> Seq<Option<Seq<BeltSlot>>> {
    let e = grid[gi];
    match e.belt {
        Some(b) => {
            let qs1 = spec_transfer(grid, qs, gi, dt);
            if 0 <= b < qs1.len() && qs1[b as int] is Some {
                qs1.update(b as int, Some(advanced_queue(qs1[b as int]->Some_0, dt)))
            } else {
                qs1
            }
        },
        None => qs,
    }
}

/// The whole transport pass on the queue view: [`spec_belt_step`] applied
/// for every registry index below `n`, in registry order.
pub open spec fn spec_move_pass(
    grid: Seq<TileEntry>,
    qs: Seq<Option<Seq<BeltSlot>>>,
    n: int,
    dt: u64,
) -> Seq<Option<Seq<BeltSlot>>>
    decreases n,
{
    if n <= 0 {
        qs
    } else {
        spec_belt_step(grid, spec_move_pass(grid, qs, n - 1, dt), n - 1, dt)
    }
}

/// One belt tile's drain step on the views: when the tile's belt carries a
/// front token stalled exactly at the segment exit and the tile it feeds
/// exposes a belt input, the token is consumed exactly when the fed
/// inventory's [`insert_target`] for one unit of its item type is defined —
/// that inventory gains the unit, the belt drops its front, and the
/// consumed count steps; in every other case nothing changes and the token
/// is retried next tick.
pub open spec fn spec_drain_step(
    grid: Seq<TileEntry>,
    qs: Seq<Option<Seq<BeltSlot>>>,
    ivs: Seq<Option<Seq<InvSlot>>>,
    consumed: u64,
    gi: int,
) -> (Seq<Option<Seq<BeltSlot>>>, Seq<Option<Seq<InvSlot>>>, u64) {
    let e = grid[gi];
    match e.belt {
        Some(b) => if 0 <= b < qs.len() && qs[b as int] is Some && qs[b as int]->Some_0.len() > 0
            && qs[b as int]->Some_0[0].2 == PROGRESS_SCALE {
            let front = qs[b as int]->Some_0[0];
            match e.tile.spec_next_belt_pos(e.pos) {
                Some(np) => {
                    let tj = spec_find_entry(grid, np);
                    if tj < grid.len() {
                        match grid[tj].belt_input {
                            Some(bi) => if ItemType::spec_from_code(front.1) is Some
                                && 0 <= bi.inventory < ivs.len() && ivs[bi.inventory as int]
                                is Some {
                                let iv = ivs[bi.inventory as int]->Some_0;
                                match insert_target(iv, front.1, 1) {
                                    Some(t) => (
                                        qs.update(
                                            b as int,
                                            Some(qs[b as int]->Some_0.drop_first()),
                                        ),
                                        ivs.update(
                                            bi.inventory as int,
                                            Some(iv.update(t, inserted_slot(iv[t], front.1, 1))),
                                        ),
                                        (consumed + 1) as u64,
                                    ),
                                    None => (qs, ivs, consumed),
                                }
                            } else {
                                (qs, ivs, consumed)
                            },
                            None => (qs, ivs, consumed),
                        }
                    } else {
                        (qs, ivs, consumed)
                    }
                },
                None => (qs, ivs, consumed),
            }
        } else {
            (qs, ivs, consumed)
        },
        None => (qs, ivs, consumed),
    }
}

/// The whole consumption pass on the views: [`spec_drain_step`] applied for
/// every registry index below `n`, in registry order.
pub open spec fn spec_drain_pass(
    grid: Seq<TileEntry>,
    qs: Seq<Option<Seq<BeltSlot>>>,
    ivs: Seq<Option<Seq<InvSlot>>>,
    consumed: u64,
    n: int,
) -> (Seq<Option<Seq<BeltSlot>>>, Seq<Option<Seq<InvSlot>>>, u64)
    decreases n,
{
    if n <= 0 {
        (qs, ivs, consumed)
    } else {
        let r = spec_drain_pass(grid, qs, ivs, consumed, n - 1);
        spec_drain_step(grid, r.0, r.1, r.2, n - 1)
    }
}

/// The belt arena index the registry resolves for position `pos`: the belt
/// of the entry standing there, if any.
pub open spec fn spec_resolve_belt(grid: Seq<TileEntry>, pos: TilePos) -> Option<int> {
    let i = spec_find_entry(grid, pos);
    if i < grid.len() {
        match grid[i].belt {
            Some(b) => Some(b as int),
            None => None,
        }
    } else {
        None
    }
}

/// The belt a miner's emission lands on: scanning the candidate positions
/// from `i` in attempt order, the first that resolves to a live belt
/// accepting a token at the emission progress; the first success wins and
/// there is no retry within the tick.
pub open spec fn spec_emit_choice(
    grid: Seq<TileEntry>,
    qs: Seq<Option<Seq<BeltSlot>>>,
    cands: Seq<TilePos>,
    i: int,
) -> Option<int>
    decreases cands.len() - i,
{
    if i < 0 || i >= cands.len() {
        None
    } else {
        match spec_resolve_belt(grid, cands[i]) {
            Some(b) => if 0 <= b < qs.len() && qs[b] is Some && queue_accepts(
                qs[b]->Some_0,
                MINE_OUTPUT_PROGRESS,
            ) {
                Some(b)
            } else {
                spec_emit_choice(grid, qs, cands, i + 1)
            },
            None => spec_emit_choice(grid, qs, cands, i + 1),
        }
    }
}

/// One miner's emission on the queue view: the fresh token `next` (coal, at
/// the emission progress) joins the belt [`spec_emit_choice`] picks, the
/// created and identity counters step; when no candidate accepts, nothing
/// is created and nothing is owed later (fire-and-forget).
pub open spec fn spec_emit(
    grid: Seq<TileEntry>,
    qs: Seq<Option<Seq<BeltSlot>>>,
    created: u64,
    next: u64,
    output: TilePos,
) -> (Seq<Option<Seq<BeltSlot>>>, u64, u64) {
    match spec_emit_choice(grid, qs, spec_output_positions(output), 0) {
        Some(b) => (
            qs.update(
                b,
                Some(qs[b]->Some_0.push((next, ItemType::Coal.spec_code(), MINE_OUTPUT_PROGRESS))),
            ),
            (created + 1) as u64,
            (next + 1) as u64,
        ),
        None => (qs, created, next),
    }
}

/// One miner's production step: the timer advances by `dt` (keeping the
/// remainder past the period on a firing, per [`Mine::tick`]); a firing
/// timer attempts exactly one emission, guarded against counter exhaustion.
pub open spec fn spec_mine_step(
    grid: Seq<TileEntry>,
    miners: Seq<Option<Mine>>,
    qs: Seq<Option<Seq<BeltSlot>>>,
    created: u64,
    next: u64,
    mi: int,
    dt: u64,
) -> (Seq<Option<Mine>>, Seq<Option<Seq<BeltSlot>>>, u64, u64) {
    match miners[mi] {
        Some(m) => {
            let fired = m.elapsed + dt >= m.period;
            let m2 = Mine {
                period: m.period,
                elapsed: (if fired {
                    (m.elapsed + dt) % (m.period as int)
                } else {
                    m.elapsed + dt
                }) as u64,
                output: m.output,
            };
            let miners2 = miners.update(mi, Some(m2));
            if fired && created < u64::MAX && next < u64::MAX {
                let r = spec_emit(grid, qs, created, next, m.output);
                (miners2, r.0, r.1, r.2)
            } else {
                (miners2, qs, created, next)
            }
        },
        None => (miners, qs, created, next),
    }
}

/// The whole production pass: [`spec_mine_step`] applied for every miner
/// arena index below `n`, in arena order.
pub open spec fn spec_produce_pass(
    grid: Seq<TileEntry>,
    miners: Seq<Option<Mine>>,
    qs: Seq<Option<Seq<BeltSlot>>>,
    created: u64,
    next: u64,
    n: int,
    dt: u64,
) -> (Seq<Option<Mine>>, Seq<Option<Seq<BeltSlot>>>, u64, u64)
    decreases n,
{
    if n <= 0 {
        (miners, qs, created, next)
    } else {
        let r = spec_produce_pass(grid, miners, qs, created, next, n - 1, dt);
        spec_mine_step(grid, r.0, r.1, r.2, r.3, n - 1, dt)
    }
}

/// The belt tile a newly dragged belt takes: the direction from the
/// previously laid tile toward the new one, or down when no drag direction
/// can be derived.
pub open spec fn spec_drag_direction(pos: TilePos, last_placed: Option<TilePos>) -> BuildingTileType {
    match last_placed {
        Some(lp) => match spec_belt_dir_between(pos, lp) {
            Some(d) => d,
            None => BuildingTileType::BeltDown,
        },
        None => BuildingTileType::BeltDown,
    }
}

/// The registry index a mine attachment targets: defined exactly when `k`
/// is a live mine whose first layout tile is registered and carries no
/// miner yet.
pub open spec fn spec_mine_attach_index(
    grid: Seq<TileEntry>,
    buildings: Seq<Option<Building>>,
    k: usize,
) -> Option<int> {
    if k < buildings.len() && buildings[k as int] is Some
        && buildings[k as int]->Some_0.building_type == BuildingType::Mine
        && buildings[k as int]->Some_0.layout.tiles@.len() > 0 {
        let j = spec_find_entry(grid, buildings[k as int]->Some_0.layout.tiles@[0].0);
        if j < grid.len() && grid[j].miner is None {
            Some(j)
        } else {
            None
        }
    } else {
        None
    }
}

/// The registry index a chest attachment targets: defined exactly when `k`
/// is a live chest whose first layout tile is registered and carries no
/// belt input yet.
pub open spec fn spec_chest_attach_index(
    grid: Seq<TileEntry>,
    buildings: Seq<Option<Building>>,
    k: usize,
) -> Option<int> {
    if k < buildings.len() && buildings[k as int] is Some
        && buildings[k as int]->Some_0.building_type == BuildingType::Chest
        && buildings[k as int]->Some_0.layout.tiles@.len() > 0 {
        let j = spec_find_entry(grid, buildings[k as int]->Some_0.layout.tiles@[0].0);
        if j < grid.len() && grid[j].belt_input is None {
            Some(j)
        } else {
            None
        }
    } else {
        None
    }
}

/// The simulation world. All state is owned here and passed by reference
/// into every operation; there is no ambient or static state.
pub struct World {
    /// The tile registry: every occupied cell, position-unique.
    pub grid: Vec<TileEntry>,
    /// Belt segment arena; demolition leaves tombstones so indices are stable.
    pub belts: Vec<Option<Belt>>,
    /// Miner arena.
    pub miners: Vec<Option<Mine>>,
    /// Inventory arena.
    pub inventories: Vec<Option<Inventory>>,
    /// Building arena.
    pub buildings: Vec<Option<Building>>,
    /// Identity for the next token a producer creates.
    pub next_token: u64,
    /// Count of tokens ever created by producers.
    pub created: u64,
    /// Count of tokens consumed by inventories.
    pub consumed: u64,
    /// Count of tokens destroyed by demolition.
    pub despawned: u64,
}

impl World {
    /// Token conservation: every created token is riding a belt, was
    /// consumed, or was despawned by demolition. No loss, no duplication.
    pub open spec fn conserves(self) -> bool {
        self.created as int == self.consumed + self.despawned + total_tokens(self.belts@)
    }

    /// Well-formedness of the whole world: a position-unique registry whose
    /// arena links are live and unshared, well-formed arena occupants, and
    /// token conservation.
    pub open spec fn wf(self) -> bool {
        &&& positions_unique(self.grid@)
        &&& grid_refs_wf(self.grid@, self.belts@, self.inventories@, self.miners@, self.buildings@)
        &&& belts_injective(self.grid@)
        &&& inventories_injective(self.grid@)
        &&& miners_injective(self.grid@)
        &&& live_belts_wf(self.belts@)
        &&& live_inventories_wf(self.inventories@)
        &&& live_miners_wf(self.miners@)
        &&& self.conserves()
    }

    /// An empty world.
    pub fn new() -> (w: World)
        ensures
            w.wf(),
            w.grid@.len() == 0,
            w.belts@.len() == 0,
            w.created == 0,
            w.consumed == 0,
            w.despawned == 0,
            w.next_token == 0,
    {
        World {
            grid: Vec::new(),
            belts: Vec::new(),
            miners: Vec::new(),
            inventories: Vec::new(),
            buildings: Vec::new(),
            next_token: 0,
            created: 0,
            consumed: 0,
            despawned: 0,
        }
    }

    /// One belt tile's move pass: if the front token would pass the segment
    /// exit, attempt its hand-off to the downstream segment (with the
    /// direction-aware entry offset), then advance the segment's tokens.
    #[verifier::rlimit(80)]
    fn belt_step(&mut self, gi: usize, dt: u64)
        requires
            old(self).wf(),
            gi < old(self).grid@.len(),
            dt <= MAX_TICK,
        ensures
            final(self).wf(),
            final(self).grid == old(self).grid,
            final(self).miners == old(self).miners,
            final(self).inventories == old(self).inventories,
            final(self).buildings == old(self).buildings,
            final(self).next_token == old(self).next_token,
            final(self).created == old(self).created,
            final(self).consumed == old(self).consumed,
            final(self).despawned == old(self).despawned,
            final(self).belts@.len() == old(self).belts@.len(),
            total_tokens(final(self).belts@) == total_tokens(old(self).belts@),
            belt_queues(final(self).belts@) == spec_belt_step(
                old(self).grid@,
                belt_queues(old(self).belts@),
                gi as int,
                dt,
            ),
    {
        let ghost qs0 = belt_queues(self.belts@);
        let entry = self.grid[gi];
        let b = match entry.belt {
            Some(b) => b,
            None => {
                return ;
            },
        };
        proof {
            assert(entry_refs_wf(
                self.grid@[gi as int],
                self.belts@,
                self.inventories@,
                self.miners@,
                self.buildings@,
            ));
            assert(self.belts@[b as int] matches Some(x) && x.wf());
            assert(qs0[b as int] is Some);
            assert(qs0[b as int]->Some_0 == self.belts@[b as int]->Some_0@);
        }
        let front = match &self.belts[b] {
            Some(belt) => belt.front(),
            None => None,
        };
        match front {
            Some(slot) => {
                proof {
                    assert(slot.2 <= PROGRESS_SCALE);
                }
                if slot.2 + dt > PROGRESS_SCALE {
                    match entry.tile.next_belt_pos(entry.pos) {
                        Some(next_pos) => {
                            proof {
                                assert(next_pos != entry.pos);
                            }
                            match self.find_entry(next_pos) {
                                Some(tj) => {
                                    let tentry = self.grid[tj];
                                    match tentry.belt {
                                        Some(nb) => {
                                            proof {
                                                assert(tj != gi);
                                                assert(nb != b);
                                                assert(entry_refs_wf(
                                                    self.grid@[tj as int],
                                                    self.belts@,
                                                    self.inventories@,
                                                    self.miners@,
                                                    self.buildings@,
                                                ));
                                            }
                                            match entry.tile.next_belt_start(tentry.tile) {
                                                Some(off) => {
                                                    let raw = slot.2 + dt - PROGRESS_SCALE + off;
                                                    let new_p = if raw > PROGRESS_SCALE {
                                                        PROGRESS_SCALE
                                                    } else {
                                                        raw
                                                    };
                                                    proof {
                                                        assert(qs0[nb as int] is Some);
                                                        assert(qs0[nb as int]->Some_0
                                                            == self.belts@[nb as int]->Some_0@);
                                                    }
                                                    let moved = transfer_token(
                                                        &mut self.belts,
                                                        b,
                                                        nb,
                                                        new_p,
                                                    );
                                                    proof {
                                                        lemma_refs_preserved(
                                                            self.grid@,
                                                            old(self).belts@,
                                                            self.belts@,
                                                            self.inventories@,
                                                            self.inventories@,
                                                            self.miners@,
                                                            self.miners@,
                                                            self.buildings@,
                                                            self.buildings@,
                                                        );
                                                        if moved {
                                                            assert(belt_queues(self.belts@)
                                                                =~= qs0.update(
                                                                nb as int,
                                                                Some(
                                                                    qs0[nb as int]->Some_0.push(
                                                                        (slot.0, slot.1, new_p),
                                                                    ),
                                                                ),
                                                            ).update(
                                                                b as int,
                                                                Some(
                                                                    qs0[b as int]->Some_0.drop_first(),
                                                                ),
                                                            ));
                                                        } else {
                                                            assert(belt_queues(self.belts@)
                                                                =~= qs0);
                                                        }
                                                    }
                                                },
                                                None => {},
                                            }
                                        },
                                        None => {},
                                    }
                                },
                                None => {},
                            }
                        },
                        None => {},
                    }
                }
            },
            None => {},
        }
        proof {
            assert(belt_queues(self.belts@) =~= spec_transfer(old(self).grid@, qs0, gi as int, dt));
        }
        let ghost mid = *self;
        advance_belt(&mut self.belts, b, dt);
        proof {
            lemma_refs_preserved(
                self.grid@,
                mid.belts@,
                self.belts@,
                self.inventories@,
                self.inventories@,
                self.miners@,
                self.miners@,
                self.buildings@,
                self.buildings@,
            );
            let qs1 = spec_transfer(old(self).grid@, qs0, gi as int, dt);
            assert(belt_queues(mid.belts@) == qs1);
            assert(qs1[b as int]->Some_0 == mid.belts@[b as int]->Some_0@);
            assert(belt_queues(self.belts@) =~= qs1.update(
                b as int,
                Some(advanced_queue(qs1[b as int]->Some_0, dt)),
            ));
        }
    }

    /// The per-tick transport pass: for every belt tile, in registry order,
    /// attempt the front token's hand-off downstream and advance the
    /// segment. Transport neither creates nor destroys tokens.
    pub fn move_items_on_belts(&mut self, dt: u64)
        requires
            old(self).wf(),
            dt <= MAX_TICK,
        ensures
            final(self).wf(),
            final(self).grid == old(self).grid,
            final(self).miners == old(self).miners,
            final(self).inventories == old(self).inventories,
            final(self).buildings == old(self).buildings,
            final(self).next_token == old(self).next_token,
            final(self).created == old(self).created,
            final(self).consumed == old(self).consumed,
            final(self).despawned == old(self).despawned,
            final(self).belts@.len() == old(self).belts@.len(),
            total_tokens(final(self).belts@) == total_tokens(old(self).belts@),
            belt_queues(final(self).belts@) == spec_move_pass(
                old(self).grid@,
                belt_queues(old(self).belts@),
                old(self).grid@.len() as int,
                dt,
            ),
    {
        let ghost qs0 = belt_queues(self.belts@);
        let n = self.grid.len();
        let mut gi: usize = 0;
        while gi < n
            invariant
                gi <= n,
                self.wf(),
                n == self.grid@.len(),
                self.grid == old(self).grid,
                self.miners == old(self).miners,
                self.inventories == old(self).inventories,
                self.buildings == old(self).buildings,
                self.next_token == old(self).next_token,
                self.created == old(self).created,
                self.consumed == old(self).consumed,
                self.despawned == old(self).despawned,
                self.belts@.len() == old(self).belts@.len(),
                total_tokens(self.belts@) == total_tokens(old(self).belts@),
                qs0 == belt_queues(old(self).belts@),
                belt_queues(self.belts@) == spec_move_pass(old(self).grid@, qs0, gi as int, dt),
                dt <= MAX_TICK,
            decreases n - gi,
        {
            self.belt_step(gi, dt);
            gi += 1;
        }
    }

    /// One belt tile's drain pass: a front token stalled exactly at the
    /// segment exit is offered to the inventory behind the adjacent tile's
    /// belt input; on acceptance the token is consumed (destroyed), else it
    /// stays, visibly stalled, and is retried next tick.
    fn drain_step(&mut self, gi: usize)
        requires
            old(self).wf(),
            gi < old(self).grid@.len(),
        ensures
            final(self).wf(),
            final(self).grid == old(self).grid,
            final(self).miners == old(self).miners,
            final(self).buildings == old(self).buildings,
            final(self).next_token == old(self).next_token,
            final(self).created == old(self).created,
            final(self).despawned == old(self).despawned,
            final(self).belts@.len() == old(self).belts@.len(),
            final(self).inventories@.len() == old(self).inventories@.len(),
            final(self).consumed >= old(self).consumed,
            final(self).consumed - old(self).consumed == total_tokens(old(self).belts@)
                - total_tokens(final(self).belts@),
            ({
                let r = spec_drain_step(
                    old(self).grid@,
                    belt_queues(old(self).belts@),
                    inv_views(old(self).inventories@),
                    old(self).consumed,
                    gi as int,
                );
                belt_queues(final(self).belts@) == r.0 && inv_views(final(self).inventories@)
                    == r.1 && final(self).consumed == r.2
            }),
    {
        let ghost qs0 = belt_queues(self.belts@);
        let ghost ivs0 = inv_views(self.inventories@);
        let entry = self.grid[gi];
        let b = match entry.belt {
            Some(b) => b,
            None => {
                return ;
            },
        };
        proof {
            assert(entry_refs_wf(
                self.grid@[gi as int],
                self.belts@,
                self.inventories@,
                self.miners@,
                self.buildings@,
            ));
            assert(self.belts@[b as int] matches Some(x) && x.wf());
            assert(qs0[b as int] is Some);
            assert(qs0[b as int]->Some_0 == self.belts@[b as int]->Some_0@);
        }
        let front = match &self.belts[b] {
            Some(belt) => belt.front(),
            None => None,
        };
        let slot = match front {
            Some(slot) => slot,
            None => {
                return ;
            },
        };
        if slot.2 != PROGRESS_SCALE {
            return ;
        }
        let next_pos = match entry.tile.next_belt_pos(entry.pos) {
            Some(p) => p,
            None => {
                return ;
            },
        };
        let tj = match self.find_entry(next_pos) {
            Some(tj) => tj,
            None => {
                return ;
            },
        };
        let tentry = self.grid[tj];
        let v = match tentry.belt_input {
            Some(bi) => bi.inventory,
            None => {
                return ;
            },
        };
        let item_type = match ItemType::from_code(slot.1) {
            Some(t) => t,
            None => {
                return ;
            },
        };
        proof {
            assert(entry_refs_wf(
                self.grid@[tj as int],
                self.belts@,
                self.inventories@,
                self.miners@,
                self.buildings@,
            ));
            assert(self.inventories@[v as int] matches Some(x) && x.wf());
            assert(ivs0[v as int] is Some);
            assert(ivs0[v as int]->Some_0 == self.inventories@[v as int]->Some_0@);
            // The only known code is coal's, so the decoded type stores the
            // same code back.
            assert(item_type.spec_code() == slot.1);
        }
        let taken = vec_replace(&mut self.inventories, v, None);
        let ok = match taken {
            Some(mut inv) => {
                let ok = inv.insert(1, item_type);
                let ghost ni = inv;
                let _ = vec_replace(&mut self.inventories, v, Some(inv));
                proof {
                    assert(self.inventories@ =~= old(self).inventories@.update(
                        v as int,
                        Some(ni),
                    ));
                    assert forall|j: int|
                        0 <= j < self.inventories@.len() implies ((
                        #[trigger] self.inventories@[j]) matches Some(x) ==> x.wf()) by {
                        if j != v as int {
                            assert(self.inventories@[j] == old(self).inventories@[j]);
                        }
                    }
                    if ok {
                        assert(inv_views(self.inventories@) =~= ivs0.update(
                            v as int,
                            Some(
                                ivs0[v as int]->Some_0.update(
                                    insert_target(ivs0[v as int]->Some_0, slot.1, 1)->Some_0,
                                    inserted_slot(
                                        ivs0[v as int]->Some_0[insert_target(
                                            ivs0[v as int]->Some_0,
                                            slot.1,
                                            1,
                                        )->Some_0],
                                        slot.1,
                                        1,
                                    ),
                                ),
                            ),
                        ));
                    } else {
                        assert(inv_views(self.inventories@) =~= ivs0);
                    }
                }
                ok
            },
            None => {
                proof {
                    assert(false);
                }
                false
            },
        };
        proof {
            lemma_refs_preserved(
                self.grid@,
                old(self).belts@,
                self.belts@,
                old(self).inventories@,
                self.inventories@,
                self.miners@,
                self.miners@,
                self.buildings@,
                self.buildings@,
            );
        }
        if ok {
            proof {
                // The front token exists, so the arena holds at least one
                // token and the consumed counter has headroom.
                lemma_total_lower_bound(self.belts@, b as int);
                lemma_tokens_in_nonneg(self.belts@, self.belts@.len() as int);
            }
            let ghost mid = *self;
            let _ = pop_front_at(&mut self.belts, b);
            self.consumed = self.consumed + 1;
            proof {
                assert(belt_queues(self.belts@) =~= qs0.update(
                    b as int,
                    Some(qs0[b as int]->Some_0.drop_first()),
                ));
                lemma_refs_preserved(
                    self.grid@,
                    mid.belts@,
                    self.belts@,
                    self.inventories@,
                    self.inventories@,
                    self.miners@,
                    self.miners@,
                    self.buildings@,
                    self.buildings@,
                );
            }
        }
    }

    /// The per-tick consumption pass: every belt whose front token is
    /// stalled exactly at the exit offers it to the adjacent belt input, in
    /// registry order. Every consumed token moves from the belts into the
    /// consumed count, one for one.
    pub fn input_from_belts(&mut self)
        requires
            old(self).wf(),
        ensures
            final(self).wf(),
            final(self).grid == old(self).grid,
            final(self).miners == old(self).miners,
            final(self).buildings == old(self).buildings,
            final(self).next_token == old(self).next_token,
            final(self).created == old(self).created,
            final(self).despawned == old(self).despawned,
            final(self).belts@.len() == old(self).belts@.len(),
            final(self).inventories@.len() == old(self).inventories@.len(),
            final(self).consumed >= old(self).consumed,
            final(self).consumed - old(self).consumed == total_tokens(old(self).belts@)
                - total_tokens(final(self).belts@),
            ({
                let r = spec_drain_pass(
                    old(self).grid@,
                    belt_queues(old(self).belts@),
                    inv_views(old(self).inventories@),
                    old(self).consumed,
                    old(self).grid@.len() as int,
                );
                belt_queues(final(self).belts@) == r.0 && inv_views(final(self).inventories@)
                    == r.1 && final(self).consumed == r.2
            }),
    {
        let ghost qs0 = belt_queues(self.belts@);
        let ghost ivs0 = inv_views(self.inventories@);
        let n = self.grid.len();
        let mut gi: usize = 0;
        while gi < n
            invariant
                gi <= n,
                self.wf(),
                n == self.grid@.len(),
                self.grid == old(self).grid,
                self.miners == old(self).miners,
                self.buildings == old(self).buildings,
                self.next_token == old(self).next_token,
                self.created == old(self).created,
                self.despawned == old(self).despawned,
                self.belts@.len() == old(self).belts@.len(),
                self.inventories@.len() == old(self).inventories@.len(),
                self.consumed >= old(self).consumed,
                self.consumed - old(self).consumed == total_tokens(old(self).belts@)
                    - total_tokens(self.belts@),
                qs0 == belt_queues(old(self).belts@),
                ivs0 == inv_views(old(self).inventories@),
                ({
                    let r = spec_drain_pass(old(self).grid@, qs0, ivs0, old(self).consumed, gi as int);
                    belt_queues(self.belts@) == r.0 && inv_views(self.inventories@) == r.1
                        && self.consumed == r.2
                }),
            decreases n - gi,
        {
            self.drain_step(gi);
            gi += 1;
        }
    }

    /// One emission attempt: try each candidate position adjacent to
    /// `output` in order and place a fresh token at the emission progress on
    /// the first belt that takes it. On success the token is created (the
    /// creation count and identity counter step); when every candidate
    /// fails, no token is created and nothing is owed later.
    fn try_emit(&mut self, output: TilePos) -> (emitted: bool)
        requires
            old(self).wf(),
            old(self).created < u64::MAX,
            old(self).next_token < u64::MAX,
        ensures
            final(self).wf(),
            final(self).grid == old(self).grid,
            final(self).miners == old(self).miners,
            final(self).inventories == old(self).inventories,
            final(self).buildings == old(self).buildings,
            final(self).consumed == old(self).consumed,
            final(self).despawned == old(self).despawned,
            final(self).belts@.len() == old(self).belts@.len(),
            emitted == (spec_emit_choice(
                old(self).grid@,
                belt_queues(old(self).belts@),
                spec_output_positions(output),
                0,
            ) is Some),
            !emitted ==> *final(self) == *old(self),
            emitted ==> final(self).created == old(self).created + 1 && final(self).next_token
                == old(self).next_token + 1,
            ({
                let r = spec_emit(
                    old(self).grid@,
                    belt_queues(old(self).belts@),
                    old(self).created,
                    old(self).next_token,
                    output,
                );
                belt_queues(final(self).belts@) == r.0 && final(self).created == r.1
                    && final(self).next_token == r.2
            }),
    {
        let cands = output_positions(output);
        let n = cands.len();
        let ghost cseq = cands@;
        let mut i: usize = 0;
        while i < n
            invariant
                i <= n,
                *self == *old(self),
                self.wf(),
                self.created < u64::MAX,
                self.next_token < u64::MAX,
                n == cseq.len(),
                cands@ == cseq,
                cseq == spec_output_positions(output),
                spec_emit_choice(self.grid@, belt_queues(self.belts@), cseq, i as int)
                    == spec_emit_choice(self.grid@, belt_queues(self.belts@), cseq, 0),
            decreases n - i,
        {
            let pos = cands[i];
            match self.find_entry(pos) {
                Some(tj) => {
                    let tentry = self.grid[tj];
                    match tentry.belt {
                        Some(b) => {
                            proof {
                                assert(entry_refs_wf(
                                    self.grid@[tj as int],
                                    self.belts@,
                                    self.inventories@,
                                    self.miners@,
                                    self.buildings@,
                                ));
                                assert(self.belts@[b as int] matches Some(x) && x.wf());
                                assert(spec_resolve_belt(self.grid@, pos) == Some(b as int));
                                assert(belt_queues(self.belts@)[b as int]->Some_0
                                    == self.belts@[b as int]->Some_0@);
                            }
                            let accepted = match &self.belts[b] {
                                Some(belt) => belt.accepts(MINE_OUTPUT_PROGRESS),
                                None => false,
                            };
                            if accepted {
                                proof {
                                    assert(spec_emit_choice(
                                        self.grid@,
                                        belt_queues(self.belts@),
                                        cseq,
                                        i as int,
                                    ) == Some(b as int));
                                }
                                let tid = self.next_token;
                                let taken = vec_replace(&mut self.belts, b, None);
                                match taken {
                                    Some(mut belt) => {
                                        let ok = belt.receive(
                                            tid,
                                            ItemType::Coal.code(),
                                            MINE_OUTPUT_PROGRESS,
                                        );
                                        let ghost nb = belt;
                                        let _ = vec_replace(&mut self.belts, b, Some(belt));
                                        self.created = self.created + 1;
                                        self.next_token = self.next_token + 1;
                                        proof {
                                            assert(ok);
                                            assert(self.belts@ =~= old(self).belts@.update(
                                                b as int,
                                                Some(nb),
                                            ));
                                            assert(belt_queues(self.belts@) =~= belt_queues(
                                                old(self).belts@,
                                            ).update(
                                                b as int,
                                                Some(
                                                    belt_queues(
                                                        old(self).belts@,
                                                    )[b as int]->Some_0.push(
                                                        (
                                                            old(self).next_token,
                                                            ItemType::Coal.spec_code(),
                                                            MINE_OUTPUT_PROGRESS,
                                                        ),
                                                    ),
                                                ),
                                            ));
                                            lemma_total_update(
                                                old(self).belts@,
                                                b as int,
                                                Some(nb),
                                            );
                                            assert forall|j: int|
                                                0 <= j < self.belts@.len() implies ((
                                            #[trigger] self.belts@[j]) matches Some(x)
                                                ==> x.wf()) by {
                                                if j != b as int {
                                                    assert(self.belts@[j] == old(self).belts@[j]);
                                                }
                                            }
                                            lemma_refs_preserved(
                                                self.grid@,
                                                old(self).belts@,
                                                self.belts@,
                                                self.inventories@,
                                                self.inventories@,
                                                self.miners@,
                                                self.miners@,
                                                self.buildings@,
                                                self.buildings@,
                                            );
                                        }
                                        return true;
                                    },
                                    None => {
                                        proof {
                                            assert(false);
                                        }
                                    },
                                }
                            }
                        },
                        None => {
                            proof {
                                assert(spec_resolve_belt(self.grid@, pos) is None);
                            }
                        },
                    }
                },
                None => {
                    proof {
                        assert(spec_resolve_belt(self.grid@, pos) is None);
                    }
                },
            }
            i += 1;
        }
        proof {
            assert(spec_emit_choice(self.grid@, belt_queues(self.belts@), cseq, n as int) is None);
        }
        false
    }

    /// The per-tick production pass: every miner's timer advances by `dt`;
    /// each timer that fires attempts one emission. A miner whose emission
    /// fails creates nothing this tick and accumulates no backlog — the
    /// timer has still reset.
    pub fn mine_produce(&mut self, dt: u64)
        requires
            old(self).wf(),
            dt <= MAX_TICK,
        ensures
            final(self).wf(),
            final(self).grid == old(self).grid,
            final(self).inventories == old(self).inventories,
            final(self).buildings == old(self).buildings,
            final(self).consumed == old(self).consumed,
            final(self).despawned == old(self).despawned,
            final(self).belts@.len() == old(self).belts@.len(),
            final(self).miners@.len() == old(self).miners@.len(),
            final(self).created >= old(self).created,
            final(self).created - old(self).created == total_tokens(final(self).belts@)
                - total_tokens(old(self).belts@),
            ({
                let r = spec_produce_pass(
                    old(self).grid@,
                    old(self).miners@,
                    belt_queues(old(self).belts@),
                    old(self).created,
                    old(self).next_token,
                    old(self).miners@.len() as int,
                    dt,
                );
                final(self).miners@ == r.0 && belt_queues(final(self).belts@) == r.1
                    && final(self).created == r.2 && final(self).next_token == r.3
            }),
    {
        let ghost ms0 = self.miners@;
        let ghost qs0 = belt_queues(self.belts@);
        let n = self.miners.len();
        let mut mi: usize = 0;
        while mi < n
            invariant
                mi <= n,
                self.wf(),
                n == self.miners@.len(),
                self.grid == old(self).grid,
                self.inventories == old(self).inventories,
                self.buildings == old(self).buildings,
                self.consumed == old(self).consumed,
                self.despawned == old(self).despawned,
                self.belts@.len() == old(self).belts@.len(),
                self.miners@.len() == old(self).miners@.len(),
                self.created >= old(self).created,
                self.created - old(self).created == total_tokens(self.belts@) - total_tokens(
                    old(self).belts@,
                ),
                ms0 == old(self).miners@,
                qs0 == belt_queues(old(self).belts@),
                ({
                    let r = spec_produce_pass(
                        old(self).grid@,
                        ms0,
                        qs0,
                        old(self).created,
                        old(self).next_token,
                        mi as int,
                        dt,
                    );
                    self.miners@ == r.0 && belt_queues(self.belts@) == r.1 && self.created == r.2
                        && self.next_token == r.3
                }),
                dt <= MAX_TICK,
            decreases n - mi,
        {
            let ghost prestep = *self;
            let is_live = self.miners[mi].is_some();
            if is_live {
                let ghost premine = *self;
                let taken = vec_replace(&mut self.miners, mi, None);
                let (fired, output) = match taken {
                    Some(mut m) => {
                        proof {
                            assert(premine.miners@[mi as int] matches Some(x) && x.wf());
                        }
                        let ghost m0 = m;
                        let fired = m.tick(dt);
                        let output = m.output;
                        let ghost nm = m;
                        let _ = vec_replace(&mut self.miners, mi, Some(m));
                        proof {
                            assert(self.miners@ =~= premine.miners@.update(mi as int, Some(nm)));
                            assert(nm == (Mine {
                                period: m0.period,
                                elapsed: (if m0.elapsed + dt >= m0.period {
                                    (m0.elapsed + dt) % (m0.period as int)
                                } else {
                                    m0.elapsed + dt
                                }) as u64,
                                output: m0.output,
                            }));
                            assert(fired == (m0.elapsed + dt >= m0.period));
                            assert forall|j: int|
                                0 <= j < self.miners@.len() implies ((
                            #[trigger] self.miners@[j]) matches Some(x) ==> x.wf()) by {
                                if j != mi as int {
                                    assert(self.miners@[j] == premine.miners@[j]);
                                }
                            }
                            lemma_refs_preserved(
                                self.grid@,
                                self.belts@,
                                self.belts@,
                                self.inventories@,
                                self.inventories@,
                                premine.miners@,
                                self.miners@,
                                self.buildings@,
                                self.buildings@,
                            );
                        }
                        (fired, output)
                    },
                    None => {
                        proof {
                            assert(false);
                        }
                        (false, TilePos { x: 0, y: 0 })
                    },
                };
                if fired && self.created < u64::MAX && self.next_token < u64::MAX {
                    let _ = self.try_emit(output);
                }
                proof {
                    let r = spec_mine_step(
                        old(self).grid@,
                        prestep.miners@,
                        belt_queues(prestep.belts@),
                        prestep.created,
                        prestep.next_token,
                        mi as int,
                        dt,
                    );
                    assert(self.miners@ == r.0);
                    assert(belt_queues(self.belts@) == r.1);
                    assert(self.created == r.2);
                    assert(self.next_token == r.3);
                }
            } else {
                proof {
                    assert(prestep.miners@[mi as int] is None);
                }
            }
            mi += 1;
        }
    }

    /// Tear one entry out of the registry: tokens riding its belt are
    /// despawned (counted, never leaked), and the belt, inventory and miner
    /// it linked to die with it.
    fn remove_entry(&mut self, j: usize)
        requires
            old(self).wf(),
            j < old(self).grid@.len(),
        ensures
            final(self).wf(),
            final(self).grid@ == old(self).grid@.remove(j as int),
            final(self).buildings == old(self).buildings,
            final(self).created == old(self).created,
            final(self).consumed == old(self).consumed,
            final(self).next_token == old(self).next_token,
            final(self).despawned >= old(self).despawned,
            final(self).belts@.len() == old(self).belts@.len(),
            final(self).inventories@.len() == old(self).inventories@.len(),
            final(self).miners@.len() == old(self).miners@.len(),
            final(self).belts@ == (match old(self).grid@[j as int].belt {
                Some(b) => old(self).belts@.update(b as int, None),
                None => old(self).belts@,
            }),
            final(self).inventories@ == (match old(self).grid@[j as int].belt_input {
                Some(bi) => old(self).inventories@.update(bi.inventory as int, None),
                None => old(self).inventories@,
            }),
            final(self).miners@ == (match old(self).grid@[j as int].miner {
                Some(m) => old(self).miners@.update(m as int, None),
                None => old(self).miners@,
            }),
            final(self).despawned as int == old(self).despawned + (
            match old(self).grid@[j as int].belt {
                Some(b) => slot_count(old(self).belts@[b as int]),
                None => 0,
            }),
    {
        let entry = self.grid[j];
        match entry.belt {
            Some(b) => {
                proof {
                    assert(entry_refs_wf(
                        self.grid@[j as int],
                        self.belts@,
                        self.inventories@,
                        self.miners@,
                        self.buildings@,
                    ));
                    lemma_total_lower_bound(self.belts@, b as int);
                    lemma_tokens_in_nonneg(self.belts@, self.belts@.len() as int);
                }
                let cnt = match &self.belts[b] {
                    Some(belt) => belt.len(),
                    None => 0,
                };
                proof {
                    assert(self.belts@[b as int] matches Some(x) && x.wf());
                    assert(cnt as int == slot_count(self.belts@[b as int]));
                }
                let _ = vec_replace(&mut self.belts, b, None);
                self.despawned = self.despawned + cnt as u64;
                proof {
                    lemma_total_update(old(self).belts@, b as int, None);
                }
            },
            None => {},
        }
        match entry.belt_input {
            Some(bi) => {
                proof {
                    assert(entry_refs_wf(
                        self.grid@[j as int],
                        old(self).belts@,
                        self.inventories@,
                        self.miners@,
                        self.buildings@,
                    ));
                }
                let _ = vec_replace(&mut self.inventories, bi.inventory, None);
            },
            None => {},
        }
        match entry.miner {
            Some(m) => {
                proof {
                    assert(entry_refs_wf(
                        self.grid@[j as int],
                        old(self).belts@,
                        old(self).inventories@,
                        self.miners@,
                        self.buildings@,
                    ));
                }
                let _ = vec_replace(&mut self.miners, m, None);
            },
            None => {},
        }
        let _ = self.grid.remove(j);
        proof {
            lemma_remove_entry_wf(
                old(self).grid@,
                j as int,
                old(self).belts@,
                old(self).inventories@,
                old(self).miners@,
                old(self).buildings@,
                self.belts@,
                self.inventories@,
                self.miners@,
            );
            assert forall|i: int|
                0 <= i < self.belts@.len() implies ((#[trigger] self.belts@[i]) matches Some(x)
                ==> x.wf()) by {
                match entry.belt {
                    Some(b) => if i != b as int {
                        assert(self.belts@[i] == old(self).belts@[i]);
                    },
                    None => {
                        assert(self.belts@[i] == old(self).belts@[i]);
                    },
                }
            }
            assert forall|i: int|
                0 <= i < self.inventories@.len() implies ((
            #[trigger] self.inventories@[i]) matches Some(x) ==> x.wf()) by {
                match entry.belt_input {
                    Some(bi) => if i != bi.inventory as int {
                        assert(self.inventories@[i] == old(self).inventories@[i]);
                    },
                    None => {
                        assert(self.inventories@[i] == old(self).inventories@[i]);
                    },
                }
            }
            assert forall|i: int|
                0 <= i < self.miners@.len() implies ((#[trigger] self.miners@[i]) matches Some(x)
                ==> x.wf()) by {
                match entry.miner {
                    Some(m) => if i != m as int {
                        assert(self.miners@[i] == old(self).miners@[i]);
                    },
                    None => {
                        assert(self.miners@[i] == old(self).miners@[i]);
                    },
                }
            }
        }
    }

    /// Demolish whatever stands at the event's tile: the whole building
    /// whose tile it is, or the lone tile when no building record owns it.
    /// In-flight tokens on demolished belt segments are despawned — the
    /// documented disposal policy — and stay accounted for in the despawned
    /// count, so conservation holds through demolition.
    #[verifier::rlimit(100)]
    pub fn demolish_building(&mut self, event: DemolishEvent)
        requires
            old(self).wf(),
        ensures
            final(self).wf(),
            final(self).created == old(self).created,
            final(self).consumed == old(self).consumed,
            final(self).next_token == old(self).next_token,
            final(self).despawned >= old(self).despawned,
            spec_find_entry(old(self).grid@, event.tile_pos) == old(self).grid@.len()
                ==> *final(self) == *old(self),
            spec_find_entry(final(self).grid@, event.tile_pos) == final(self).grid@.len(),
            // The despawn count grows by exactly the tokens riding the
            // removed segments: the documented disposal policy.
            final(self).despawned as int == old(self).despawned + total_tokens(old(self).belts@)
                - total_tokens(final(self).belts@),
            // A lone tile owned by no building record: exactly that entry
            // and the arena slots it linked to die.
            ({
                let og = old(self).grid@;
                let j = spec_find_entry(og, event.tile_pos);
                j < og.len() && og[j].building is None ==> {
                    &&& final(self).grid@ == og.remove(j)
                    &&& final(self).belts@ == (match og[j].belt {
                        Some(b) => old(self).belts@.update(b as int, None),
                        None => old(self).belts@,
                    })
                    &&& final(self).inventories@ == (match og[j].belt_input {
                        Some(bi) => old(self).inventories@.update(bi.inventory as int, None),
                        None => old(self).inventories@,
                    })
                    &&& final(self).miners@ == (match og[j].miner {
                        Some(m) => old(self).miners@.update(m as int, None),
                        None => old(self).miners@,
                    })
                    &&& final(self).buildings@ == old(self).buildings@
                }
            }),
            // A tile of a building: every entry of that building is removed
            // and no other; linked belts, inventories and miners die with
            // their tiles, and every surviving entry keeps its arena slots
            // untouched.
            ({
                let og = old(self).grid@;
                let j = spec_find_entry(og, event.tile_pos);
                j < og.len() ==> (og[j].building matches Some(k) ==> {
                    &&& (forall|i: int|
                        0 <= i < final(self).grid@.len() ==> (#[trigger] final(self).grid@[i]).building
                            != Some(k))
                    &&& (forall|i: int|
                        0 <= i < og.len() && (#[trigger] og[i]).building != Some(k) ==> final(self).grid@.contains(og[i]))
                    &&& (forall|i: int|
                        0 <= i < final(self).grid@.len() ==> og.contains(
                            #[trigger] final(self).grid@[i],
                        ))
                    &&& (forall|i: int|
                        0 <= i < final(self).grid@.len() ==> ((#[trigger] final(self).grid@[i]).belt
                            matches Some(bb) ==> final(self).belts@[bb as int] == old(self).belts@[bb as int]))
                    &&& (forall|i: int|
                        0 <= i < final(self).grid@.len() ==> ((#[trigger] final(self).grid@[i]).belt_input
                            matches Some(bi) ==> final(self).inventories@[bi.inventory as int]
                            == old(self).inventories@[bi.inventory as int]))
                    &&& (forall|i: int|
                        0 <= i < final(self).grid@.len() ==> ((#[trigger] final(self).grid@[i]).miner
                            matches Some(m) ==> final(self).miners@[m as int] == old(self).miners@[m as int]))
                    &&& (forall|i: int|
                        0 <= i < og.len() && (#[trigger] og[i]).building == Some(k) ==> (og[i].belt
                            matches Some(bb) ==> final(self).belts@[bb as int] is None))
                    &&& (forall|i: int|
                        0 <= i < og.len() && (#[trigger] og[i]).building == Some(k)
                            ==> (og[i].belt_input matches Some(bi) ==> final(self).inventories@[bi.inventory as int] is None))
                    &&& (forall|i: int|
                        0 <= i < og.len() && (#[trigger] og[i]).building == Some(k) ==> (og[i].miner
                            matches Some(m) ==> final(self).miners@[m as int] is None))
                    &&& final(self).buildings@ == old(self).buildings@.update(k as int, None)
                })
            }),
    {
        let j = match self.find_entry(event.tile_pos) {
            Some(j) => j,
            None => {
                proof {
                    lemma_find_entry_none(self.grid@, event.tile_pos, 0);
                }
                return ;
            },
        };
        let entry = self.grid[j];
        match entry.building {
            None => {
                self.remove_entry(j);
                proof {
                    // Every remaining entry is one of the old ones, and the
                    // old registry held the demolished position only once.
                    let g = self.grid@;
                    let og = old(self).grid@;
                    lemma_find_entry_bound(g, event.tile_pos, 0);
                    if spec_find_entry(g, event.tile_pos) < g.len() {
                        lemma_find_entry_some(g, event.tile_pos, 0);
                        let f = spec_find_entry(g, event.tile_pos);
                        let o: int = if f < j as int {
                            f
                        } else {
                            f + 1
                        };
                        assert(g[f] == og[o]);
                        assert(false);
                    }
                    assert(spec_find_entry(g, event.tile_pos) == g.len());
                }
            },
            Some(k) => {
                let ghost og = self.grid@;
                let mut i: usize = 0;
                while i < self.grid.len()
                    invariant
                        old(self).wf(),
                        self.wf(),
                        i <= self.grid@.len(),
                        og == old(self).grid@,
                        self.created == old(self).created,
                        self.consumed == old(self).consumed,
                        self.next_token == old(self).next_token,
                        self.despawned >= old(self).despawned,
                        self.buildings == old(self).buildings,
                        self.belts@.len() == old(self).belts@.len(),
                        self.inventories@.len() == old(self).inventories@.len(),
                        self.miners@.len() == old(self).miners@.len(),
                        k < self.buildings@.len(),
                        self.buildings@[k as int] is Some,
                        forall|ii: int|
                            0 <= ii < i ==> (#[trigger] self.grid@[ii]).building != Some(k),
                        forall|ii: int|
                            0 <= ii < self.grid@.len() ==> ((#[trigger] self.grid@[ii]).pos
                                == event.tile_pos ==> self.grid@[ii].building == Some(k)),
                        // Nothing is ever added, survivors are kept, their
                        // arena slots are untouched, and the slots of
                        // already-removed entries are dead.
                        forall|ii: int|
                            0 <= ii < self.grid@.len() ==> og.contains(#[trigger] self.grid@[ii]),
                        forall|oi: int|
                            0 <= oi < og.len() && (#[trigger] og[oi]).building != Some(k)
                                ==> self.grid@.contains(og[oi]),
                        forall|ii: int|
                            0 <= ii < self.grid@.len() ==> ((#[trigger] self.grid@[ii]).belt
                                matches Some(bb) ==> self.belts@[bb as int] == old(self).belts@[bb as int]),
                        forall|ii: int|
                            0 <= ii < self.grid@.len() ==> ((#[trigger] self.grid@[ii]).belt_input
                                matches Some(bi) ==> self.inventories@[bi.inventory as int] == old(self).inventories@[bi.inventory as int]),
                        forall|ii: int|
                            0 <= ii < self.grid@.len() ==> ((#[trigger] self.grid@[ii]).miner
                                matches Some(m) ==> self.miners@[m as int] == old(self).miners@[m as int]),
                        forall|oi: int|
                            0 <= oi < og.len() && (#[trigger] og[oi]).building == Some(k)
                                ==> (og[oi].belt matches Some(bb) ==> self.belts@[bb as int]
                                is None || self.grid@.contains(og[oi])),
                        forall|oi: int|
                            0 <= oi < og.len() && (#[trigger] og[oi]).building == Some(k)
                                ==> (og[oi].belt_input matches Some(bi)
                                ==> self.inventories@[bi.inventory as int] is None
                                || self.grid@.contains(og[oi])),
                        forall|oi: int|
                            0 <= oi < og.len() && (#[trigger] og[oi]).building == Some(k)
                                ==> (og[oi].miner matches Some(m) ==> self.miners@[m as int]
                                is None || self.grid@.contains(og[oi])),
                    decreases self.grid@.len() - i,
                {
                    let e = self.grid[i];
                    let doomed = match e.building {
                        Some(kk) => kk == k,
                        None => false,
                    };
                    if doomed {
                        let ghost pre = *self;
                        self.remove_entry(i);
                        proof {
                            let pg = pre.grid@;
                            assert forall|ii: int|
                                0 <= ii < self.grid@.len() && (#[trigger] self.grid@[ii]).pos
                                == event.tile_pos implies self.grid@[ii].building == Some(k) by {
                                let o: int = if ii < i as int {
                                    ii
                                } else {
                                    ii + 1
                                };
                                assert(self.grid@[ii] == pg[o]);
                            }
                            assert forall|ii: int|
                                0 <= ii < i implies (#[trigger] self.grid@[ii]).building != Some(
                                k,
                            ) by {
                                assert(self.grid@[ii] == pg[ii]);
                            }
                            // Remaining entries are old entries, with their
                            // arena slots untouched (the removed entry never
                            // shared a slot, by injectivity).
                            assert forall|ii: int|
                                0 <= ii < self.grid@.len() implies og.contains(
                                #[trigger] self.grid@[ii],
                            ) && ((self.grid@[ii]).belt matches Some(bb) ==> self.belts@[bb as int]
                                == old(self).belts@[bb as int]) && ((self.grid@[ii]).belt_input
                                matches Some(bi) ==> self.inventories@[bi.inventory as int] == old(self).inventories@[bi.inventory as int]) && ((self.grid@[ii]).miner
                                matches Some(m) ==> self.miners@[m as int] == old(self).miners@[m as int]) by {
                                let o: int = if ii < i as int {
                                    ii
                                } else {
                                    ii + 1
                                };
                                assert(self.grid@[ii] == pg[o]);
                                if pg[o].belt is Some && pg[i as int].belt is Some {
                                    assert(pg[o].belt != pg[i as int].belt);
                                }
                                if pg[o].belt_input is Some && pg[i as int].belt_input is Some {
                                    assert(pg[o].belt_input != pg[i as int].belt_input);
                                }
                                if pg[o].miner is Some && pg[i as int].miner is Some {
                                    assert(pg[o].miner != pg[i as int].miner);
                                }
                            }
                            // Survivors stay present: the removed entry
                            // belongs to building k, so it is not one of them.
                            assert forall|oi: int|
                                0 <= oi < og.len() && (#[trigger] og[oi]).building != Some(
                                k,
                            ) implies self.grid@.contains(og[oi]) by {
                                let w = choose|w: int| 0 <= w < pg.len() && pg[w] == og[oi];
                                assert(pg[w] == og[oi]);
                                assert(w != i as int);
                                let w2: int = if w < i as int {
                                    w
                                } else {
                                    w - 1
                                };
                                assert(self.grid@[w2] == pg[w]);
                            }
                            // Slots of removed entries are dead; the entry
                            // removed just now had its slots killed.
                            assert forall|oi: int|
                                0 <= oi < og.len() && (#[trigger] og[oi]).building == Some(
                                k,
                            ) implies (og[oi].belt matches Some(bb) ==> self.belts@[bb as int]
                                is None || self.grid@.contains(og[oi])) by {
                                assert(entry_refs_wf(
                                    pg[i as int],
                                    pre.belts@,
                                    pre.inventories@,
                                    pre.miners@,
                                    pre.buildings@,
                                ));
                                if pre.grid@.contains(og[oi]) {
                                    let w = choose|w: int|
                                        0 <= w < pg.len() && pg[w] == og[oi];
                                    assert(pg[w] == og[oi]);
                                    if w != i as int {
                                        let w2: int = if w < i as int {
                                            w
                                        } else {
                                            w - 1
                                        };
                                        assert(0 <= w2 < self.grid@.len());
                                        assert(self.grid@[w2] == pg[w]);
                                        assert(self.grid@[w2] == og[oi]);
                                        assert(self.grid@.contains(og[oi]));
                                    } else {
                                        assert(og[oi] == pg[i as int]);
                                        match pg[i as int].belt {
                                            Some(x) => {
                                                assert(self.belts@[x as int] is None);
                                            },
                                            None => {},
                                        }
                                    }
                                } else {
                                    assert(entry_refs_wf(
                                        og[oi],
                                        old(self).belts@,
                                        old(self).inventories@,
                                        old(self).miners@,
                                        old(self).buildings@,
                                    ));
                                    match og[oi].belt {
                                        Some(bb) => {
                                            assert(pre.belts@[bb as int] is None);
                                            assert(self.belts@[bb as int] is None);
                                        },
                                        None => {},
                                    }
                                }
                            }
                            assert forall|oi: int|
                                0 <= oi < og.len() && (#[trigger] og[oi]).building == Some(
                                k,
                            ) implies (og[oi].belt_input matches Some(bi)
                                ==> self.inventories@[bi.inventory as int] is None
                                || self.grid@.contains(og[oi])) by {
                                assert(entry_refs_wf(
                                    pg[i as int],
                                    pre.belts@,
                                    pre.inventories@,
                                    pre.miners@,
                                    pre.buildings@,
                                ));
                                if pre.grid@.contains(og[oi]) {
                                    let w = choose|w: int|
                                        0 <= w < pg.len() && pg[w] == og[oi];
                                    assert(pg[w] == og[oi]);
                                    if w != i as int {
                                        let w2: int = if w < i as int {
                                            w
                                        } else {
                                            w - 1
                                        };
                                        assert(0 <= w2 < self.grid@.len());
                                        assert(self.grid@[w2] == pg[w]);
                                        assert(self.grid@[w2] == og[oi]);
                                        assert(self.grid@.contains(og[oi]));
                                    } else {
                                        assert(og[oi] == pg[i as int]);
                                        match pg[i as int].belt_input {
                                            Some(x) => {
                                                assert(self.inventories@[x.inventory as int] is None);
                                            },
                                            None => {},
                                        }
                                    }
                                } else {
                                    assert(entry_refs_wf(
                                        og[oi],
                                        old(self).belts@,
                                        old(self).inventories@,
                                        old(self).miners@,
                                        old(self).buildings@,
                                    ));
                                    match og[oi].belt_input {
                                        Some(bi) => {
                                            assert(pre.inventories@[bi.inventory as int] is None);
                                            assert(self.inventories@[bi.inventory as int] is None);
                                        },
                                        None => {},
                                    }
                                }
                            }
                            assert forall|oi: int|
                                0 <= oi < og.len() && (#[trigger] og[oi]).building == Some(
                                k,
                            ) implies (og[oi].miner matches Some(m) ==> self.miners@[m as int]
                                is None || self.grid@.contains(og[oi])) by {
                                assert(entry_refs_wf(
                                    pg[i as int],
                                    pre.belts@,
                                    pre.inventories@,
                                    pre.miners@,
                                    pre.buildings@,
                                ));
                                if pre.grid@.contains(og[oi]) {
                                    let w = choose|w: int|
                                        0 <= w < pg.len() && pg[w] == og[oi];
                                    assert(pg[w] == og[oi]);
                                    if w != i as int {
                                        let w2: int = if w < i as int {
                                            w
                                        } else {
                                            w - 1
                                        };
                                        assert(0 <= w2 < self.grid@.len());
                                        assert(self.grid@[w2] == pg[w]);
                                        assert(self.grid@[w2] == og[oi]);
                                        assert(self.grid@.contains(og[oi]));
                                    } else {
                                        assert(og[oi] == pg[i as int]);
                                        match pg[i as int].miner {
                                            Some(x) => {
                                                assert(self.miners@[x as int] is None);
                                            },
                                            None => {},
                                        }
                                    }
                                } else {
                                    assert(entry_refs_wf(
                                        og[oi],
                                        old(self).belts@,
                                        old(self).inventories@,
                                        old(self).miners@,
                                        old(self).buildings@,
                                    ));
                                    match og[oi].miner {
                                        Some(m) => {
                                            assert(pre.miners@[m as int] is None);
                                            assert(self.miners@[m as int] is None);
                                        },
                                        None => {},
                                    }
                                }
                            }
                        }
                    } else {
                        i += 1;
                    }
                }
                proof {
                    // No entry of building k remains, so the dead-slot
                    // disjunctions settle on the dead side.
                    assert forall|oi: int|
                        0 <= oi < og.len() && (#[trigger] og[oi]).building == Some(
                        k,
                    ) implies !self.grid@.contains(og[oi]) by {
                        if self.grid@.contains(og[oi]) {
                            let w = choose|w: int|
                                0 <= w < self.grid@.len() && self.grid@[w] == og[oi];
                            assert(self.grid@[w].building != Some(k));
                        }
                    }
                }
                // No tile of the building remains; release its record.
                let _ = vec_replace(&mut self.buildings, k, None);
                proof {
                    let g = self.grid@;
                    assert forall|ii: int|
                        0 <= ii < g.len() implies entry_refs_wf(
                        #[trigger] g[ii],
                        self.belts@,
                        self.inventories@,
                        self.miners@,
                        self.buildings@,
                    ) by {
                        assert(entry_refs_wf(
                            g[ii],
                            self.belts@,
                            self.inventories@,
                            self.miners@,
                            old(self).buildings@,
                        ));
                        assert(g[ii].building != Some(k));
                    }
                    lemma_find_entry_bound(g, event.tile_pos, 0);
                    if spec_find_entry(g, event.tile_pos) < g.len() {
                        lemma_find_entry_some(g, event.tile_pos, 0);
                        assert(false);
                    }
                    assert(spec_find_entry(self.grid@, event.tile_pos) == self.grid@.len());
                }
            },
        }
    }

    /// Report whether a building placed from `template` at `origin` facing
    /// `direction` could be built right now: every footprint tile must land
    /// on a free, in-bounds cell. This is the read-only query behind build
    /// guides; it never mutates the world.
    pub fn is_possible_to_build(
        &self,
        template: &BuildingTemplate,
        origin: TilePos,
        direction: crate::direction::MapDirection,
    ) -> (r: bool)
        requires
            self.wf(),
        ensures
            r == spec_can_place(self.grid@, template.instructions.spec_get(direction)@, origin),
    {
        let ghost fp = template.instructions.spec_get(direction)@;
        let placed = template.place(origin, direction);
        let instr = match placed.instructions() {
            Some(v) => v,
            None => {
                proof {
                    if spec_can_place(self.grid@, fp, origin) {
                        assert forall|ii: int|
                            0 <= ii < placed.spec_footprint().len() implies spec_translation_fits(
                            #[trigger] placed.spec_footprint()[ii],
                            placed.origin,
                        ) by {
                            assert(placed.spec_footprint() == fp);
                            assert(spec_translation_fits(fp[ii], origin));
                        }
                        assert(false);
                    }
                }
                return false;
            },
        };
        let n = instr.len();
        let mut i: usize = 0;
        while i < n
            invariant
                i <= n,
                n == fp.len(),
                fp == template.instructions.spec_get(direction)@,
                instr@.len() == fp.len(),
                forall|j: int| 0 <= j < fp.len() ==> spec_translation_fits(#[trigger] fp[j], origin),
                forall|j: int|
                    0 <= j < fp.len() ==> #[trigger] instr@[j] == spec_translated(fp[j], origin),
                forall|j: int|
                    0 <= j < i ==> (#[trigger] instr@[j]).0.spec_in_bounds() && spec_find_entry(
                        self.grid@,
                        instr@[j].0,
                    ) == self.grid@.len(),
            decreases n - i,
        {
            let (pos, _) = instr[i];
            if !pos.in_bounds() {
                proof {
                    assert(instr@[i as int] == spec_translated(fp[i as int], origin));
                    assert(!spec_can_place(self.grid@, fp, origin));
                }
                return false;
            }
            match self.find_entry(pos) {
                Some(_) => {
                    proof {
                        lemma_find_entry_bound(self.grid@, pos, 0);
                        assert(instr@[i as int] == spec_translated(fp[i as int], origin));
                        assert(!spec_can_place(self.grid@, fp, origin));
                    }
                    return false;
                },
                None => {},
            }
            i += 1;
        }
        proof {
            assert forall|ii: int|
                0 <= ii < fp.len() implies spec_translation_fits(#[trigger] fp[ii], origin)
                && spec_translated(fp[ii], origin).0.spec_in_bounds() && spec_find_entry(
                self.grid@,
                spec_translated(fp[ii], origin).0,
            ) == self.grid@.len() by {
                assert(instr@[ii] == spec_translated(fp[ii], origin));
                assert(instr@[ii].0.spec_in_bounds());
            }
        }
        true
    }

    /// Construct a building from its placed template: validate that every
    /// footprint tile lands on a free, in-bounds cell, then create the
    /// registry entries, a fresh empty belt segment for each belt tile, and
    /// the building record. Rejection mutates nothing.
    #[verifier::rlimit(100)]
    pub fn construct_building(
        &mut self,
        template: &BuildingTemplate,
        origin: TilePos,
        direction: crate::direction::MapDirection,
    ) -> (r: Result<usize, PlacementRejected>)
        requires
            old(self).wf(),
            template.wf(),
        ensures
            final(self).wf(),
            r is Ok <==> spec_can_place(
                old(self).grid@,
                template.instructions.spec_get(direction)@,
                origin,
            ),
            r is Err ==> *final(self) == *old(self),
            final(self).created == old(self).created,
            final(self).consumed == old(self).consumed,
            final(self).despawned == old(self).despawned,
            final(self).next_token == old(self).next_token,
            final(self).miners == old(self).miners,
            final(self).inventories == old(self).inventories,
            total_tokens(final(self).belts@) == total_tokens(old(self).belts@),
            r matches Ok(k) ==> {
                let fp = template.instructions.spec_get(direction)@;
                &&& k == old(self).buildings@.len()
                &&& final(self).buildings@.len() == old(self).buildings@.len() + 1
                &&& final(self).buildings@[k as int] matches Some(bld) && bld.building_type
                    == template.building_type && bld.layout.tiles@.len() == fp.len()
                    && (forall|j: int|
                        0 <= j < fp.len()
                            ==> #[trigger] bld.layout.tiles@[j] == spec_translated(fp[j], origin))
                &&& final(self).grid@.len() == old(self).grid@.len() + fp.len()
                &&& (forall|j: int|
                    0 <= j < old(self).grid@.len() ==> final(self).grid@[j] == old(self).grid@[j])
                &&& (forall|j: int|
                    0 <= j < fp.len() ==> (#[trigger] final(self).grid@[old(self).grid@.len() + j]).pos
                        == spec_translated(fp[j], origin).0
                        && final(self).grid@[old(self).grid@.len() + j].tile == fp[j].1
                        && final(self).grid@[old(self).grid@.len() + j].building == Some(k)
                        && final(self).grid@[old(self).grid@.len() + j].miner is None
                        && final(self).grid@[old(self).grid@.len() + j].belt_input is None
                        && (final(self).grid@[old(self).grid@.len() + j].belt is Some
                        <==> fp[j].1.spec_is_belt()))
                &&& (forall|j: int|
                    0 <= j < fp.len() ==> ((#[trigger] final(self).grid@[old(self).grid@.len() + j]).belt
                        matches Some(bb) ==> bb < final(self).belts@.len()
                        && (final(self).belts@[bb as int] matches Some(nb) && nb@.len() == 0)))
            },
    {
        let ghost fp = template.instructions.spec_get(direction)@;
        let placed = template.place(origin, direction);
        let instr = match placed.instructions() {
            Some(v) => v,
            None => {
                proof {
                    if spec_can_place(self.grid@, fp, origin) {
                        assert forall|ii: int|
                            0 <= ii < placed.spec_footprint().len() implies spec_translation_fits(
                            #[trigger] placed.spec_footprint()[ii],
                            placed.origin,
                        ) by {
                            assert(placed.spec_footprint() == fp);
                            assert(spec_translation_fits(fp[ii], origin));
                        }
                        assert(false);
                    }
                }
                return Err(PlacementRejected);
            },
        };
        let n = instr.len();

        // Validation pass: every translated tile in bounds and free.
        let mut i: usize = 0;
        while i < n
            invariant
                i <= n,
                *self == *old(self),
                self.wf(),
                n == fp.len(),
                fp == template.instructions.spec_get(direction)@,
                instr@.len() == fp.len(),
                forall|j: int| 0 <= j < fp.len() ==> spec_translation_fits(#[trigger] fp[j], origin),
                forall|j: int|
                    0 <= j < fp.len() ==> #[trigger] instr@[j] == spec_translated(fp[j], origin),
                forall|j: int|
                    0 <= j < i ==> (#[trigger] instr@[j]).0.spec_in_bounds() && spec_find_entry(
                        self.grid@,
                        instr@[j].0,
                    ) == self.grid@.len(),
            decreases n - i,
        {
            let (pos, _) = instr[i];
            if !pos.in_bounds() {
                proof {
                    assert(instr@[i as int] == spec_translated(fp[i as int], origin));
                    assert(!spec_can_place(old(self).grid@, fp, origin));
                }
                return Err(PlacementRejected);
            }
            match self.find_entry(pos) {
                Some(_) => {
                    proof {
                        lemma_find_entry_bound(self.grid@, pos, 0);
                        assert(instr@[i as int] == spec_translated(fp[i as int], origin));
                        assert(spec_find_entry(old(self).grid@, spec_translated(fp[i as int], origin).0)
                            != old(self).grid@.len());
                        assert(!spec_can_place(old(self).grid@, fp, origin));
                    }
                    return Err(PlacementRejected);
                },
                None => {},
            }
            i += 1;
        }
        proof {
            assert forall|ii: int|
                0 <= ii < fp.len() implies spec_translation_fits(#[trigger] fp[ii], origin)
                && spec_translated(fp[ii], origin).0.spec_in_bounds() && spec_find_entry(
                old(self).grid@,
                spec_translated(fp[ii], origin).0,
            ) == old(self).grid@.len() by {
                assert(instr@[ii] == spec_translated(fp[ii], origin));
                assert(instr@[ii].0.spec_in_bounds());
                assert(spec_find_entry(self.grid@, instr@[ii].0) == self.grid@.len());
            }
            assert(spec_can_place(old(self).grid@, fp, origin));
            // Distinct offsets translate to distinct positions.
            assert forall|j1: int, j2: int|
                0 <= j1 < j2 < fp.len() implies (#[trigger] instr@[j1]).0 != (
            #[trigger] instr@[j2]).0 by {
                assert(fp[j1].0 != fp[j2].0);
                assert(spec_translation_fits(fp[j1], origin));
                assert(spec_translation_fits(fp[j2], origin));
            }
            // No translated position is already occupied.
            assert forall|j: int, g: int|
                0 <= j < fp.len() && 0 <= g < old(self).grid@.len() implies (
            #[trigger] old(self).grid@[g]).pos != (#[trigger] instr@[j]).0 by {
                lemma_find_entry_none(old(self).grid@, instr@[j].0, 0);
            }
        }

        // Apply pass.
        let k = self.buildings.len();
        let ghost g0 = self.grid@;
        let ghost b0 = self.belts@;
        let mut layout_tiles: Vec<FootprintTile> = Vec::new();
        self.buildings.push(
            Some(
                Building {
                    building_type: template.building_type,
                    layout: BuildingLayout { tiles: Vec::new() },
                },
            ),
        );
        proof {
            lemma_refs_preserved_buildings(
                self.grid@,
                self.belts@,
                self.inventories@,
                self.miners@,
                old(self).buildings@,
                self.buildings@,
            );
        }
        let mut j: usize = 0;
        while j < n
            invariant
                j <= n,
                self.wf(),
                n == fp.len(),
                instr@.len() == fp.len(),
                k == old(self).buildings@.len(),
                g0 == old(self).grid@,
                b0 == old(self).belts@,
                self.created == old(self).created,
                self.consumed == old(self).consumed,
                self.despawned == old(self).despawned,
                self.next_token == old(self).next_token,
                self.miners == old(self).miners,
                self.inventories == old(self).inventories,
                self.buildings@.len() == old(self).buildings@.len() + 1,
                self.buildings@[k as int] matches Some(bld) && bld.building_type
                    == template.building_type,
                forall|jj: int|
                    0 <= jj < old(self).buildings@.len() ==> #[trigger] self.buildings@[jj] == old(self).buildings@[jj],
                total_tokens(self.belts@) == total_tokens(b0),
                self.belts@.len() >= b0.len(),
                forall|bb: int| 0 <= bb < b0.len() ==> #[trigger] self.belts@[bb] == b0[bb],
                self.grid@.len() == g0.len() + j,
                forall|jj: int| 0 <= jj < g0.len() ==> #[trigger] self.grid@[jj] == g0[jj],
                forall|jj: int|
                    0 <= jj < j ==> (#[trigger] self.grid@[g0.len() + jj]).pos == instr@[jj].0
                        && self.grid@[g0.len() + jj].tile == instr@[jj].1
                        && self.grid@[g0.len() + jj].building == Some(k)
                        && self.grid@[g0.len() + jj].miner is None
                        && self.grid@[g0.len() + jj].belt_input is None
                        && (self.grid@[g0.len() + jj].belt is Some <==> instr@[jj].1.spec_is_belt()),
                forall|jj: int|
                    0 <= jj < j ==> ((#[trigger] self.grid@[g0.len() + jj]).belt matches Some(bb)
                        ==> bb < self.belts@.len()
                        && (self.belts@[bb as int] matches Some(nb) && nb@.len() == 0)),
                forall|j1: int, j2: int|
                    0 <= j1 < j2 < fp.len() ==> (#[trigger] instr@[j1]).0 != (
                    #[trigger] instr@[j2]).0,
                forall|jj: int, g: int|
                    0 <= jj < fp.len() && 0 <= g < g0.len() ==> (#[trigger] g0[g]).pos != (
                    #[trigger] instr@[jj]).0,
                forall|jj: int|
                    0 <= jj < fp.len() ==> #[trigger] instr@[jj] == spec_translated(fp[jj], origin),
                layout_tiles@ == instr@.subrange(0, j as int),
            decreases n - j,
        {
            let (pos, tile) = instr[j];
            let ghost pre = *self;
            let belt_ref: Option<usize> = if tile.is_belt() {
                let bidx = self.belts.len();
                self.belts.push(Some(Belt::new()));
                proof {
                    lemma_total_push(pre.belts@, self.belts@[bidx as int]);
                }
                Some(bidx)
            } else {
                None
            };
            let e = TileEntry { pos, tile, building: Some(k), belt: belt_ref, belt_input: None, miner: None };
            self.grid.push(e);
            layout_tiles.push((pos, tile));
            proof {
                let g = self.grid@;
                let last = g.len() - 1;
                assert(g[last] == e);
                assert(layout_tiles@ =~= instr@.subrange(0, j as int + 1));
                // Position uniqueness with the new entry.
                assert forall|i1: int, i2: int|
                    0 <= i1 < i2 < g.len() implies (#[trigger] g[i1]).pos != (
                #[trigger] g[i2]).pos by {
                    if i2 == last {
                        if i1 < g0.len() {
                            assert(g[i1] == g0[i1]);
                            assert(g0[i1].pos != instr@[j as int].0);
                        } else {
                            let idx = i1 - g0.len();
                            assert(0 <= idx < j);
                            assert(g[i1] == pre.grid@[g0.len() + idx]);
                            assert(g[i1].pos == instr@[idx].0);
                            assert(instr@[idx].0 != instr@[j as int].0);
                        }
                    } else {
                        assert(g[i1] == pre.grid@[i1]);
                        assert(g[i2] == pre.grid@[i2]);
                    }
                }
                // Arena links of every entry stay live.
                assert forall|ii: int|
                    0 <= ii < g.len() implies entry_refs_wf(
                    #[trigger] g[ii],
                    self.belts@,
                    self.inventories@,
                    self.miners@,
                    self.buildings@,
                ) by {
                    if ii < last {
                        assert(g[ii] == pre.grid@[ii]);
                        assert(entry_refs_wf(
                            pre.grid@[ii],
                            pre.belts@,
                            pre.inventories@,
                            pre.miners@,
                            pre.buildings@,
                        ));
                        match g[ii].belt {
                            Some(x) => {
                                assert(self.belts@[x as int] == pre.belts@[x as int]);
                            },
                            None => {},
                        }
                    }
                }
                // Belt links stay unshared: a fresh index is above them all.
                assert forall|i1: int, i2: int|
                    0 <= i1 < i2 < g.len() && (#[trigger] g[i1]).belt is Some && (
                #[trigger] g[i2]).belt is Some implies g[i1].belt != g[i2].belt by {
                    if i2 == last {
                        assert(g[i1] == pre.grid@[i1]);
                        assert(entry_refs_wf(
                            pre.grid@[i1],
                            pre.belts@,
                            pre.inventories@,
                            pre.miners@,
                            pre.buildings@,
                        ));
                    } else {
                        assert(g[i1] == pre.grid@[i1]);
                        assert(g[i2] == pre.grid@[i2]);
                    }
                }
                assert forall|i1: int, i2: int|
                    0 <= i1 < i2 < g.len() && (#[trigger] g[i1]).belt_input is Some && (
                #[trigger] g[i2]).belt_input is Some implies g[i1].belt_input != g[i2].belt_input by {
                    if i2 != last {
                        assert(g[i1] == pre.grid@[i1]);
                        assert(g[i2] == pre.grid@[i2]);
                    }
                }
                assert forall|i1: int, i2: int|
                    0 <= i1 < i2 < g.len() && (#[trigger] g[i1]).miner is Some && (
                #[trigger] g[i2]).miner is Some implies g[i1].miner != g[i2].miner by {
                    if i2 != last {
                        assert(g[i1] == pre.grid@[i1]);
                        assert(g[i2] == pre.grid@[i2]);
                    }
                }
                assert forall|bb: int|
                    0 <= bb < self.belts@.len() implies ((#[trigger] self.belts@[bb]) matches Some(
                x) ==> x.wf()) by {
                    if bb < pre.belts@.len() {
                        assert(self.belts@[bb] == pre.belts@[bb]);
                    }
                }
            }
            j += 1;
        }
        // Record the as-built layout on the building.
        let record = Building {
            building_type: template.building_type,
            layout: BuildingLayout { tiles: layout_tiles },
        };
        let ghost pre2 = *self;
        let _ = vec_replace(&mut self.buildings, k, Some(record));
        proof {
            assert forall|ii: int|
                0 <= ii < self.grid@.len() implies entry_refs_wf(
                #[trigger] self.grid@[ii],
                self.belts@,
                self.inventories@,
                self.miners@,
                self.buildings@,
            ) by {
                assert(entry_refs_wf(
                    pre2.grid@[ii],
                    pre2.belts@,
                    pre2.inventories@,
                    pre2.miners@,
                    pre2.buildings@,
                ));
            }
        }
        Ok(k)
    }

    /// Change the structure tile recorded at registry index `j`, leaving
    /// the position and every arena link as they are.
    fn set_tile_type(&mut self, j: usize, tile: BuildingTileType)
        requires
            old(self).wf(),
            j < old(self).grid@.len(),
        ensures
            final(self).wf(),
            final(self).grid@.len() == old(self).grid@.len(),
            forall|i: int|
                0 <= i < old(self).grid@.len() && i != j ==> final(self).grid@[i] == old(self).grid@[i],
            final(self).grid@[j as int].pos == old(self).grid@[j as int].pos,
            final(self).grid@[j as int].tile == tile,
            final(self).grid@[j as int].belt == old(self).grid@[j as int].belt,
            final(self).grid@[j as int].belt_input == old(self).grid@[j as int].belt_input,
            final(self).grid@[j as int].miner == old(self).grid@[j as int].miner,
            final(self).grid@[j as int].building == old(self).grid@[j as int].building,
            final(self).belts == old(self).belts,
            final(self).miners == old(self).miners,
            final(self).inventories == old(self).inventories,
            final(self).buildings == old(self).buildings,
            final(self).created == old(self).created,
            final(self).consumed == old(self).consumed,
            final(self).despawned == old(self).despawned,
            final(self).next_token == old(self).next_token,
    {
        let e = self.grid[j];
        let e2 = TileEntry {
            pos: e.pos,
            tile,
            building: e.building,
            belt: e.belt,
            belt_input: e.belt_input,
            miner: e.miner,
        };
        let _ = vec_replace(&mut self.grid, j, e2);
        proof {
            let g = self.grid@;
            let og = old(self).grid@;
            assert forall|i1: int, i2: int| 0 <= i1 < i2 < g.len() implies (
            #[trigger] g[i1]).pos != (#[trigger] g[i2]).pos by {
                assert(g[i1].pos == og[i1].pos);
                assert(g[i2].pos == og[i2].pos);
            }
            assert forall|i1: int, i2: int|
                0 <= i1 < i2 < g.len() && (#[trigger] g[i1]).belt is Some && (
            #[trigger] g[i2]).belt is Some implies g[i1].belt != g[i2].belt by {
                assert(g[i1].belt == og[i1].belt);
                assert(g[i2].belt == og[i2].belt);
            }
            assert forall|i1: int, i2: int|
                0 <= i1 < i2 < g.len() && (#[trigger] g[i1]).belt_input is Some && (
            #[trigger] g[i2]).belt_input is Some implies g[i1].belt_input != g[i2].belt_input by {
                assert(g[i1].belt_input == og[i1].belt_input);
                assert(g[i2].belt_input == og[i2].belt_input);
            }
            assert forall|i1: int, i2: int|
                0 <= i1 < i2 < g.len() && (#[trigger] g[i1]).miner is Some && (
            #[trigger] g[i2]).miner is Some implies g[i1].miner != g[i2].miner by {
                assert(g[i1].miner == og[i1].miner);
                assert(g[i2].miner == og[i2].miner);
            }
            assert forall|i: int|
                0 <= i < g.len() implies entry_refs_wf(
                #[trigger] g[i],
                self.belts@,
                self.inventories@,
                self.miners@,
                self.buildings@,
            ) by {
                assert(entry_refs_wf(
                    og[i],
                    self.belts@,
                    self.inventories@,
                    self.miners@,
                    self.buildings@,
                ));
                assert(g[i].belt == og[i].belt);
                assert(g[i].belt_input == og[i].belt_input);
                assert(g[i].miner == og[i].miner);
                assert(g[i].building == og[i].building);
            }
        }
    }

    /// Append a fresh, empty belt segment and its registry entry at the
    /// free position `pos`.
    fn push_belt_entry(&mut self, pos: TilePos, tile: BuildingTileType)
        requires
            old(self).wf(),
            spec_find_entry(old(self).grid@, pos) == old(self).grid@.len(),
        ensures
            final(self).wf(),
            final(self).grid@.len() == old(self).grid@.len() + 1,
            forall|i: int|
                0 <= i < old(self).grid@.len() ==> final(self).grid@[i] == old(self).grid@[i],
            final(self).grid@.last() == (TileEntry {
                pos,
                tile,
                building: None,
                belt: Some(old(self).belts@.len() as usize),
                belt_input: None,
                miner: None,
            }),
            final(self).belts@.len() == old(self).belts@.len() + 1,
            forall|i: int|
                0 <= i < old(self).belts@.len() ==> final(self).belts@[i] == old(self).belts@[i],
            final(self).belts@.last() matches Some(b) && b@ == Seq::<BeltSlot>::empty(),
            total_tokens(final(self).belts@) == total_tokens(old(self).belts@),
            final(self).miners == old(self).miners,
            final(self).inventories == old(self).inventories,
            final(self).buildings == old(self).buildings,
            final(self).created == old(self).created,
            final(self).consumed == old(self).consumed,
            final(self).despawned == old(self).despawned,
            final(self).next_token == old(self).next_token,
    {
        let bidx = self.belts.len();
        self.belts.push(Some(Belt::new()));
        proof {
            lemma_total_push(old(self).belts@, self.belts@[bidx as int]);
            lemma_find_entry_none(old(self).grid@, pos, 0);
        }
        let e = TileEntry { pos, tile, building: None, belt: Some(bidx), belt_input: None, miner: None };
        let ghost pre = *self;
        self.grid.push(e);
        proof {
            let g = self.grid@;
            let og = old(self).grid@;
            let last = g.len() - 1;
            assert forall|i1: int, i2: int| 0 <= i1 < i2 < g.len() implies (
            #[trigger] g[i1]).pos != (#[trigger] g[i2]).pos by {
                if i2 == last {
                    assert(g[i1] == og[i1]);
                } else {
                    assert(g[i1] == og[i1]);
                    assert(g[i2] == og[i2]);
                }
            }
            assert forall|i1: int, i2: int|
                0 <= i1 < i2 < g.len() && (#[trigger] g[i1]).belt is Some && (
            #[trigger] g[i2]).belt is Some implies g[i1].belt != g[i2].belt by {
                if i2 == last {
                    assert(g[i1] == og[i1]);
                    assert(entry_refs_wf(
                        og[i1],
                        old(self).belts@,
                        self.inventories@,
                        self.miners@,
                        self.buildings@,
                    ));
                } else {
                    assert(g[i1] == og[i1]);
                    assert(g[i2] == og[i2]);
                }
            }
            assert forall|i1: int, i2: int|
                0 <= i1 < i2 < g.len() && (#[trigger] g[i1]).belt_input is Some && (
            #[trigger] g[i2]).belt_input is Some implies g[i1].belt_input != g[i2].belt_input by {
                if i2 != last {
                    assert(g[i1] == og[i1]);
                    assert(g[i2] == og[i2]);
                }
            }
            assert forall|i1: int, i2: int|
                0 <= i1 < i2 < g.len() && (#[trigger] g[i1]).miner is Some && (
            #[trigger] g[i2]).miner is Some implies g[i1].miner != g[i2].miner by {
                if i2 != last {
                    assert(g[i1] == og[i1]);
                    assert(g[i2] == og[i2]);
                }
            }
            assert forall|i: int|
                0 <= i < g.len() implies entry_refs_wf(
                #[trigger] g[i],
                self.belts@,
                self.inventories@,
                self.miners@,
                self.buildings@,
            ) by {
                if i < last {
                    assert(g[i] == og[i]);
                    assert(entry_refs_wf(
                        og[i],
                        old(self).belts@,
                        self.inventories@,
                        self.miners@,
                        self.buildings@,
                    ));
                    match g[i].belt {
                        Some(x) => {
                            assert(self.belts@[x as int] == old(self).belts@[x as int]);
                        },
                        None => {},
                    }
                }
            }
            assert forall|bb: int|
                0 <= bb < self.belts@.len() implies ((#[trigger] self.belts@[bb]) matches Some(x)
                ==> x.wf()) by {
                if bb < old(self).belts@.len() {
                    assert(self.belts@[bb] == old(self).belts@[bb]);
                }
            }
        }
    }

    /// Lay a belt tile at `pos` while dragging from `last_placed`.
    ///
    /// The new segment takes the drag direction (down when there is none to
    /// take), and the previously laid belt tile is re-oriented to feed into
    /// the new one. Laying onto the same cell twice in a row is a no-op; a
    /// cell occupied by anything but a belt rejects the request; re-laying
    /// over an existing belt replaces it, despawning the tokens it carried.
    /// Returns the position to remember as the last placed belt.
    #[verifier::rlimit(100)]
    pub fn build_belt(&mut self, pos: TilePos, last_placed: Option<TilePos>) -> (r: Option<TilePos>)
        requires
            old(self).wf(),
        ensures
            final(self).wf(),
            final(self).created == old(self).created,
            final(self).consumed == old(self).consumed,
            final(self).next_token == old(self).next_token,
            final(self).despawned >= old(self).despawned,
            last_placed == Some(pos) ==> *final(self) == *old(self) && r == last_placed,
            !pos.spec_in_bounds() ==> *final(self) == *old(self) && r == last_placed,
            // A cell occupied by anything but a belt rejects the request.
            ({
                let og = old(self).grid@;
                let oj = spec_find_entry(og, pos);
                last_placed != Some(pos) && pos.spec_in_bounds() && oj < og.len()
                    && !og[oj].tile.spec_is_belt() ==> *final(self) == *old(self) && r
                    == last_placed
            }),
            // On a free or belt-occupied in-bounds cell: a fresh empty
            // segment is appended, the cell holds a belt entry carrying the
            // drag direction linked to it, the previously laid adjacent
            // belt is re-oriented to feed it, and a replaced segment's
            // tokens are despawned.
            ({
                let og = old(self).grid@;
                let oj = spec_find_entry(og, pos);
                let dir = spec_drag_direction(pos, last_placed);
                last_placed != Some(pos) && pos.spec_in_bounds() && (oj == og.len()
                    || og[oj].tile.spec_is_belt()) ==> {
                    &&& r == Some(pos)
                    &&& final(self).belts@.len() == old(self).belts@.len() + 1
                    &&& (final(self).belts@.last() matches Some(nb) && nb@.len() == 0)
                    &&& spec_find_entry(final(self).grid@, pos) < final(self).grid@.len()
                    &&& final(self).grid@[spec_find_entry(final(self).grid@, pos)].tile == dir
                    &&& final(self).grid@[spec_find_entry(final(self).grid@, pos)].belt == Some(
                        old(self).belts@.len() as usize,
                    )
                    &&& (oj == og.len() ==> final(self).grid@.len() == og.len() + 1 && final(self).despawned == old(self).despawned)
                    &&& (oj < og.len() ==> final(self).grid@.len() == og.len() && final(self).despawned as int == old(self).despawned + (match og[oj].belt {
                        Some(bb) => slot_count(old(self).belts@[bb as int]),
                        None => 0,
                    }))
                    &&& (last_placed matches Some(lp) ==> (spec_belt_dir_between(pos, lp) is Some
                        && spec_find_entry(og, lp) < og.len() && og[spec_find_entry(
                        og,
                        lp,
                    )].tile.spec_is_belt() ==> spec_find_entry(final(self).grid@, lp) < final(self).grid@.len() && final(self).grid@[spec_find_entry(final(self).grid@, lp)].tile
                        == dir))
                }
            }),
    {
        match last_placed {
            Some(lp) => {
                if lp.x == pos.x && lp.y == pos.y {
                    return last_placed;
                }
            },
            None => {},
        }
        if !pos.in_bounds() {
            return last_placed;
        }
        let (belt_dir, update_last) = match last_placed {
            Some(lp) => match crate::belts::belt_dir_between(pos, lp) {
                Some(d) => (d, true),
                None => (BuildingTileType::BeltDown, false),
            },
            None => (BuildingTileType::BeltDown, false),
        };
        proof {
            assert(belt_dir == spec_drag_direction(pos, last_placed));
        }
        let ghost og = self.grid@;
        match self.find_entry(pos) {
            Some(j) => {
                let e = self.grid[j];
                if !e.tile.is_belt() {
                    return last_placed;
                }
                self.remove_entry(j);
                proof {
                    let g = self.grid@;
                    lemma_find_entry_bound(g, pos, 0);
                    if spec_find_entry(g, pos) < g.len() {
                        lemma_find_entry_some(g, pos, 0);
                        let f = spec_find_entry(g, pos);
                        let o: int = if f < j as int {
                            f
                        } else {
                            f + 1
                        };
                        assert(g[f] == og[o]);
                        assert(false);
                    }
                }
                let ghost mid = self.grid@;
                self.push_belt_entry(pos, belt_dir);
                proof {
                    // The entry previously laid at `last_placed` survives the
                    // replacement: the removed cell is `pos`, not it.
                    match last_placed {
                        Some(lp) => {
                            let olj = spec_find_entry(og, lp);
                            if olj < og.len() {
                                lemma_find_entry_some(og, lp, 0);
                                assert(og[olj].pos == lp);
                                assert(og[j as int].pos == pos);
                                assert(olj != j as int);
                                let o2: int = if olj < j as int {
                                    olj
                                } else {
                                    olj - 1
                                };
                                assert(mid[o2] == og[olj]);
                                assert(self.grid@[o2] == og[olj]);
                                assert(exists|w: int|
                                    0 <= w < self.grid@.len() && #[trigger] self.grid@[w]
                                        == og[olj]);
                            }
                        },
                        None => {},
                    }
                }
            },
            None => {
                self.push_belt_entry(pos, belt_dir);
                proof {
                    lemma_find_entry_none(og, pos, 0);
                    match last_placed {
                        Some(lp) => {
                            let olj = spec_find_entry(og, lp);
                            if olj < og.len() {
                                lemma_find_entry_some(og, lp, 0);
                                assert(self.grid@[olj] == og[olj]);
                                assert(exists|w: int|
                                    0 <= w < self.grid@.len() && #[trigger] self.grid@[w]
                                        == og[olj]);
                            }
                        },
                        None => {},
                    }
                }
            },
        }
        let ghost placed_grid = self.grid@;
        proof {
            // The freshly pushed entry is the unique holder of `pos`.
            let g = self.grid@;
            let last = g.len() - 1;
            assert(g[last].pos == pos);
            lemma_find_entry_bound(g, pos, 0);
            if spec_find_entry(g, pos) == g.len() {
                lemma_find_entry_none(g, pos, 0);
                assert(false);
            }
            lemma_find_entry_some(g, pos, 0);
            let f = spec_find_entry(g, pos);
            if f != last {
                assert(g[f].pos == g[last].pos);
                assert(false);
            }
        }
        if update_last {
            match last_placed {
                Some(lp) => {
                    match self.find_entry(lp) {
                        Some(pj) => {
                            let pe = self.grid[pj];
                            if pe.tile.is_belt() {
                                self.set_tile_type(pj, belt_dir);
                                proof {
                                    // The re-oriented entry keeps its
                                    // position, and the placed entry at
                                    // `pos` is untouched: the two differ.
                                    let g = self.grid@;
                                    assert(g[pj as int].pos == lp);
                                    assert(lp != pos);
                                    let last = g.len() - 1;
                                    assert(g[last] == placed_grid[last]);
                                    lemma_find_entry_bound(g, pos, 0);
                                    if spec_find_entry(g, pos) == g.len() {
                                        lemma_find_entry_none(g, pos, 0);
                                        assert(false);
                                    }
                                    lemma_find_entry_some(g, pos, 0);
                                    let f = spec_find_entry(g, pos);
                                    if f != last {
                                        assert(g[f].pos == g[last].pos);
                                        assert(false);
                                    }
                                    lemma_find_entry_bound(g, lp, 0);
                                    if spec_find_entry(g, lp) == g.len() {
                                        lemma_find_entry_none(g, lp, 0);
                                        assert(false);
                                    }
                                    lemma_find_entry_some(g, lp, 0);
                                    let fl = spec_find_entry(g, lp);
                                    assert(g[fl].pos == lp);
                                    if fl != pj as int {
                                        assert(g[fl].pos == g[pj as int].pos);
                                        assert(false);
                                    }
                                }
                            } else {
                                proof {
                                    // The cell at `lp` held no belt tile
                                    // before the placement either: it is the
                                    // same surviving entry.
                                    let olj = spec_find_entry(og, lp);
                                    if olj < og.len() && og[olj].tile.spec_is_belt() {
                                        let w = choose|w: int|
                                            0 <= w < self.grid@.len() && self.grid@[w] == og[olj];
                                        assert(self.grid@[w] == og[olj]);
                                        assert(self.grid@[w].pos == lp);
                                        assert(self.grid@[pj as int].pos == lp);
                                        if w != pj as int {
                                            assert(self.grid@[w].pos != self.grid@[pj as int].pos);
                                        }
                                        assert(pe == og[olj]);
                                        assert(false);
                                    }
                                }
                            }
                        },
                        None => {
                            proof {
                                // The previously laid entry would have been
                                // found: `lp` is simply not registered.
                                lemma_find_entry_none(self.grid@, lp, 0);
                                let olj = spec_find_entry(og, lp);
                                if olj < og.len() {
                                    lemma_find_entry_some(og, lp, 0);
                                    let w = choose|w: int|
                                        0 <= w < self.grid@.len() && self.grid@[w] == og[olj];
                                    assert(self.grid@[w] == og[olj]);
                                    assert(self.grid@[w].pos == lp);
                                    assert(false);
                                }
                            }
                        },
                    }
                },
                None => {},
            }
        }
        Some(pos)
    }

    /// Demolish every building at once, despawning all tokens in flight.
    pub fn clear_buildings(&mut self)
        requires
            old(self).wf(),
        ensures
            final(self).wf(),
            final(self).grid@.len() == 0,
            final(self).belts@.len() == 0,
            final(self).miners@.len() == 0,
            final(self).inventories@.len() == 0,
            final(self).buildings@.len() == 0,
            final(self).created == old(self).created,
            final(self).consumed == old(self).consumed,
            final(self).next_token == old(self).next_token,
            final(self).despawned as int == old(self).despawned + total_tokens(old(self).belts@),
    {
        let n = self.belts.len();
        let mut tally: u64 = 0;
        let mut i: usize = 0;
        while i < n
            invariant
                i <= n,
                *self == *old(self),
                self.wf(),
                n == self.belts@.len(),
                tally as int == tokens_in(self.belts@, i as int),
            decreases n - i,
        {
            let c = match &self.belts[i] {
                Some(b) => b.len(),
                None => 0,
            };
            proof {
                assert(c as int == slot_count(self.belts@[i as int]));
                lemma_tokens_in_step(self.belts@, i as int + 1);
                lemma_tokens_in_nonneg(self.belts@, i as int);
                lemma_tokens_in_suffix(self.belts@, i as int + 1, n as int);
                lemma_slot_count_nonneg(self.belts@[i as int]);
            }
            tally = tally + c as u64;
            i += 1;
        }
        self.despawned = self.despawned + tally;
        self.grid = Vec::new();
        self.belts = Vec::new();
        self.miners = Vec::new();
        self.inventories = Vec::new();
        self.buildings = Vec::new();
    }

    /// Attach a production timer to a freshly constructed mine: building
    /// `k`'s first tile becomes the miner's home and designated output tile.
    /// Nothing happens unless `k` is a live mine whose first tile is on the
    /// registry and carries no miner yet.
    pub fn build_mine(&mut self, k: usize) -> (attached: bool)
        requires
            old(self).wf(),
        ensures
            final(self).wf(),
            !attached ==> *final(self) == *old(self),
            final(self).belts == old(self).belts,
            final(self).inventories == old(self).inventories,
            final(self).buildings == old(self).buildings,
            final(self).created == old(self).created,
            final(self).consumed == old(self).consumed,
            final(self).despawned == old(self).despawned,
            final(self).next_token == old(self).next_token,
            final(self).grid@.len() == old(self).grid@.len(),
            forall|i: int|
                0 <= i < old(self).grid@.len()
                    ==> (#[trigger] final(self).grid@[i]).pos == old(self).grid@[i].pos
                    && final(self).grid@[i].tile == old(self).grid@[i].tile
                    && final(self).grid@[i].belt == old(self).grid@[i].belt
                    && final(self).grid@[i].belt_input == old(self).grid@[i].belt_input
                    && final(self).grid@[i].building == old(self).grid@[i].building,
            attached ==> final(self).miners@.len() == old(self).miners@.len() + 1,
            attached == (spec_mine_attach_index(old(self).grid@, old(self).buildings@, k)
                is Some),
            spec_mine_attach_index(old(self).grid@, old(self).buildings@, k) matches Some(j) ==> {
                let home = old(self).buildings@[k as int]->Some_0.layout.tiles@[0].0;
                &&& final(self).miners@ == old(self).miners@.push(
                    Some(
                        Mine {
                            period: crate::mine::MINE_PERIOD,
                            elapsed: 0,
                            output: home,
                        },
                    ),
                )
                &&& final(self).grid@ == old(self).grid@.update(
                    j,
                    TileEntry {
                        miner: Some(old(self).miners@.len() as usize),
                        ..old(self).grid@[j]
                    },
                )
            },
    {
        if k >= self.buildings.len() {
            return false;
        }
        let first_pos = match &self.buildings[k] {
            Some(b) => match b.building_type {
                BuildingType::Mine => {
                    if b.layout.tiles.len() == 0 {
                        return false;
                    }
                    let (p, _) = b.layout.tiles[0];
                    p
                },
                _ => {
                    return false;
                },
            },
            None => {
                return false;
            },
        };
        let j = match self.find_entry(first_pos) {
            Some(j) => j,
            None => {
                return false;
            },
        };
        let e = self.grid[j];
        match e.miner {
            Some(_) => {
                return false;
            },
            None => {},
        }
        let m = self.miners.len();
        self.miners.push(Some(Mine::new(crate::mine::MINE_PERIOD, first_pos)));
        let e2 = TileEntry {
            pos: e.pos,
            tile: e.tile,
            building: e.building,
            belt: e.belt,
            belt_input: e.belt_input,
            miner: Some(m),
        };
        let _ = vec_replace(&mut self.grid, j, e2);
        proof {
            let g = self.grid@;
            let og = old(self).grid@;
            assert forall|i1: int, i2: int| 0 <= i1 < i2 < g.len() implies (
            #[trigger] g[i1]).pos != (#[trigger] g[i2]).pos by {
                assert(g[i1].pos == og[i1].pos);
                assert(g[i2].pos == og[i2].pos);
            }
            assert forall|i1: int, i2: int|
                0 <= i1 < i2 < g.len() && (#[trigger] g[i1]).belt is Some && (
            #[trigger] g[i2]).belt is Some implies g[i1].belt != g[i2].belt by {
                assert(g[i1].belt == og[i1].belt);
                assert(g[i2].belt == og[i2].belt);
            }
            assert forall|i1: int, i2: int|
                0 <= i1 < i2 < g.len() && (#[trigger] g[i1]).belt_input is Some && (
            #[trigger] g[i2]).belt_input is Some implies g[i1].belt_input != g[i2].belt_input by {
                assert(g[i1].belt_input == og[i1].belt_input);
                assert(g[i2].belt_input == og[i2].belt_input);
            }
            assert forall|i1: int, i2: int|
                0 <= i1 < i2 < g.len() && (#[trigger] g[i1]).miner is Some && (
            #[trigger] g[i2]).miner is Some implies g[i1].miner != g[i2].miner by {
                if i1 != j as int && i2 != j as int {
                    assert(g[i1] == og[i1]);
                    assert(g[i2] == og[i2]);
                } else {
                    let o: int = if i1 == j as int {
                        i2
                    } else {
                        i1
                    };
                    assert(g[o] == og[o]);
                    assert(entry_refs_wf(
                        og[o],
                        old(self).belts@,
                        old(self).inventories@,
                        old(self).miners@,
                        old(self).buildings@,
                    ));
                }
            }
            assert forall|i: int|
                0 <= i < g.len() implies entry_refs_wf(
                #[trigger] g[i],
                self.belts@,
                self.inventories@,
                self.miners@,
                self.buildings@,
            ) by {
                assert(entry_refs_wf(
                    og[i],
                    old(self).belts@,
                    old(self).inventories@,
                    old(self).miners@,
                    old(self).buildings@,
                ));
                if i != j as int {
                    assert(g[i] == og[i]);
                    match g[i].miner {
                        Some(x) => {
                            assert(self.miners@[x as int] == old(self).miners@[x as int]);
                        },
                        None => {},
                    }
                }
            }
            assert forall|i: int|
                0 <= i < self.miners@.len() implies ((#[trigger] self.miners@[i]) matches Some(x)
                ==> x.wf()) by {
                if i < old(self).miners@.len() {
                    assert(self.miners@[i] == old(self).miners@[i]);
                }
            }
        }
        true
    }

    /// Attach a one-slot inventory to a freshly constructed chest: building
    /// `k`'s first tile becomes a belt input feeding the new inventory.
    /// Nothing happens unless `k` is a live chest whose first tile is on
    /// the registry and carries no belt input yet.
    pub fn build_chest(&mut self, k: usize) -> (attached: bool)
        requires
            old(self).wf(),
        ensures
            final(self).wf(),
            !attached ==> *final(self) == *old(self),
            final(self).belts == old(self).belts,
            final(self).miners == old(self).miners,
            final(self).buildings == old(self).buildings,
            final(self).created == old(self).created,
            final(self).consumed == old(self).consumed,
            final(self).despawned == old(self).despawned,
            final(self).next_token == old(self).next_token,
            final(self).grid@.len() == old(self).grid@.len(),
            forall|i: int|
                0 <= i < old(self).grid@.len()
                    ==> (#[trigger] final(self).grid@[i]).pos == old(self).grid@[i].pos
                    && final(self).grid@[i].tile == old(self).grid@[i].tile
                    && final(self).grid@[i].belt == old(self).grid@[i].belt
                    && final(self).grid@[i].miner == old(self).grid@[i].miner
                    && final(self).grid@[i].building == old(self).grid@[i].building,
            attached ==> final(self).inventories@.len() == old(self).inventories@.len() + 1,
            attached == (spec_chest_attach_index(old(self).grid@, old(self).buildings@, k)
                is Some),
            spec_chest_attach_index(old(self).grid@, old(self).buildings@, k) matches Some(j) ==> {
                &&& final(self).inventories@.len() == old(self).inventories@.len() + 1
                &&& (forall|v: int|
                    0 <= v < old(self).inventories@.len()
                        ==> #[trigger] final(self).inventories@[v] == old(self).inventories@[v])
                &&& final(self).inventories@.last() matches Some(inv) && inv@.len() == 1
                    && inv@[0] is None
                &&& final(self).grid@ == old(self).grid@.update(
                    j,
                    TileEntry {
                        belt_input: Some(
                            BeltInput { inventory: old(self).inventories@.len() as usize },
                        ),
                        ..old(self).grid@[j]
                    },
                )
            },
    {
        if k >= self.buildings.len() {
            return false;
        }
        let first_pos = match &self.buildings[k] {
            Some(b) => match b.building_type {
                BuildingType::Chest => {
                    if b.layout.tiles.len() == 0 {
                        return false;
                    }
                    let (p, _) = b.layout.tiles[0];
                    p
                },
                _ => {
                    return false;
                },
            },
            None => {
                return false;
            },
        };
        let j = match self.find_entry(first_pos) {
            Some(j) => j,
            None => {
                return false;
            },
        };
        let e = self.grid[j];
        match e.belt_input {
            Some(_) => {
                return false;
            },
            None => {},
        }
        let v = self.inventories.len();
        self.inventories.push(Some(Inventory::new(1)));
        let e2 = TileEntry {
            pos: e.pos,
            tile: e.tile,
            building: e.building,
            belt: e.belt,
            belt_input: Some(BeltInput { inventory: v }),
            miner: e.miner,
        };
        let _ = vec_replace(&mut self.grid, j, e2);
        proof {
            let g = self.grid@;
            let og = old(self).grid@;
            assert forall|i1: int, i2: int| 0 <= i1 < i2 < g.len() implies (
            #[trigger] g[i1]).pos != (#[trigger] g[i2]).pos by {
                assert(g[i1].pos == og[i1].pos);
                assert(g[i2].pos == og[i2].pos);
            }
            assert forall|i1: int, i2: int|
                0 <= i1 < i2 < g.len() && (#[trigger] g[i1]).belt is Some && (
            #[trigger] g[i2]).belt is Some implies g[i1].belt != g[i2].belt by {
                assert(g[i1].belt == og[i1].belt);
                assert(g[i2].belt == og[i2].belt);
            }
            assert forall|i1: int, i2: int|
                0 <= i1 < i2 < g.len() && (#[trigger] g[i1]).miner is Some && (
            #[trigger] g[i2]).miner is Some implies g[i1].miner != g[i2].miner by {
                assert(g[i1].miner == og[i1].miner);
                assert(g[i2].miner == og[i2].miner);
            }
            assert forall|i1: int, i2: int|
                0 <= i1 < i2 < g.len() && (#[trigger] g[i1]).belt_input is Some && (
            #[trigger] g[i2]).belt_input is Some implies g[i1].belt_input != g[i2].belt_input by {
                if i1 != j as int && i2 != j as int {
                    assert(g[i1] == og[i1]);
                    assert(g[i2] == og[i2]);
                } else {
                    let o: int = if i1 == j as int {
                        i2
                    } else {
                        i1
                    };
                    assert(g[o] == og[o]);
                    assert(entry_refs_wf(
                        og[o],
                        old(self).belts@,
                        old(self).inventories@,
                        old(self).miners@,
                        old(self).buildings@,
                    ));
                }
            }
            assert forall|i: int|
                0 <= i < g.len() implies entry_refs_wf(
                #[trigger] g[i],
                self.belts@,
                self.inventories@,
                self.miners@,
                self.buildings@,
            ) by {
                assert(entry_refs_wf(
                    og[i],
                    old(self).belts@,
                    old(self).inventories@,
                    old(self).miners@,
                    old(self).buildings@,
                ));
                if i != j as int {
                    assert(g[i] == og[i]);
                    match g[i].belt_input {
                        Some(x) => {
                            assert(self.inventories@[x.inventory as int]
                                == old(self).inventories@[x.inventory as int]);
                        },
                        None => {},
                    }
                }
            }
            assert forall|i: int|
                0 <= i < self.inventories@.len() implies ((
            #[trigger] self.inventories@[i]) matches Some(x) ==> x.wf()) by {
                if i < old(self).inventories@.len() {
                    assert(self.inventories@[i] == old(self).inventories@[i]);
                }
            }
        }
        true
    }

    /// Serve one build request: place the building's footprint (rejecting
    /// overlap and out-of-bounds placements with nothing mutated), then
    /// attach the machinery its kind calls for — a production timer for a
    /// mine, a one-slot inventory with a belt input for a chest.
    pub fn build_building(
        &mut self,
        event: &BuildRequestedEvent,
        template: &BuildingTemplate,
    ) -> (r: Result<usize, PlacementRejected>)
        requires
            old(self).wf(),
            template.wf(),
            template.building_type == event.building_type,
        ensures
            final(self).wf(),
            r is Ok <==> spec_can_place(
                old(self).grid@,
                template.instructions.spec_get(event.direction)@,
                event.tile_pos,
            ),
            r is Err ==> *final(self) == *old(self),
            final(self).created == old(self).created,
            final(self).consumed == old(self).consumed,
            final(self).despawned == old(self).despawned,
            final(self).next_token == old(self).next_token,
            total_tokens(final(self).belts@) == total_tokens(old(self).belts@),
            r matches Ok(k) ==> {
                let fp = template.instructions.spec_get(event.direction)@;
                &&& k == old(self).buildings@.len()
                &&& final(self).buildings@.len() == old(self).buildings@.len() + 1
                &&& final(self).buildings@[k as int] matches Some(bld) && bld.building_type
                    == event.building_type && bld.layout.tiles@.len() == fp.len()
                    && (forall|j: int|
                        0 <= j < fp.len()
                            ==> #[trigger] bld.layout.tiles@[j] == spec_translated(
                            fp[j],
                            event.tile_pos,
                        ))
                &&& final(self).grid@.len() == old(self).grid@.len() + fp.len()
                &&& (forall|j: int|
                    0 <= j < old(self).grid@.len() ==> final(self).grid@[j] == old(self).grid@[j])
                &&& (forall|j: int|
                    0 <= j < fp.len() ==> (#[trigger] final(self).grid@[old(self).grid@.len() + j]).pos
                        == spec_translated(fp[j], event.tile_pos).0
                        && final(self).grid@[old(self).grid@.len() + j].tile == fp[j].1
                        && final(self).grid@[old(self).grid@.len() + j].building == Some(k)
                        && (final(self).grid@[old(self).grid@.len() + j].belt is Some
                        <==> fp[j].1.spec_is_belt()))
                &&& (forall|j: int|
                    0 <= j < fp.len() ==> ((#[trigger] final(self).grid@[old(self).grid@.len() + j]).belt
                        matches Some(bb) ==> bb < final(self).belts@.len()
                        && (final(self).belts@[bb as int] matches Some(nb) && nb@.len() == 0)))
                &&& (event.building_type == BuildingType::Mine && fp.len() > 0 ==> {
                    &&& final(self).miners@.len() == old(self).miners@.len() + 1
                    &&& final(self).miners@.last() == Some(
                        Mine {
                            period: crate::mine::MINE_PERIOD,
                            elapsed: 0,
                            output: spec_translated(fp[0], event.tile_pos).0,
                        },
                    )
                    &&& final(self).grid@[old(self).grid@.len() as int].miner == Some(
                        old(self).miners@.len() as usize,
                    )
                })
                &&& (event.building_type == BuildingType::Chest && fp.len() > 0 ==> {
                    &&& final(self).inventories@.len() == old(self).inventories@.len() + 1
                    &&& (final(self).inventories@.last() matches Some(inv) && inv@.len() == 1
                        && inv@[0] is None)
                    &&& final(self).grid@[old(self).grid@.len() as int].belt_input == Some(
                        BeltInput { inventory: old(self).inventories@.len() as usize },
                    )
                })
                &&& (event.building_type == BuildingType::Belt ==> final(self).miners == old(self).miners && final(self).inventories == old(self).inventories)
            },
    {
        let r = self.construct_building(template, event.tile_pos, event.direction);
        match r {
            Ok(k) => {
                let ghost mid = *self;
                let ghost fp = template.instructions.spec_get(event.direction)@;
                proof {
                    // The first footprint tile's entry is the first new one:
                    // it is registered, positions are unique, and it carries
                    // no attachment yet.
                    if fp.len() > 0 {
                        let first = old(self).grid@.len() as int;
                        let home = spec_translated(fp[0], event.tile_pos).0;
                        assert((mid.grid@[old(self).grid@.len() as int + 0]).pos
                            == spec_translated(fp[0], event.tile_pos).0);
                        assert(mid.grid@[old(self).grid@.len() as int + 0].miner is None);
                        assert(mid.grid@[old(self).grid@.len() as int + 0].belt_input is None);
                        assert(mid.buildings@[k as int]->Some_0.layout.tiles@[0] == spec_translated(
                            fp[0],
                            event.tile_pos,
                        ));
                        assert(mid.grid@[first].pos == home);
                        lemma_find_entry_bound(mid.grid@, home, 0);
                        if spec_find_entry(mid.grid@, home) == mid.grid@.len() {
                            lemma_find_entry_none(mid.grid@, home, 0);
                            assert(false);
                        }
                        lemma_find_entry_some(mid.grid@, home, 0);
                        let f = spec_find_entry(mid.grid@, home);
                        if f != first {
                            assert(mid.grid@[f].pos == mid.grid@[first].pos);
                            assert(false);
                        }
                        assert(mid.buildings@[k as int]->Some_0.layout.tiles@[0].0 == home);
                    }
                }
                match event.building_type {
                    BuildingType::Mine => {
                        let attached = self.build_mine(k);
                        proof {
                            if fp.len() > 0 {
                                assert(spec_mine_attach_index(mid.grid@, mid.buildings@, k)
                                    == Some(old(self).grid@.len() as int));
                                assert(attached);
                            }
                        }
                    },
                    BuildingType::Chest => {
                        let attached = self.build_chest(k);
                        proof {
                            if fp.len() > 0 {
                                assert(spec_chest_attach_index(mid.grid@, mid.buildings@, k)
                                    == Some(old(self).grid@.len() as int));
                                assert(attached);
                            }
                        }
                    },
                    BuildingType::Belt => {},
                }
                Ok(k)
            },
            Err(e) => Err(e),
        }
    }

    /// One simulation tick over `dt` elapsed time units: miners attempt
    /// emission, belt segments advance and transfer, and inventories drain
    /// saturated belt fronts — in that order, deterministically. Time steps
    /// beyond [`MAX_TICK`] saturate: every token's progress clamps at the
    /// segment exit well before that.
    pub fn tick(&mut self, dt: u64)
        requires
            old(self).wf(),
        ensures
            final(self).wf(),
            final(self).grid == old(self).grid,
            final(self).buildings == old(self).buildings,
            final(self).despawned == old(self).despawned,
            final(self).created >= old(self).created,
            final(self).consumed >= old(self).consumed,
            ({
                let d = if dt > MAX_TICK {
                    MAX_TICK
                } else {
                    dt
                };
                let p = spec_produce_pass(
                    old(self).grid@,
                    old(self).miners@,
                    belt_queues(old(self).belts@),
                    old(self).created,
                    old(self).next_token,
                    old(self).miners@.len() as int,
                    d,
                );
                let moved = spec_move_pass(old(self).grid@, p.1, old(self).grid@.len() as int, d);
                let drained = spec_drain_pass(
                    old(self).grid@,
                    moved,
                    inv_views(old(self).inventories@),
                    old(self).consumed,
                    old(self).grid@.len() as int,
                );
                &&& final(self).miners@ == p.0
                &&& final(self).created == p.2
                &&& final(self).next_token == p.3
                &&& belt_queues(final(self).belts@) == drained.0
                &&& inv_views(final(self).inventories@) == drained.1
                &&& final(self).consumed == drained.2
            }),
    {
        let d = if dt > MAX_TICK {
            MAX_TICK
        } else {
            dt
        };
        self.mine_produce(d);
        self.move_items_on_belts(d);
        self.input_from_belts();
    }

    /// Look up the registry entry at `pos`.
    pub fn find_entry(&self, pos: TilePos) -> (r: Option<usize>)
        ensures
            r matches Some(i) ==> i == spec_find_entry(self.grid@, pos) && i < self.grid@.len()
                && self.grid@[i as int].pos == pos,
            r is None ==> spec_find_entry(self.grid@, pos) == self.grid@.len(),
    {
        let n = self.grid.len();
        let mut i: usize = 0;
        while i < n
            invariant
                i <= n,
                n == self.grid@.len(),
                find_entry_from(self.grid@, pos, i as int) == spec_find_entry(self.grid@, pos),
            decreases n - i,
        {
            let e = &self.grid[i];
            if e.pos.x == pos.x && e.pos.y == pos.y {
                proof {
                    assert(self.grid@[i as int].pos == pos);
                }
                return Some(i);
            }
            i += 1;
        }
        None
    }
}

/// Law: token conservation. In a well-formed world every token a producer
/// ever created is riding exactly one belt, was consumed by an inventory,
/// or was despawned by demolition — no loss, no duplication. Every world
/// operation preserves well-formedness, so this holds at all times; with an
/// always-accepting sink and no demolition the despawned count stays put
/// and created tokens are eventually all consumed or in flight.
pub proof fn lemma_token_conservation(w: World)
    requires
        w.wf(),
    ensures
        w.created as int == w.consumed + w.despawned + total_tokens(w.belts@),
{
}

/// Law: in a well-formed world every token's progress lies within its
/// segment, from entry to exit; every tick returns a well-formed world, so
/// this holds immediately after each tick.
pub proof fn lemma_world_progress_in_range(w: World, b: int, i: int)
    requires
        w.wf(),
        0 <= b < w.belts@.len(),
        w.belts@[b] is Some,
        0 <= i < w.belts@[b]->Some_0@.len(),
    ensures
        0 <= w.belts@[b]->Some_0@[i].2 <= PROGRESS_SCALE,
{
    assert(w.belts@[b] matches Some(x) && x.wf());
}

/// Law: in a well-formed world the occupied slots of every belt segment
/// are ordered front-to-back by strictly decreasing progress, any two at
/// least one item size apart; every tick returns a well-formed world, so
/// this holds at all times.
pub proof fn lemma_world_belt_ordering(w: World, b: int, i: int, j: int)
    requires
        w.wf(),
        0 <= b < w.belts@.len(),
        w.belts@[b] is Some,
        0 <= i < j < w.belts@[b]->Some_0@.len(),
    ensures
        w.belts@[b]->Some_0@[j].2 + crate::belts::ITEM_SIZE <= w.belts@[b]->Some_0@[i].2,
        w.belts@[b]->Some_0@[j].2 < w.belts@[b]->Some_0@[i].2,
{
    assert(w.belts@[b] matches Some(x) && x.wf());
    crate::belts::lemma_belt_slot_ordering(w.belts@[b]->Some_0, i, j);
}

} // verus!
