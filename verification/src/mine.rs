//! Miners: timer-driven producers that inject freshly created tokens onto
//! an adjacent belt segment.

use vstd::prelude::*;
use crate::belts::{MAX_TICK, PROGRESS_SCALE};
use crate::map::TilePos;

verus! {

/// Default emission period of a miner: one second, in progress units.
pub const MINE_PERIOD: u64 = PROGRESS_SCALE;

/// Largest emission period a miner accepts, in progress units.
pub const MAX_PERIOD: u64 = 0x1_0000_0000;

/// Initial progress of a freshly emitted token on the receiving belt:
/// noticeably past the segment entry, so new tokens do not contend right
/// at the origin cell.
pub const MINE_OUTPUT_PROGRESS: u64 = 99;

/// A production source: a repeating timer and a designated output tile.
/// Each time the timer fires the miner attempts to emit one token; a failed
/// attempt is forgotten, never queued.
pub struct Mine {
    /// Emission period, in progress units.
    pub period: u64,
    /// Time accumulated since the last firing, in progress units.
    pub elapsed: u64,
    /// The tile whose neighborhood receives emitted tokens.
    pub output: TilePos,
}

impl Mine {
    /// Well-formedness: a positive, bounded period, with the accumulator
    /// strictly inside it.
    pub open spec fn wf(self) -> bool {
        0 < self.period <= MAX_PERIOD && self.elapsed < self.period
    }

    /// A miner with a fresh timer.
    pub fn new(period: u64, output: TilePos) -> (m: Mine)
        requires
            0 < period <= MAX_PERIOD,
        ensures
            m.wf(),
            m.period == period,
            m.elapsed == 0,
            m.output == output,
    {
        Mine { period, elapsed: 0, output }
    }

    /// Advance the timer by `dt` and report whether it fired. A firing
    /// timer keeps the remainder past the period, so no time is lost; it
    /// fires at most once per tick and accumulates no backlog.
    pub fn tick(&mut self, dt: u64) -> (fired: bool)
        requires
            old(self).wf(),
            dt <= MAX_TICK,
        ensures
            final(self).wf(),
            final(self).period == old(self).period,
            final(self).output == old(self).output,
            fired == (old(self).elapsed + dt >= old(self).period),
            fired ==> final(self).elapsed == (old(self).elapsed + dt) % (old(self).period as int),
            !fired ==> final(self).elapsed == old(self).elapsed + dt,
    {
        let sum = self.elapsed + dt;
        if sum >= self.period {
            self.elapsed = sum % self.period;
            true
        } else {
            self.elapsed = sum;
            false
        }
    }
}

/// The candidate positions a miner with output tile `output` tries to emit
/// onto, in attempt order: the tile to the left, then the tile below, each
/// only where the grid extends that far.
pub open spec fn spec_output_positions(output: TilePos) -> Seq<TilePos> {
    let left = TilePos { x: (output.x - 1) as u32, y: output.y };
    let below = TilePos { x: output.x, y: (output.y - 1) as u32 };
    if output.x > 0 && output.y > 0 {
        seq![left, below]
    } else if output.x > 0 {
        seq![left]
    } else if output.y > 0 {
        seq![below]
    } else {
        Seq::<TilePos>::empty()
    }
}

/// Enumerate the candidate output positions adjacent to `output`, in
/// attempt order.
pub fn output_positions(output: TilePos) -> (r: Vec<TilePos>)
    ensures
        r@ == spec_output_positions(output),
{
    let mut r: Vec<TilePos> = Vec::new();
    if output.x > 0 {
        r.push(TilePos { x: output.x - 1, y: output.y });
    }
    if output.y > 0 {
        r.push(TilePos { x: output.x, y: output.y - 1 });
    }
    proof {
        assert(r@ =~= spec_output_positions(output));
    }
    r
}

} // verus!
