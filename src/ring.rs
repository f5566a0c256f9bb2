//! A ring of `CELL_COUNT` cells: cell `i` is fed by cell `i - 1`, and cell 0
//! by an external drive value and by the last cell's control outputs.

use crate::cell::{lemma_output_wf, lemma_step_keeps_width, AddrMode, CellState, LifeCell, Output};
use vstd::prelude::*;

verus! {

/// The number of cells in a ring.
pub const CELL_COUNT: usize = 64;

/// Which of the last cell's control outputs crosses to cell 0.
#[derive(Clone, Copy, Debug, PartialEq, Eq, Structural)]
pub enum BoundaryPolicy {
    /// Cell 0 gets the last cell's shift enable; its latch enable is 0.
    ForceLeLow,
    /// Cell 0 gets both the last cell's shift enable and latch enable.
    ThreadLe,
}

/// The mathematical state of a ring.
pub struct RingState {
    pub cells: Seq<CellState>,
    pub policy: BoundaryPolicy,
}

impl RingState {
    /// The ring has `CELL_COUNT` cells, each well formed.
    pub open spec fn wf(self) -> bool {
        &&& self.cells.len() == CELL_COUNT
        &&& forall|i: int| 0 <= i < self.cells.len() ==> #[trigger] self.cells[i].wf()
    }

    /// What cell `i` is fed on a tick driven by `drive`, read from the state
    /// before the tick.
    pub open spec fn input_at(self, i: int, drive: u8) -> Output {
        if i == 0 {
            let b = self.cells[self.cells.len() - 1].output();
            Output {
                q: drive,
                se: b.se,
                le: match self.policy {
                    BoundaryPolicy::ForceLeLow => 0,
                    BoundaryPolicy::ThreadLe => b.le,
                },
            }
        } else {
            self.cells[i - 1].output()
        }
    }

    /// One synchronous tick: every cell steps on the input read from the
    /// state before the tick.
    pub open spec fn tick(self, drive: u8) -> RingState {
        RingState {
            cells: Seq::new(self.cells.len(), |i: int| self.cells[i].step(self.input_at(i, drive))),
            policy: self.policy,
        }
    }

    /// The displayed value of every cell, in index order.
    pub open spec fn row(self) -> Seq<u8> {
        self.cells.map_values(|c: CellState| c.shift)
    }

    /// The state after one tick per drive value, in order.
    pub open spec fn run(self, drives: Seq<u8>) -> RingState
        decreases drives.len(),
    {
        if drives.len() == 0 {
            self
        } else {
            self.tick(drives[0]).run(drives.subrange(1, drives.len() as int))
        }
    }
}

/// A ring of cells.
pub struct Ring {
    cells: Vec<LifeCell>,
    policy: BoundaryPolicy,
}

impl View for Ring {
    type V = RingState;

    closed spec fn view(&self) -> RingState {
        RingState { cells: self.cells@.map_values(|c: LifeCell| c@), policy: self.policy }
    }
}

impl Ring {
    /// A ring made of the given cells, cell `i` at index `i`.
    pub fn new(cells: Vec<LifeCell>, policy: BoundaryPolicy) -> (r: Ring)
        requires
            cells.len() == CELL_COUNT,
            forall|i: int| 0 <= i < cells.len() ==> #[trigger] cells@[i]@.wf(),
        ensures
            r@.cells == cells@.map_values(|c: LifeCell| c@),
            r@.policy == policy,
            r@.wf(),
    {
        Ring { cells, policy }
    }

    /// The ring whose cells all share the fixed table `0xF300`, load their
    /// address from their input, start with address `i % 16`, shift
    /// register 6 and latch 5.
    pub fn with_fixed_table(policy: BoundaryPolicy) -> (r: Ring)
        ensures
            r@.wf(),
            r@.policy == policy,
            forall|i: int|
                0 <= i < CELL_COUNT ==> #[trigger] r@.cells[i] == (CellState {
                    lut: 0xF300,
                    bias: 0,
                    mode: AddrMode::ExternalLoad,
                    addr: (i % 16) as u8,
                    shift: 6,
                    latched: 5,
                }),
    {
        let mut cells: Vec<LifeCell> = Vec::new();
        let mut i: usize = 0;
        while i < CELL_COUNT
            invariant
                i <= CELL_COUNT,
                cells.len() == i,
                forall|j: int|
                    0 <= j < i ==> #[trigger] cells@[j]@ == (CellState {
                        lut: 0xF300,
                        bias: 0,
                        mode: AddrMode::ExternalLoad,
                        addr: (j % 16) as u8,
                        shift: 6,
                        latched: 5,
                    }),
            decreases CELL_COUNT - i,
        {
            cells.push(LifeCell::new(0xF300, 0, AddrMode::ExternalLoad, (i % 16) as u8, 6, 5));
            i = i + 1;
        }
        Ring::new(cells, policy)
    }

    /// The ring whose tables drift: cell `i` starts with table `i * 0x010F`,
    /// adds `i % 16` into it on every tick, loads its address from its input,
    /// and starts with address 14, latch 5 and shift register 6, but for
    /// cell 0, whose shift register starts at 0.
    pub fn with_drifting_table(policy: BoundaryPolicy) -> (r: Ring)
        ensures
            r@.wf(),
            r@.policy == policy,
            forall|i: int|
                0 <= i < CELL_COUNT ==> #[trigger] r@.cells[i] == (CellState {
                    lut: (i * 0x010F) as u16,
                    bias: (i % 16) as u8,
                    mode: AddrMode::ExternalLoad,
                    addr: 0xE,
                    shift: if i == 0 {
                        0
                    } else {
                        6
                    },
                    latched: 5,
                }),
    {
        let mut cells: Vec<LifeCell> = Vec::new();
        let mut i: usize = 0;
        while i < CELL_COUNT
            invariant
                i <= CELL_COUNT,
                cells.len() == i,
                forall|j: int|
                    0 <= j < i ==> #[trigger] cells@[j]@ == (CellState {
                        lut: (j * 0x010F) as u16,
                        bias: (j % 16) as u8,
                        mode: AddrMode::ExternalLoad,
                        addr: 0xE,
                        shift: if j == 0 {
                            0
                        } else {
                            6
                        },
                        latched: 5,
                    }),
            decreases CELL_COUNT - i,
        {
            let shift: u8 = if i == 0 {
                0
            } else {
                6
            };
            let lut: u16 = (i as u16) * 0x010F;
            cells.push(LifeCell::new(lut, (i % 16) as u8, AddrMode::ExternalLoad, 0xE, shift, 5));
            i = i + 1;
        }
        Ring::new(cells, policy)
    }

    /// Cell `i`.
    pub fn cell(&self, i: usize) -> (c: LifeCell)
        requires
            i < self@.cells.len(),
        ensures
            c@ == self@.cells[i as int],
    {
        self.cells[i]
    }

    /// Advances every cell by one tick. Cells are visited from the last to
    /// the first, so that each reads its upstream neighbour before that
    /// neighbour moves; the last cell's outputs for cell 0 are taken first.
    pub fn tick(&mut self, drive: u8)
        requires
            old(self)@.wf(),
            drive < 16,
        ensures
            final(self)@ == old(self)@.tick(drive),
            final(self)@.wf(),
    {
        let ghost pre = self@;
        let boundary = self.cells[CELL_COUNT - 1].output();
        let first = Output {
            q: drive,
            se: boundary.se,
            le: match self.policy {
                BoundaryPolicy::ForceLeLow => 0,
                BoundaryPolicy::ThreadLe => boundary.le,
            },
        };
        assert(pre.cells[CELL_COUNT - 1].wf());
        let mut i: usize = CELL_COUNT;
        while i > 0
            invariant
                pre.wf(),
                drive < 16,
                first == pre.input_at(0, drive),
                first.wf(),
                i <= CELL_COUNT,
                self.policy == pre.policy,
                self.cells.len() == CELL_COUNT,
                forall|j: int| 0 <= j < i ==> #[trigger] self.cells@[j]@ == pre.cells[j],
                forall|j: int|
                    i <= j < CELL_COUNT ==> #[trigger] self.cells@[j]@ == pre.cells[j].step(
                        pre.input_at(j, drive),
                    ),
            decreases i,
        {
            i = i - 1;
            let input = if i == 0 {
                first
            } else {
                assert(pre.cells[i - 1].wf());
                self.cells[i - 1].output()
            };
            let mut c = self.cells[i];
            assert(pre.cells[i as int].wf());
            c.step(input);
            self.cells.set(i, c);
        }
        proof {
            assert(self@.cells =~= pre.tick(drive).cells);
            lemma_tick_keeps_width(pre, drive);
        }
    }

    /// The displayed value of every cell, in index order.
    pub fn render_row(&self) -> (r: Vec<u8>)
        ensures
            r@ == self@.row(),
    {
        let mut r: Vec<u8> = Vec::new();
        let mut i: usize = 0;
        while i < self.cells.len()
            invariant
                i <= self.cells.len(),
                r@ =~= self@.row().subrange(0, i as int),
            decreases self.cells.len() - i,
        {
            r.push(self.cells[i].as_u4());
            i = i + 1;
        }
        r
    }
}

/// A tick keeps every register of every cell within four bits.
pub proof fn lemma_tick_keeps_width(r: RingState, drive: u8)
    requires
        r.wf(),
        drive < 16,
    ensures
        r.tick(drive).wf(),
{
    assert forall|i: int| 0 <= i < r.cells.len() implies #[trigger] r.tick(drive).cells[i].wf() by {
        let b = r.cells[r.cells.len() - 1];
        assert(b.wf());
        lemma_output_wf(b);
        if i > 0 {
            assert(r.cells[i - 1].wf());
            lemma_output_wf(r.cells[i - 1]);
        }
        assert(r.cells[i].wf());
        lemma_step_keeps_width(r.cells[i], r.input_at(i, drive));
    }
}

/// From a well-formed ring, every sequence of 4-bit drive values reaches only
/// well-formed rings.
pub proof fn lemma_run_keeps_width(r: RingState, drives: Seq<u8>)
    requires
        r.wf(),
        forall|i: int| 0 <= i < drives.len() ==> #[trigger] drives[i] < 16,
    ensures
        r.run(drives).wf(),
    decreases drives.len(),
{
    if drives.len() > 0 {
        assert(drives[0] < 16);
        lemma_tick_keeps_width(r, drives[0]);
        let rest = drives.subrange(1, drives.len() as int);
        assert forall|i: int| 0 <= i < rest.len() implies #[trigger] rest[i] < 16 by {
            assert(rest[i] == drives[i + 1]);
        }
        lemma_run_keeps_width(r.tick(drives[0]), rest);
    }
}

/// Two rings in the same state, fed the same drive values, display the same
/// row after every tick.
pub proof fn lemma_runs_agree(r1: RingState, r2: RingState, drives: Seq<u8>)
    requires
        r1 == r2,
    ensures
        forall|k: int|
            0 <= k <= drives.len() ==> (#[trigger] r1.run(drives.subrange(0, k))).row() == r2.run(
                drives.subrange(0, k),
            ).row(),
{
}

/// A tick is synchronous: cell `i > 0` steps on the output that cell `i - 1`
/// had before the tick, and cell 0 steps on the drive value and on the
/// control outputs that the last cell had before the tick, not after it.
pub proof fn lemma_tick_reads_previous_state(r: RingState, drive: u8)
    requires
        r.wf(),
    ensures
        r.tick(drive).cells[0] == r.cells[0].step(
            Output {
                q: drive,
                se: r.cells[CELL_COUNT - 1].output().se,
                le: match r.policy {
                    BoundaryPolicy::ForceLeLow => 0,
                    BoundaryPolicy::ThreadLe => r.cells[CELL_COUNT - 1].output().le,
                },
            },
        ),
        forall|i: int|
            0 < i < CELL_COUNT ==> #[trigger] r.tick(drive).cells[i] == r.cells[i].step(
                r.cells[i - 1].output(),
            ),
{
}

} // verus!
