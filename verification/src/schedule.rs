//! How a block is cut into sub-blocks, and the lanes each of them carries.
use vstd::prelude::*;
use crate::number::Real;

verus! {

/// How many sub-blocks of `quantum` frames a block is cut into. The last one is
/// short whenever the quantum does not divide the block.
pub open spec fn rows_in(frames: u32, quantum: u32) -> int {
    (frames + quantum - 1) / quantum as int
}

/// One row of lanes for every sub-block of a block.
#[derive(Debug)]
pub struct SlotSchedule {
    pub lanes: usize,
    pub max_frames: u32,
    pub quantum: u32,
    pub frames: u32,
    pub rows: Vec<Vec<Real>>,
}

pub open spec fn rows_view(rows: Seq<Vec<Real>>) -> Seq<Seq<Real>> {
    Seq::new(rows.len(), |i: int| rows[i]@)
}

/// A row as the DAW left it: its slots, and nothing in the lanes beyond.
pub open spec fn row_laid(lanes: nat, slots: Seq<Real>) -> Seq<Real> {
    Seq::new(
        lanes,
        |i: int|
            if i < slots.len() {
                slots[i]
            } else {
                Real::zeroed()
            },
    )
}

impl SlotSchedule {
    pub open spec fn wf(&self) -> bool {
        &&& self.quantum > 0
        &&& self.frames <= self.max_frames
        &&& self.rows@.len() == rows_in(self.frames, self.quantum)
        &&& forall|i: int| 0 <= i < self.rows@.len() ==> (#[trigger] self.rows@[i])@.len() == self.lanes
    }

    /// A schedule for blocks of up to `max_frames`, or nothing for a quantum of
    /// no frames.
    pub fn new(lanes: usize, max_frames: u32, quantum: u32) -> (r: Option<SlotSchedule>)
        ensures
            match r {
                Some(schedule) => {
                    &&& quantum > 0
                    &&& schedule.wf()
                    &&& schedule.lanes == lanes
                    &&& schedule.max_frames == max_frames
                    &&& schedule.quantum == quantum
                    &&& schedule.frames == 0
                },
                None => quantum == 0,
            },
    {
        if quantum == 0 {
            return None;
        }
        proof {
            lemma_rows(0, quantum);
        }
        Some(SlotSchedule { lanes, max_frames, quantum, frames: 0, rows: Vec::new() })
    }

    pub fn quantum(&self) -> (r: u32)
        ensures
            r == self.quantum,
    {
        self.quantum
    }

    /// Cuts blocks at another quantum from now on. The block that was laid out is
    /// gone with the old one.
    pub fn set_quantum(&mut self, quantum: u32)
        requires
            quantum > 0,
        ensures
            final(self).wf(),
            final(self).quantum == quantum,
            final(self).lanes == old(self).lanes,
            final(self).max_frames == old(self).max_frames,
            final(self).frames == 0,
            final(self).rows@.len() == 0,
    {
        proof {
            lemma_rows(0, quantum);
        }
        self.quantum = quantum;
        self.frames = 0;
        self.rows = Vec::new();
    }

    /// How many sub-blocks the block is cut into.
    pub fn blocks(&self) -> (r: usize)
        ensures
            r == self.rows@.len(),
    {
        self.rows.len()
    }

    /// Where a sub-block starts inside the block.
    pub fn offset(&self, index: usize) -> (r: u32)
        requires
            self.wf(),
            index < self.rows@.len(),
        ensures
            r == index * self.quantum,
            r < self.frames,
    {
        proof {
            lemma_row_starts(self.frames, self.quantum, index as int);
        }
        index as u32 * self.quantum
    }

    /// How many frames a sub-block covers.
    pub fn frames_of(&self, index: usize) -> (r: u32)
        requires
            self.wf(),
            index < self.rows@.len(),
        ensures
            r == if self.frames - index * self.quantum < self.quantum {
                self.frames - index * self.quantum
            } else {
                self.quantum as int
            },
            r > 0,
            index * self.quantum + r <= self.frames,
    {
        let offset: u32 = self.offset(index);
        let left: u32 = self.frames - offset;
        if left < self.quantum {
            left
        } else {
            self.quantum
        }
    }

    /// Starts a block of `frames` frames cut at `quantum`, every row as the DAW
    /// left it. A block longer than was prepared for, or a quantum of no frames,
    /// is refused and leaves the schedule alone.
    pub fn begin(&mut self, frames: u32, quantum: u32, slots: &[Real]) -> (r: Option<usize>)
        requires
            old(self).wf(),
        ensures
            final(self).wf(),
            final(self).lanes == old(self).lanes,
            final(self).max_frames == old(self).max_frames,
            match r {
                Some(blocks) => {
                    &&& frames <= old(self).max_frames && quantum > 0
                    &&& final(self).frames == frames
                    &&& final(self).quantum == quantum
                    &&& blocks == rows_in(frames, quantum)
                    &&& rows_view(final(self).rows@) == Seq::new(
                        rows_in(frames, quantum) as nat,
                        |i: int| row_laid(old(self).lanes as nat, slots@),
                    )
                },
                None => (frames > old(self).max_frames || quantum == 0) && *final(self) == *old(
                    self,
                ),
            },
    {
        if frames > self.max_frames || quantum == 0 {
            return None;
        }
        proof {
            lemma_rows(frames, quantum);
        }
        let blocks: usize = ((frames as u64 + quantum as u64 - 1) / quantum as u64) as usize;
        let mut rows: Vec<Vec<Real>> = Vec::new();
        while rows.len() < blocks
            invariant
                rows@.len() <= blocks,
                forall|i: int|
                    0 <= i < rows@.len() ==> (#[trigger] rows@[i])@ == row_laid(
                        self.lanes as nat,
                        slots@,
                    ),
            decreases blocks - rows@.len(),
        {
            rows.push(lay_row(self.lanes, slots));
        }
        self.frames = frames;
        self.quantum = quantum;
        self.rows = rows;
        proof {
            assert(rows_view(self.rows@) =~= Seq::new(
                rows_in(frames, quantum) as nat,
                |i: int| row_laid(self.lanes as nat, slots@),
            ));
        }
        Some(blocks)
    }
}

fn lay_row(lanes: usize, slots: &[Real]) -> (r: Vec<Real>)
    ensures
        r@ == row_laid(lanes as nat, slots@),
{
    let mut row: Vec<Real> = Vec::new();
    while row.len() < lanes
        invariant
            row@.len() <= lanes,
            row@ == row_laid(lanes as nat, slots@).take(row@.len() as int),
        decreases lanes - row@.len(),
    {
        let at: usize = row.len();
        let value: Real = if at < slots.len() {
            slots[at]
        } else {
            Real::zero()
        };
        row.push(value);
        assert(row@ =~= row_laid(lanes as nat, slots@).take(row@.len() as int));
    }
    assert(row@ =~= row_laid(lanes as nat, slots@));
    row
}

pub proof fn lemma_rows(frames: u32, quantum: u32)
    requires
        quantum > 0,
    ensures
        0 <= rows_in(frames, quantum) <= frames,
        frames == 0 ==> rows_in(frames, quantum) == 0,
{
    let f = frames as int;
    let q = quantum as int;
    vstd::arithmetic::div_mod::lemma_fundamental_div_mod(f + q - 1, q);
    let rows = rows_in(frames, quantum);
    let rest = (f + q - 1) % q;
    assert(f + q - 1 == q * rows + rest);
    assert(0 <= rows <= f) by (nonlinear_arith)
        requires
            f + q - 1 == q * rows + rest,
            0 <= rest < q,
            0 < q,
            0 <= f,
    ;
}

pub proof fn lemma_row_starts(frames: u32, quantum: u32, index: int)
    requires
        quantum > 0,
        0 <= index < rows_in(frames, quantum),
    ensures
        0 <= index * quantum < frames,
        index <= frames,
{
    let f = frames as int;
    let q = quantum as int;
    vstd::arithmetic::div_mod::lemma_fundamental_div_mod(f + q - 1, q);
    let rows = rows_in(frames, quantum);
    let rest = (f + q - 1) % q;
    assert(0 <= index * q < f && index <= f) by (nonlinear_arith)
        requires
            f + q - 1 == q * rows + rest,
            0 <= rest < q,
            0 < q,
            0 <= f,
            0 <= index < rows,
    ;
}

/// The sub-blocks of a block cover it end to end: each starts where the one
/// before it ended, and the last ends where the block does.
pub proof fn law_sub_blocks_cover_the_block(frames: u32, quantum: u32, index: int)
    requires
        quantum > 0,
        frames > 0,
    ensures
        rows_in(frames, quantum) > 0,
        0 <= index < rows_in(frames, quantum) - 1 ==> (index + 1) * quantum == index * quantum
            + quantum && index * quantum + quantum < frames,
        (rows_in(frames, quantum) - 1) * quantum < frames <= rows_in(frames, quantum) * quantum,
{
    let f = frames as int;
    let q = quantum as int;
    vstd::arithmetic::div_mod::lemma_fundamental_div_mod(f + q - 1, q);
    let rows = rows_in(frames, quantum);
    let rest = (f + q - 1) % q;
    assert(rows > 0 && (rows - 1) * q < f && f <= rows * q) by (nonlinear_arith)
        requires
            f + q - 1 == q * rows + rest,
            0 <= rest < q,
            0 < q,
            0 < f,
    ;
    if 0 <= index < rows - 1 {
        lemma_row_starts(frames, quantum, index + 1);
        assert((index + 1) * q == index * q + q) by (nonlinear_arith);
    }
}

} // verus!
