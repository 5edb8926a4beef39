//! The parameter half of a running program: scalar operations over the register
//! file, one sub-block at a time.
//!
//! An operation that only moves or compares numbers is done here. One that needs
//! arithmetic is handed out as a [`ParamWork`] and finished by [`ParamState::settle`]
//! with what came of it.
use vstd::prelude::*;
use crate::event::{Event, NoteEvent};
use crate::ir::{
    Buf, Detect, Follow, MathOp, NodeId, Op, Operand, Rate, Reg, Waveform, MAX_DELAY_LINES,
    MAX_DELAY_TAPS, MAX_LATCHES, MAX_LFOS, MAX_REGISTERS, NO_NODE,
};
use crate::lines::{
    asked, distinct_writers, law_reorder_keeps_rings, lemma_asked, lemma_settle_mapped, lines_of, reorder, settle,
    Settling, NOT_PRESENT,
};
use crate::note_state::{ has_key, key_bit, KeyTrack, NoteState, NotesModel};
use crate::number::{law_counts_are_in_order, Real};
use crate::param_cx::{op_fits, reads};

verus! {

/// The least exponent of a curve, which keeps it from yielding infinity.
pub const LEAST_EXPONENT: u64 = 0x3f84_7ae1_47ae_147b;

pub const GREATEST_EXPONENT: u64 = 0x4059_0000_0000_0000;

/// Where the sequence of held values starts. It only has to be uncorrelated,
/// not unpredictable.
pub const SEED: u32 = 0x2545_f491;

/// An oscillator. Its phase runs from nought to one.
#[derive(Debug, Clone, Copy, PartialEq, Eq, Structural)]
pub struct LfoState {
    pub node: NodeId,
    pub phase: Real,
    pub hold: Real,
}

/// A value that stays until it is set again, or NaN if nothing has set it.
#[derive(Debug, Clone, Copy, PartialEq, Eq, Structural)]
pub struct Latch {
    pub node: NodeId,
    pub value: Real,
}

/// A parameter delay line. The head is where the next value goes.
#[derive(Debug)]
pub struct ParamLine {
    pub ring: Vec<Real>,
    pub head: usize,
}

#[verifier::ext_equal]
pub struct LineModel {
    pub ring: Seq<Real>,
    pub head: usize,
}

impl View for ParamLine {
    type V = LineModel;

    open spec fn view(&self) -> LineModel {
        LineModel { ring: self.ring@, head: self.head }
    }
}

impl LineModel {
    pub open spec fn empty() -> LineModel {
        LineModel { ring: Seq::new(MAX_DELAY_TAPS as nat, |i: int| Real::zeroed()), head: 0 }
    }

    pub open spec fn wf(self) -> bool {
        self.ring.len() == MAX_DELAY_TAPS && self.head < MAX_DELAY_TAPS
    }

    /// The value written `taps` writes ago.
    pub open spec fn back(self, taps: int) -> Real {
        self.ring[(self.head + MAX_DELAY_TAPS - taps) % MAX_DELAY_TAPS as int]
    }

    pub open spec fn pushed(self, value: Real) -> LineModel {
        LineModel {
            ring: self.ring.update(self.head as int, value),
            head: ((self.head + 1) % MAX_DELAY_TAPS as int) as usize,
        }
    }

    /// The line after one write of each value.
    pub open spec fn written(self, values: Seq<Real>) -> LineModel
        decreases values.len(),
    {
        if values.len() == 0 {
            self
        } else {
            self.written(values.drop_last()).pushed(values.last())
        }
    }
}

/// What a write does to what lies further back.
proof fn lemma_pushed(line: LineModel, value: Real, taps: int)
    requires
        line.wf(),
        0 < taps < MAX_DELAY_TAPS - 1,
    ensures
        line.pushed(value).wf(),
        line.pushed(value).back(1) == value,
        line.pushed(value).back(taps + 1) == line.back(taps),
{
    let after = line.pushed(value);
    let size = MAX_DELAY_TAPS as int;
    assert((after.head + size - 1) % size == line.head);
    assert((after.head + size - (taps + 1)) % size == (line.head + size - taps) % size);
    assert((line.head + size - taps) % size != line.head);
}

/// A delay line gives back what was written: the value read `taps` writes back is
/// the one that was written that long ago, as far back as the ring reaches.
pub proof fn law_line_gives_back(line: LineModel, values: Seq<Real>, taps: int)
    requires
        line.wf(),
        1 <= taps <= values.len(),
        taps < MAX_DELAY_TAPS,
    ensures
        line.written(values).wf(),
        line.written(values).back(taps) == values[values.len() - taps],
    decreases values.len(),
{
    let before = values.drop_last();
    if before.len() == 0 {
        assert(line.written(before) == line);
        lemma_pushed(line, values.last(), 1);
    } else {
        law_line_gives_back(line, before, if taps > 1 {
            taps - 1
        } else {
            1
        });
        if taps > 1 {
            lemma_pushed(line.written(before), values.last(), taps - 1);
        } else {
            lemma_pushed(line.written(before), values.last(), 1);
        }
    }
}

#[derive(Debug)]
pub struct ParamState {
    pub registers: Vec<Real>,
    pub lfos: Vec<LfoState>,
    pub lines: Vec<ParamLine>,
    /// Which node writes each line.
    pub line_nodes: Vec<NodeId>,
    /// Where each line's ring lies while they are put in order.
    pub line_order: Vec<usize>,
    pub latches: Vec<Latch>,
    pub rng: u32,
}

#[verifier::ext_equal]
pub struct ParamsModel {
    pub registers: Seq<Real>,
    pub lfos: Seq<LfoState>,
    pub lines: Seq<LineModel>,
    pub line_nodes: Seq<NodeId>,
    pub line_order: Seq<usize>,
    pub latches: Seq<Latch>,
    pub rng: u32,
}

pub open spec fn lines_view(lines: Seq<ParamLine>) -> Seq<LineModel> {
    Seq::new(lines.len(), |i: int| lines[i]@)
}

impl View for ParamState {
    type V = ParamsModel;

    open spec fn view(&self) -> ParamsModel {
        ParamsModel {
            registers: self.registers@,
            lfos: self.lfos@,
            lines: lines_view(self.lines@),
            line_nodes: self.line_nodes@,
            line_order: self.line_order@,
            latches: self.latches@,
            rng: self.rng,
        }
    }
}

/// Arithmetic that two numbers are put to.
#[derive(Debug, Clone, Copy, PartialEq, Eq, Structural)]
pub enum Arithmetic {
    Sum,
    Difference,
    Product,
    /// The first to the power of the second.
    Power,
}

/// What has to be worked out before the next operation can run.
#[derive(Debug, Clone, Copy, PartialEq, Eq, Structural)]
pub enum ParamWork {
    Nothing,
    Math { out: Reg, a: Real, b: Real, by: Arithmetic },
    /// The place of a value in one range, in another.
    Range {
        out: Reg,
        value: Real,
        in_lo: Real,
        in_hi: Real,
        out_lo: Real,
        out_hi: Real,
        clamp: bool,
    },
    /// One turn of an oscillator. `draw` is what a held value is made of if the
    /// phase comes round.
    Lfo {
        out: Reg,
        state: u16,
        waveform: Waveform,
        rate: Rate,
        offset_phase: Real,
        depth: Real,
        centre: Real,
        phase: Real,
        hold: Real,
        draw: u32,
    },
    /// How many sub-blocks a time is.
    Taps { out: Reg, line: u16, time: Real },
    /// How loud a buffer is, approached from where the follower stands.
    Level {
        out: Reg,
        state: u16,
        buf: Buf,
        detect: Detect,
        held: Real,
        attack: Real,
        release: Real,
    },
    /// How far up the keyboard a key lies.
    Track { out: Reg, state: u16, key: u8 },
    /// The position after the one a latch stands at, round `count`. Asked for only
    /// where the latch stands at none of them.
    Step { state: u16, at: Real, count: u8 },
}

/// What came of it.
#[derive(Debug, Clone, Copy, PartialEq, Eq, Structural)]
pub enum Answer {
    Value(Real),
    /// An oscillator's value and the phase it is left at; the value held from
    /// now on if the phase came round.
    Wave { value: Real, phase: Real, hold: Option<Real> },
    /// How many sub-blocks; none if the time is not a number.
    Taps(Option<usize>),
}

/// Which of the first `count` positions a value stands for.
pub open spec fn position(at: Real, count: nat) -> Option<nat>
    decreases count,
{
    if count == 0 {
        None
    } else if at == Real::counted((count - 1) as nat) {
        Some((count - 1) as nat)
    } else {
        position(at, (count - 1) as nat)
    }
}

/// The position after one, round and round.
pub open spec fn position_after(at: nat, count: nat) -> nat {
    if at + 1 < count {
        at + 1
    } else {
        0
    }
}

/// The number after one in the sequence of held values.
pub open spec fn next_draw(rng: u32) -> u32 {
    ((rng * 1664525 + 1013904223) % 0x1_0000_0000) as u32
}

pub open spec fn truth(yes: bool) -> Real {
    if yes {
        Real::unit()
    } else {
        Real::zeroed()
    }
}

/// How many of the first `count` keys are down.
pub open spec fn keys_down(table: u128, count: nat) -> nat
    decreases count,
{
    if count == 0 {
        0
    } else {
        keys_down(table, (count - 1) as nat) + if has_key(table, (count - 1) as i16) {
            1nat
        } else {
            0nat
        }
    }
}

/// Where a controller stood last among the first `count` events.
pub open spec fn last_heard(events: Seq<Event>, channel: i16, cc: u8, count: nat) -> Option<Real>
    decreases count,
{
    if count == 0 {
        None
    } else {
        match events[count - 1] {
            Event::Note(NoteEvent::Cc { channel: on, cc: number, value, .. }) if number == cc && (
            channel < 0 || channel == on) => Some(value),
            _ => last_heard(events, channel, cc, (count - 1) as nat),
        }
    }
}

/// Whether a key is in a buffer's table of keys down.
pub open spec fn is_held(notes: NotesModel, buf: u16, key: u8) -> bool {
    buf < notes.bufs.len() && has_key(notes.bufs[buf as int].played.held, key as i16)
}

/// Whether a key was struck in the sub-block a buffer last carried.
pub open spec fn is_struck(notes: NotesModel, buf: u16, key: u8) -> bool {
    buf < notes.bufs.len() && has_key(notes.bufs[buf as int].played.struck, key as i16)
}

/// What a reading of a note buffer gives, but for how far up the keyboard a key
/// lies.
pub open spec fn read_off(notes: NotesModel, buf: u16, what: Follow) -> Real {
    if buf >= notes.bufs.len() {
        match what {
            Follow::KeyTrack => Real::halved(),
            _ => Real::zeroed(),
        }
    } else {
        let played = notes.bufs[buf as int].played;
        match what {
            Follow::Velocity => played.velocity,
            Follow::KeyTrack => Real::halved(),
            Follow::Gate => truth(played.count > 0),
            Follow::HeldKeys => Real::counted(keys_down(played.held, 128)),
        }
    }
}

/// The key that a reading of the keyboard has to place.
pub open spec fn key_to_place(notes: NotesModel, buf: u16, what: Follow) -> Option<u8> {
    if buf < notes.bufs.len() && what is KeyTrack {
        match notes.bufs[buf as int].played.key {
            KeyTrack::Key(key) => Some(key),
            KeyTrack::Centre => None,
        }
    } else {
        None
    }
}

impl ParamsModel {
    pub open spec fn wf(self) -> bool {
        &&& self.registers.len() == MAX_REGISTERS
        &&& self.lfos.len() == MAX_LFOS
        &&& self.lines.len() == MAX_DELAY_LINES
        &&& self.line_nodes.len() == MAX_DELAY_LINES
        &&& self.line_order.len() == MAX_DELAY_LINES
        &&& self.latches.len() == MAX_LATCHES
        &&& forall|i: int| 0 <= i < self.lines.len() ==> (#[trigger] self.lines[i]).wf()
    }

    pub open spec fn fresh() -> ParamsModel {
        ParamsModel {
            registers: Seq::new(MAX_REGISTERS as nat, |i: int| Real::zeroed()),
            lfos: Seq::new(
                MAX_LFOS as nat,
                |i: int|
                    LfoState { node: NO_NODE, phase: Real::zeroed(), hold: Real::zeroed() },
            ),
            lines: Seq::new(MAX_DELAY_LINES as nat, |i: int| LineModel::empty()),
            line_nodes: Seq::new(MAX_DELAY_LINES as nat, |i: int| NO_NODE),
            line_order: Seq::new(MAX_DELAY_LINES as nat, |i: int| 0usize),
            latches: Seq::new(
                MAX_LATCHES as nat,
                |i: int| Latch { node: NO_NODE, value: Real::unset() },
            ),
            rng: SEED,
        }
    }

    pub open spec fn value_of(self, operand: Operand) -> Real {
        match operand {
            Operand::Reg(reg) => self.registers[reg as int],
            Operand::Value(value) => value,
        }
    }

    pub open spec fn with(self, out: Reg, value: Real) -> ParamsModel {
        ParamsModel { registers: self.registers.update(out as int, value), ..self }
    }

    pub open spec fn latched(self, state: u16, value: Real) -> ParamsModel {
        ParamsModel {
            latches: self.latches.update(
                state as int,
                Latch { value, ..self.latches[state as int] },
            ),
            ..self
        }
    }

    /// Where a latch stands, or `initial` if nothing has set it.
    pub open spec fn standing(self, state: u16, initial: Real) -> Real {
        let value = self.latches[state as int].value;
        if value.nan() {
            initial
        } else {
            value
        }
    }

    /// How much an operation leaves to be worked out.
    pub open spec fn asks(self, op: Op, notes: NotesModel) -> ParamWork {
        match op {
            Op::Math { out, a, b, op: by } => {
                let a = self.registers[a as int];
                let b = self.value_of(b);
                match by {
                    MathOp::Add => ParamWork::Math { out, a, b, by: Arithmetic::Sum },
                    MathOp::Subtract => ParamWork::Math { out, a, b, by: Arithmetic::Difference },
                    MathOp::Multiply => ParamWork::Math { out, a, b, by: Arithmetic::Product },
                    MathOp::Curve => ParamWork::Math {
                        out,
                        a: a.within(Real::zeroed(), Real::unit()),
                        b: b.within(
                            Real { bits: LEAST_EXPONENT },
                            Real { bits: GREATEST_EXPONENT },
                        ),
                        by: Arithmetic::Power,
                    },
                    MathOp::Min => ParamWork::Nothing,
                    MathOp::Max => ParamWork::Nothing,
                }
            },
            Op::Range { out, a, in_lo, in_hi, out_lo, out_hi, clamp } => ParamWork::Range {
                out,
                value: self.registers[a as int],
                in_lo,
                in_hi,
                out_lo,
                out_hi,
                clamp,
            },
            Op::Lfo { out, state, waveform, rate, offset_phase, depth, centre } => ParamWork::Lfo {
                out,
                state,
                waveform,
                rate,
                offset_phase,
                depth,
                centre,
                phase: self.lfos[state as int].phase,
                hold: self.lfos[state as int].hold,
                draw: next_draw(self.rng),
            },
            Op::DelayRead { out, line, time, time_reg } => if line < self.lines.len() {
                ParamWork::Taps {
                    out,
                    line,
                    time: match time_reg {
                        Some(reg) => self.registers[reg as int].larger(Real::zeroed()),
                        None => time,
                    },
                }
            } else {
                ParamWork::Nothing
            },
            Op::Follow { out, buf, state, detect, attack, release } => ParamWork::Level {
                out,
                state,
                buf,
                detect,
                held: if self.latches[state as int].value.finite() {
                    self.latches[state as int].value
                } else {
                    Real::zeroed()
                },
                attack,
                release,
            },
            Op::NoteFollow { out, buf, state, what } => match key_to_place(notes, buf, what) {
                Some(key) => ParamWork::Track { out, state, key },
                None => ParamWork::Nothing,
            },
            Op::KeyStep { state, buf, key, count } => {
                let at = self.standing(state, Real::zeroed());
                if is_struck(notes, buf, key) && count > 0 && position(at, count as nat) is None {
                    ParamWork::Step { state, at, count }
                } else {
                    ParamWork::Nothing
                }
            },
            _ => ParamWork::Nothing,
        }
    }

    /// What an operation does by itself.
    pub open spec fn did(self, op: Op, slots: Seq<Real>, notes: NotesModel) -> ParamsModel {
        match op {
            Op::Const { out, value } => self.with(out, value),
            Op::Slot { out, slot } => self.with(
                out,
                if slot < slots.len() {
                    slots[slot as int]
                } else {
                    Real::zeroed()
                },
            ),
            Op::Math { out, a, b, op: by } => match by {
                MathOp::Min => self.with(
                    out,
                    self.registers[a as int].smaller(self.value_of(b)),
                ),
                MathOp::Max => self.with(out, self.registers[a as int].larger(self.value_of(b))),
                _ => self,
            },
            Op::Select { out, control, threshold, low, high } => self.with(
                out,
                if self.registers[control as int].ge(threshold) {
                    self.value_of(high)
                } else {
                    self.value_of(low)
                },
            ),
            Op::DelayRead { out, line, .. } => if line < self.lines.len() {
                self
            } else {
                self.with(out, Real::zeroed())
            },
            Op::DelayWrite { line, a } => if line < self.lines.len() {
                ParamsModel {
                    lines: self.lines.update(
                        line as int,
                        self.lines[line as int].pushed(self.registers[a as int]),
                    ),
                    ..self
                }
            } else {
                self
            },
            Op::KeyHeld { out, buf, key } => self.with(out, truth(is_held(notes, buf, key))),
            Op::NoteFollow { out, buf, state, what } => if key_to_place(notes, buf, what) is Some {
                self
            } else {
                self.latched(state, read_off(notes, buf, what)).with(
                    out,
                    read_off(notes, buf, what),
                )
            },
            Op::KeyStep { state, buf, key, count } => {
                match position(self.standing(state, Real::zeroed()), count as nat) {
                    Some(at) if is_struck(notes, buf, key) => self.latched(
                        state,
                        Real::counted(position_after(at, count as nat)),
                    ),
                    _ => self,
                }
            },
            Op::KeyLatch { state, buf, key, value } => if is_struck(notes, buf, key) {
                self.latched(state, value)
            } else {
                self
            },
            Op::LatchIs { out, state, value, initial } => self.with(
                out,
                truth(self.standing(state, initial).equal(value)),
            ),
            Op::NoteCc { out, buf, state, channel, cc, initial } => {
                let latest = if buf < notes.bufs.len() {
                    let events = notes.bufs[buf as int].events;
                    last_heard(events, channel, cc, events.len())
                } else {
                    None
                };
                let moved = match latest {
                    Some(value) => self.latched(state, value),
                    None => self,
                };
                moved.with(out, moved.standing(state, initial))
            },
            Op::Latch { out, state, initial } => self.with(out, self.standing(state, initial)),
            _ => self,
        }
    }

    /// What an answer to some work does. An answer to something else does
    /// nothing.
    pub open spec fn answered(self, work: ParamWork, answer: Answer) -> ParamsModel {
        match (work, answer) {
            (ParamWork::Math { out, .. }, Answer::Value(value)) => self.with(out, value),
            (ParamWork::Range { out, .. }, Answer::Value(value)) => self.with(out, value),
            (
                ParamWork::Lfo { out, state, waveform, draw, .. },
                Answer::Wave { value, phase, hold },
            ) => {
                let lfo = self.lfos[state as int];
                match hold {
                    Some(hold) if waveform is Random => ParamsModel {
                        lfos: self.lfos.update(state as int, LfoState { phase, hold, ..lfo }),
                        rng: draw,
                        ..self
                    },
                    _ => ParamsModel {
                        lfos: self.lfos.update(state as int, LfoState { phase, ..lfo }),
                        ..self
                    },
                }.with(out, value)
            },
            (ParamWork::Taps { out, line, .. }, Answer::Taps(taps)) => self.with(
                out,
                self.lines[line as int].back(taps_within(taps)),
            ),
            (ParamWork::Level { out, state, .. }, Answer::Value(value)) => self.latched(
                state,
                value,
            ).with(out, value),
            (ParamWork::Track { out, state, .. }, Answer::Value(value)) => self.latched(
                state,
                value,
            ).with(out, value),
            (ParamWork::Step { state, .. }, Answer::Value(value)) => self.latched(state, value),
            _ => self,
        }
    }
}

/// A delay is at least the last write, and at most the whole ring but for the
/// slot about to be written. A time that is not a number reads that slot.
pub open spec fn taps_within(taps: Option<usize>) -> int {
    match taps {
        Some(taps) => if taps < 1 {
            1
        } else if taps > MAX_DELAY_TAPS - 1 {
            MAX_DELAY_TAPS - 1
        } else {
            taps as int
        },
        None => 0,
    }
}

/// Work names registers, states and lines that there are.
pub open spec fn work_fits(work: ParamWork) -> bool {
    match work {
        ParamWork::Nothing => true,
        ParamWork::Math { out, .. } => out < MAX_REGISTERS,
        ParamWork::Range { out, .. } => out < MAX_REGISTERS,
        ParamWork::Lfo { out, state, .. } => out < MAX_REGISTERS && state < MAX_LFOS,
        ParamWork::Taps { out, line, .. } => out < MAX_REGISTERS && line < MAX_DELAY_LINES,
        ParamWork::Level { out, state, .. } => out < MAX_REGISTERS && state < MAX_LATCHES,
        ParamWork::Track { out, state, .. } => out < MAX_REGISTERS && state < MAX_LATCHES,
        ParamWork::Step { state, .. } => state < MAX_LATCHES,
    }
}

/// Which of so many positions a latch stands at.
fn position_of(at: Real, count: u8) -> (r: Option<u8>)
    ensures
        match r {
            Some(found) => found < count && position(at, count as nat) == Some(found as nat),
            None => position(at, count as nat) is None,
        },
{
    let mut left: u8 = count;
    while left > 0
        invariant
            left <= count,
            position(at, count as nat) == position(at, left as nat),
        decreases left,
    {
        if at == Real::from_count(left - 1) {
            return Some(left - 1);
        }
        left -= 1;
    }
    None
}

/// How long a follower takes from where it stands to a level: the attack on the
/// way up, the release on the way down.
pub fn follow_time(level: Real, held: Real, attack: Real, release: Real) -> (r: Real)
    ensures
        r == if held.lt(level) {
            attack
        } else {
            release
        },
{
    if held.is_less(level) {
        attack
    } else {
        release
    }
}

/// How many keys are down.
fn count_keys(table: u128) -> (r: u8)
    ensures
        r == keys_down(table, 128),
{
    let mut down: u8 = 0;
    let mut key: u8 = 0;
    while key < 128
        invariant
            down <= key <= 128,
            down == keys_down(table, key as nat),
        decreases 128 - key,
    {
        if let Some(bit) = key_bit(key as i16) {
            if table & bit != 0 {
                down += 1;
            }
        }
        key += 1;
    }
    down
}

fn latest_heard(events: &Vec<Event>, channel: i16, cc: u8) -> (r: Option<Real>)
    ensures
        r == last_heard(events@, channel, cc, events@.len()),
{
    let mut at: usize = events.len();
    while at > 0
        invariant
            at <= events@.len(),
            last_heard(events@, channel, cc, events@.len()) == last_heard(
                events@,
                channel,
                cc,
                at as nat,
            ),
        decreases at,
    {
        if let Event::Note(NoteEvent::Cc { channel: on, cc: number, value, .. }) = events[at - 1] {
            if number == cc && (channel < 0 || channel == on) {
                return Some(value);
            }
        }
        at -= 1;
    }
    None
}

fn truth_of(yes: bool) -> (r: Real)
    ensures
        r == truth(yes),
{
    if yes {
        Real::one()
    } else {
        Real::zero()
    }
}

/// Whether a key is down on a note buffer. Out of range is never down.
pub fn held(notes: &NoteState, buf: u16, key: u8) -> (r: bool)
    ensures
        r == is_held(notes@, buf, key),
{
    if (buf as usize) < notes.bufs.len() {
        assert(notes@.bufs[buf as int] == notes.bufs@[buf as int]@);
        match key_bit(key as i16) {
            Some(bit) => notes.bufs[buf as usize].played.held & bit != 0,
            None => false,
        }
    } else {
        false
    }
}

/// Whether a key was struck in the sub-block a note buffer last carried.
pub fn struck(notes: &NoteState, buf: u16, key: u8) -> (r: bool)
    ensures
        r == is_struck(notes@, buf, key),
{
    if (buf as usize) < notes.bufs.len() {
        assert(notes@.bufs[buf as int] == notes.bufs@[buf as int]@);
        match key_bit(key as i16) {
            Some(bit) => notes.bufs[buf as usize].played.struck & bit != 0,
            None => false,
        }
    } else {
        false
    }
}

fn draw_after(rng: u32) -> (r: u32)
    ensures
        r == next_draw(rng),
{
    let wide: u64 = rng as u64 * 1664525 + 1013904223;
    (wide % 0x1_0000_0000) as u32
}

impl ParamState {
    pub fn new() -> (r: ParamState)
        ensures
            r@ == ParamsModel::fresh(),
            r@.wf(),
    {
        let mut lines: Vec<ParamLine> = Vec::new();
        while lines.len() < MAX_DELAY_LINES
            invariant
                lines@.len() <= MAX_DELAY_LINES,
                forall|i: int| 0 <= i < lines@.len() ==> (#[trigger] lines@[i])@ == LineModel::empty(),
            decreases MAX_DELAY_LINES - lines@.len(),
        {
            let line: ParamLine = ParamLine { ring: vec![Real::zero(); MAX_DELAY_TAPS], head: 0 };
            assert(line@ =~= LineModel::empty());
            lines.push(line);
        }
        let state: ParamState = ParamState {
            registers: vec![Real::zero(); MAX_REGISTERS],
            lfos: vec![
                LfoState { node: NO_NODE, phase: Real::zero(), hold: Real::zero() };
                MAX_LFOS
            ],
            lines,
            line_nodes: vec![NO_NODE; MAX_DELAY_LINES],
            line_order: vec![0; MAX_DELAY_LINES],
            latches: vec![Latch { node: NO_NODE, value: Real::not_set() }; MAX_LATCHES],
            rng: SEED,
        };
        proof {
            assert(state@ =~= ParamsModel::fresh());
        }
        state
    }

    fn value_of(&self, operand: Operand) -> (r: Real)
        requires
            self@.wf(),
            operand matches Operand::Reg(reg) ==> reg < MAX_REGISTERS,
        ensures
            r == self@.value_of(operand),
    {
        match operand {
            Operand::Reg(reg) => self.registers[reg as usize],
            Operand::Value(value) => value,
        }
    }

    fn put(&mut self, out: Reg, value: Real)
        requires
            old(self)@.wf(),
            out < MAX_REGISTERS,
        ensures
            final(self)@ == old(self)@.with(out, value),
            final(self)@.wf(),
    {
        let ghost before = self@;
        self.registers[out as usize] = value;
        assert(self@ =~= before.with(out, value));
        assert(self@.lines == before.lines);
    }

    /// Sets a latch.
    pub fn latch(&mut self, state: u16, value: Real)
        requires
            old(self)@.wf(),
            state < MAX_LATCHES,
        ensures
            final(self)@ == old(self)@.latched(state, value),
            final(self)@.wf(),
    {
        let ghost before = self@;
        let node: NodeId = self.latches[state as usize].node;
        self.latches[state as usize] = Latch { node, value };
        assert(self@ =~= before.latched(state, value));
        assert(self@.lines == before.lines);
    }

    fn standing(&self, state: u16, initial: Real) -> (r: Real)
        requires
            self@.wf(),
            state < MAX_LATCHES,
        ensures
            r == self@.standing(state, initial),
    {
        let value: Real = self.latches[state as usize].value;
        if value.is_nan() {
            initial
        } else {
            value
        }
    }

    fn write_line(&mut self, line: u16, value: Real)
        requires
            old(self)@.wf(),
            line < MAX_DELAY_LINES,
        ensures
            final(self)@ == (ParamsModel {
                lines: old(self)@.lines.update(
                    line as int,
                    old(self)@.lines[line as int].pushed(value),
                ),
                ..old(self)@
            }),
            final(self)@.wf(),
    {
        let ghost before = self@;
        let index: usize = line as usize;
        assert(before.lines[line as int].wf());
        let head: usize = self.lines[index].head;
        self.lines[index].ring[head] = value;
        self.lines[index].head = (head + 1) % MAX_DELAY_TAPS;
        proof {
            let next = before.lines[line as int].pushed(value);
            assert(self.lines@[line as int]@ =~= next);
            assert(self@.lines =~= before.lines.update(line as int, next));
            assert(next.wf());
        }
    }

    /// Puts two numbers to an operation, or asks for it.
    fn do_math(&mut self, out: Reg, a: Reg, b: Operand, by: MathOp) -> (r: ParamWork)
        requires
            old(self)@.wf(),
            out < MAX_REGISTERS,
            a < MAX_REGISTERS,
            b matches Operand::Reg(reg) ==> reg < MAX_REGISTERS,
        ensures
            final(self)@.wf(),
            forall|slots: Seq<Real>, notes: NotesModel|
                final(self)@ == #[trigger] old(self)@.did(Op::Math { out, a, b, op: by }, slots, notes),
            forall|notes: NotesModel|
                r == #[trigger] old(self)@.asks(Op::Math { out, a, b, op: by }, notes),
            work_fits(r),
    {
        let a: Real = self.registers[a as usize];
        let b: Real = self.value_of(b);
        match by {
            MathOp::Add => ParamWork::Math { out, a, b, by: Arithmetic::Sum },
            MathOp::Subtract => ParamWork::Math { out, a, b, by: Arithmetic::Difference },
            MathOp::Multiply => ParamWork::Math { out, a, b, by: Arithmetic::Product },
            MathOp::Curve => ParamWork::Math {
                out,
                a: a.clamp(Real::zero(), Real::one()),
                b: b.clamp(Real { bits: LEAST_EXPONENT }, Real { bits: GREATEST_EXPONENT }),
                by: Arithmetic::Power,
            },
            MathOp::Min => {
                self.put(out, a.min(b));
                ParamWork::Nothing
            },
            MathOp::Max => {
                self.put(out, a.max(b));
                ParamWork::Nothing
            },
        }
    }

    /// Reads something off a note buffer, or asks where a key lies.
    fn follow_notes(&mut self, out: Reg, buf: u16, state: u16, what: Follow, notes: &NoteState) -> (r:
        ParamWork)
        requires
            old(self)@.wf(),
            out < MAX_REGISTERS,
            state < MAX_LATCHES,
        ensures
            final(self)@.wf(),
            forall|slots: Seq<Real>|
                final(self)@ == #[trigger] old(self)@.did(
                    Op::NoteFollow { out, buf, state, what },
                    slots,
                    notes@,
                ),
            r == old(self)@.asks(Op::NoteFollow { out, buf, state, what }, notes@),
            work_fits(r),
    {
        let value: Real = if (buf as usize) < notes.bufs.len() {
            assert(notes@.bufs[buf as int] == notes.bufs@[buf as int]@);
            let heard: &crate::note_state::Played = &notes.bufs[buf as usize].played;
            match what {
                Follow::Velocity => heard.velocity,
                Follow::KeyTrack => match heard.key {
                    KeyTrack::Key(key) => {
                        return ParamWork::Track { out, state, key };
                    },
                    KeyTrack::Centre => Real::half(),
                },
                Follow::Gate => truth_of(heard.count > 0),
                Follow::HeldKeys => Real::from_count(count_keys(heard.held)),
            }
        } else {
            match what {
                Follow::KeyTrack => Real::half(),
                _ => Real::zero(),
            }
        };
        self.latch(state, value);
        self.put(out, value);
        ParamWork::Nothing
    }

    /// Reads where a controller stands.
    fn read_controller(
        &mut self,
        out: Reg,
        buf: u16,
        state: u16,
        channel: i16,
        cc: u8,
        initial: Real,
        notes: &NoteState,
    )
        requires
            old(self)@.wf(),
            out < MAX_REGISTERS,
            state < MAX_LATCHES,
        ensures
            final(self)@.wf(),
            forall|slots: Seq<Real>|
                final(self)@ == #[trigger] old(self)@.did(
                    Op::NoteCc { out, buf, state, channel, cc, initial },
                    slots,
                    notes@,
                ),
    {
        if (buf as usize) < notes.bufs.len() {
            assert(notes@.bufs[buf as int] == notes.bufs@[buf as int]@);
            if let Some(value) = latest_heard(&notes.bufs[buf as usize].events, channel, cc) {
                self.latch(state, value);
            }
        }
        let value: Real = self.standing(state, initial);
        self.put(out, value);
    }

    /// Runs one operation as far as it goes without arithmetic, and says what is
    /// left.
    pub fn step(&mut self, op: &Op, slots: &[Real], notes: &NoteState) -> (r: ParamWork)
        requires
            old(self)@.wf(),
            op_fits(*op),
        ensures
            final(self)@ == old(self)@.did(*op, slots@, notes@),
            r == old(self)@.asks(*op, notes@),
            final(self)@.wf(),
            work_fits(r),
    {
        match *op {
            Op::Const { out, value } => {
                self.put(out, value);
                ParamWork::Nothing
            },
            Op::Slot { out, slot } => {
                let value: Real = if (slot as usize) < slots.len() {
                    slots[slot as usize]
                } else {
                    Real::zero()
                };
                self.put(out, value);
                ParamWork::Nothing
            },
            Op::Lfo { out, state, waveform, rate, offset_phase, depth, centre } => {
                let lfo: LfoState = self.lfos[state as usize];
                ParamWork::Lfo {
                    out,
                    state,
                    waveform,
                    rate,
                    offset_phase,
                    depth,
                    centre,
                    phase: lfo.phase,
                    hold: lfo.hold,
                    draw: draw_after(self.rng),
                }
            },
            Op::Math { out, a, b, op: by } => {
                proof {
                    assert(reads(*op, a));
                    if let Operand::Reg(reg) = b {
                        assert(reads(*op, reg));
                    }
                }
                self.do_math(out, a, b, by)
            },
            Op::Range { out, a, in_lo, in_hi, out_lo, out_hi, clamp } => {
                assert(reads(*op, a));
                ParamWork::Range {
                    out,
                    value: self.registers[a as usize],
                    in_lo,
                    in_hi,
                    out_lo,
                    out_hi,
                    clamp,
                }
            },
            Op::Select { out, control, threshold, low, high } => {
                proof {
                    assert(reads(*op, control));
                    if let Operand::Reg(reg) = low {
                        assert(reads(*op, reg));
                    }
                    if let Operand::Reg(reg) = high {
                        assert(reads(*op, reg));
                    }
                }
                let value: Real = if self.registers[control as usize].is_at_least(threshold) {
                    self.value_of(high)
                } else {
                    self.value_of(low)
                };
                self.put(out, value);
                ParamWork::Nothing
            },
            Op::DelayRead { out, line, time, time_reg } => {
                if (line as usize) < self.lines.len() {
                    let time: Real = match time_reg {
                        Some(reg) => {
                            assert(reads(*op, reg));
                            self.registers[reg as usize].max(Real::zero())
                        },
                        None => time,
                    };
                    ParamWork::Taps { out, line, time }
                } else {
                    self.put(out, Real::zero());
                    ParamWork::Nothing
                }
            },
            Op::DelayWrite { line, a } => {
                assert(reads(*op, a));
                if (line as usize) < self.lines.len() {
                    let value: Real = self.registers[a as usize];
                    self.write_line(line, value);
                }
                ParamWork::Nothing
            },
            Op::KeyHeld { out, buf, key } => {
                self.put(out, truth_of(held(notes, buf, key)));
                ParamWork::Nothing
            },
            Op::Follow { out, buf, state, detect, attack, release } => {
                let value: Real = self.latches[state as usize].value;
                ParamWork::Level {
                    out,
                    state,
                    buf,
                    detect,
                    held: if value.is_finite() {
                        value
                    } else {
                        Real::zero()
                    },
                    attack,
                    release,
                }
            },
            Op::NoteFollow { out, buf, state, what } => {
                self.follow_notes(out, buf, state, what, notes)
            },
            Op::KeyStep { state, buf, key, count } => {
                if struck(notes, buf, key) && count > 0 {
                    let at: Real = self.standing(state, Real::zero());
                    match position_of(at, count) {
                        Some(position) => {
                            let next: u8 = if position + 1 < count {
                                position + 1
                            } else {
                                0
                            };
                            self.latch(state, Real::from_count(next));
                            ParamWork::Nothing
                        },
                        None => ParamWork::Step { state, at, count },
                    }
                } else {
                    ParamWork::Nothing
                }
            },
            Op::KeyLatch { state, buf, key, value } => {
                if struck(notes, buf, key) {
                    self.latch(state, value);
                }
                ParamWork::Nothing
            },
            Op::LatchIs { out, state, value, initial } => {
                let at: Real = self.standing(state, initial);
                self.put(out, truth_of(at.is_equal(value)));
                ParamWork::Nothing
            },
            Op::NoteCc { out, buf, state, channel, cc, initial } => {
                self.read_controller(out, buf, state, channel, cc, initial, notes);
                ParamWork::Nothing
            },
            Op::Latch { out, state, initial } => {
                let value: Real = self.standing(state, initial);
                self.put(out, value);
                ParamWork::Nothing
            },
        }
    }

    fn turn(
        &mut self,
        out: Reg,
        state: u16,
        random: bool,
        draw: u32,
        value: Real,
        phase: Real,
        hold: Option<Real>,
    )
        requires
            old(self)@.wf(),
            out < MAX_REGISTERS,
            state < MAX_LFOS,
        ensures
            final(self)@.wf(),
            final(self)@ == ({
                let lfo = old(self)@.lfos[state as int];
                match hold {
                    Some(hold) if random => ParamsModel {
                        lfos: old(self)@.lfos.update(
                            state as int,
                            LfoState { phase, hold, ..lfo },
                        ),
                        rng: draw,
                        ..old(self)@
                    },
                    _ => ParamsModel {
                        lfos: old(self)@.lfos.update(state as int, LfoState { phase, ..lfo }),
                        ..old(self)@
                    },
                }.with(out, value)
            }),
    {
        let ghost before = self@;
        let lfo: LfoState = self.lfos[state as usize];
        let kept: Real = match hold {
            Some(drawn) => if random {
                self.rng = draw;
                drawn
            } else {
                lfo.hold
            },
            None => lfo.hold,
        };
        self.lfos[state as usize] = LfoState { node: lfo.node, phase, hold: kept };
        assert(self@.lines == before.lines);
        assert(self@.wf());
        self.put(out, value);
    }

    /// Finishes an operation with what its work came to.
    pub fn settle(&mut self, work: &ParamWork, answer: &Answer)
        requires
            old(self)@.wf(),
            work_fits(*work),
        ensures
            final(self)@ == old(self)@.answered(*work, *answer),
            final(self)@.wf(),
    {
        match (*work, *answer) {
            (ParamWork::Math { out, .. }, Answer::Value(value)) => self.put(out, value),
            (ParamWork::Range { out, .. }, Answer::Value(value)) => self.put(out, value),
            (
                ParamWork::Lfo { out, state, waveform, draw, .. },
                Answer::Wave { value, phase, hold },
            ) => {
                let random: bool = match waveform {
                    Waveform::Random => true,
                    _ => false,
                };
                self.turn(out, state, random, draw, value, phase, hold);
            },
            (ParamWork::Taps { out, line, .. }, Answer::Taps(taps)) => {
                let taps: usize = match taps {
                    Some(taps) => if taps < 1 {
                        1
                    } else if taps > MAX_DELAY_TAPS - 1 {
                        MAX_DELAY_TAPS - 1
                    } else {
                        taps
                    },
                    None => 0,
                };
                assert(self@.lines[line as int].wf());
                let head: usize = self.lines[line as usize].head;
                let at: usize = (head + MAX_DELAY_TAPS - taps) % MAX_DELAY_TAPS;
                let value: Real = self.lines[line as usize].ring[at];
                self.put(out, value);
            },
            (ParamWork::Level { out, state, .. }, Answer::Value(value)) => {
                self.latch(state, value);
                self.put(out, value);
            },
            (ParamWork::Track { out, state, .. }, Answer::Value(value)) => {
                self.latch(state, value);
                self.put(out, value);
            },
            (ParamWork::Step { state, .. }, Answer::Value(value)) => self.latch(state, value),
            _ => {},
        }
    }
}

/// A latch that stands at a position is found there.
proof fn lemma_position(at: nat, count: nat)
    requires
        at < count <= 256,
    ensures
        position(Real::counted(at), count) == Some(at),
    decreases count,
{
    if at + 1 < count {
        law_counts_are_in_order(at, (count - 1) as nat);
        lemma_position(at, (count - 1) as nat);
    }
}

/// Striking the key of a toggle moves it on to the next position, from the last
/// back to the first; not striking it leaves it where it was put. A toggle that
/// nothing has moved stands at the first position.
pub proof fn law_toggle_moves_on(
    state: ParamsModel,
    latch: u16,
    buf: u16,
    key: u8,
    at: nat,
    count: u8,
    slots: Seq<Real>,
    notes: NotesModel,
)
    requires
        latch < state.latches.len(),
        at < count,
        state.standing(latch, Real::zeroed()) == Real::counted(at),
    ensures
        ({
            let op = Op::KeyStep { state: latch, buf, key, count };
            let after = state.did(op, slots, notes);
            &&& state.asks(op, notes) is Nothing
            &&& is_struck(notes, buf, key) ==> after.standing(latch, Real::zeroed())
                == Real::counted(position_after(at, count as nat))
            &&& !is_struck(notes, buf, key) ==> after == state
        }),
{
    lemma_position(at, count as nat);
    let next = position_after(at, count as nat);
    if next > 0 {
        law_counts_are_in_order(0, next);
    } else {
        law_counts_are_in_order(0, 1);
    }
}

/// Of the outputs that hang on one latch, just the one at the position where it
/// stands is open.
pub proof fn law_latch_opens_one(
    state: ParamsModel,
    latch: u16,
    out: Reg,
    at: nat,
    output: nat,
    slots: Seq<Real>,
    notes: NotesModel,
)
    requires
        latch < state.latches.len(),
        out < state.registers.len(),
        at < 256,
        output < 256,
        state.standing(latch, Real::zeroed()) == Real::counted(at),
    ensures
        ({
            let op = Op::LatchIs {
                out,
                state: latch,
                value: Real::counted(output),
                initial: Real::zeroed(),
            };
            state.did(op, slots, notes).registers[out as int] == truth(at == output)
        }),
{
    if at < output {
        law_counts_are_in_order(at, output);
    } else if output < at {
        law_counts_are_in_order(output, at);
    } else if at > 0 {
        law_counts_are_in_order(0, at);
    } else {
        law_counts_are_in_order(0, 1);
    }
}

/// What lands in a lane. A lane of the host carries nought to one; the lanes of
/// the audio half carry physical units. Nothing carries what is not a number.
pub open spec fn landed(value: Real, lane: u16, base: u16) -> Real {
    if !value.finite() {
        Real::zeroed()
    } else if lane < base {
        value.within(Real::zeroed(), Real::unit())
    } else {
        value
    }
}

/// The lanes once the first `count` outputs have landed.
pub open spec fn lanes_written(
    slots: Seq<Real>,
    outputs: Seq<(u16, Reg)>,
    registers: Seq<Real>,
    base: u16,
    count: nat,
) -> Seq<Real>
    decreases count,
{
    if count == 0 {
        slots
    } else {
        let before = lanes_written(slots, outputs, registers, base, (count - 1) as nat);
        let (lane, reg) = outputs[count - 1];
        if lane < before.len() {
            before.update(lane as int, landed(registers[reg as int], lane, base))
        } else {
            before
        }
    }
}

/// A lane that no output names keeps its value.
pub proof fn law_undriven_lanes_are_left_alone(
    slots: Seq<Real>,
    outputs: Seq<(u16, Reg)>,
    registers: Seq<Real>,
    base: u16,
    lane: int,
)
    requires
        0 <= lane < slots.len(),
        forall|i: int| 0 <= i < outputs.len() ==> (#[trigger] outputs[i]).0 != lane,
    ensures
        lanes_written(slots, outputs, registers, base, outputs.len()).len() == slots.len(),
        lanes_written(slots, outputs, registers, base, outputs.len())[lane] == slots[lane],
{
    lemma_undriven(slots, outputs, registers, base, lane, outputs.len());
}

proof fn lemma_undriven(
    slots: Seq<Real>,
    outputs: Seq<(u16, Reg)>,
    registers: Seq<Real>,
    base: u16,
    lane: int,
    count: nat,
)
    requires
        0 <= lane < slots.len(),
        count <= outputs.len(),
        forall|i: int| 0 <= i < outputs.len() ==> (#[trigger] outputs[i]).0 != lane,
    ensures
        lanes_written(slots, outputs, registers, base, count).len() == slots.len(),
        lanes_written(slots, outputs, registers, base, count)[lane] == slots[lane],
    decreases count,
{
    if count > 0 {
        lemma_undriven(slots, outputs, registers, base, lane, (count - 1) as nat);
        assert(outputs[count - 1].0 != lane);
    }
}

/// Every lane of the host that the program drives is left between nought and
/// one, whatever the registers held.
pub proof fn law_driven_lanes_are_normalized(
    slots: Seq<Real>,
    outputs: Seq<(u16, Reg)>,
    registers: Seq<Real>,
    base: u16,
    lane: int,
)
    requires
        0 <= lane < slots.len(),
        lane < base,
        exists|i: int| 0 <= i < outputs.len() && (#[trigger] outputs[i]).0 == lane,
    ensures
        ({
            let value = lanes_written(slots, outputs, registers, base, outputs.len())[lane];
            value.ge(Real::zeroed()) && Real::unit().ge(value)
        }),
{
    lemma_driven(slots, outputs, registers, base, lane, outputs.len());
}

proof fn lemma_driven(
    slots: Seq<Real>,
    outputs: Seq<(u16, Reg)>,
    registers: Seq<Real>,
    base: u16,
    lane: int,
    count: nat,
)
    requires
        0 <= lane < slots.len(),
        lane < base,
        count <= outputs.len(),
    ensures
        lanes_written(slots, outputs, registers, base, count).len() == slots.len(),
        (exists|i: int| 0 <= i < count && (#[trigger] outputs[i]).0 == lane) ==> {
            let value = lanes_written(slots, outputs, registers, base, count)[lane];
            value.ge(Real::zeroed()) && Real::unit().ge(value)
        },
    decreases count,
{
    if count > 0 {
        lemma_driven(slots, outputs, registers, base, lane, (count - 1) as nat);
    }
}

/// The oscillator of a node, or one that has not started.
pub open spec fn oscillator_from(lfos: Seq<LfoState>, node: NodeId, at: int) -> LfoState
    decreases lfos.len() - at,
{
    if at >= lfos.len() {
        LfoState { node, phase: Real::zeroed(), hold: Real::zeroed() }
    } else if lfos[at].node == node {
        lfos[at]
    } else {
        oscillator_from(lfos, node, at + 1)
    }
}

/// The latch of a node, or one that nothing has set.
pub open spec fn latch_from(latches: Seq<Latch>, node: NodeId, at: int) -> Latch
    decreases latches.len() - at,
{
    if at >= latches.len() {
        Latch { node, value: Real::unset() }
    } else if latches[at].node == node {
        latches[at]
    } else {
        latch_from(latches, node, at + 1)
    }
}

impl ParamsModel {
    /// The oscillators of another program. Of the `running` ones, those whose node it still
    /// has run on.
    pub open spec fn lfos_for(self, running: int, nodes: Seq<NodeId>) -> Seq<LfoState> {
        Seq::new(
            self.lfos.len(),
            |i: int|
                if i < nodes.len() {
                    oscillator_from(self.lfos.take(running), nodes[i], 0)
                } else {
                    LfoState { node: NO_NODE, ..self.lfos[i] }
                },
        )
    }

    /// The latches of another program. Those whose node it still has stay set.
    pub open spec fn latches_for(self, nodes: Seq<NodeId>) -> Seq<Latch> {
        Seq::new(
            self.latches.len(),
            |i: int|
                if i < nodes.len() {
                    latch_from(self.latches, nodes[i], 0)
                } else {
                    Latch { node: NO_NODE, value: Real::unset() }
                },
        )
    }

    /// The rings put in the order another program has them in.
    pub open spec fn settled_lines(self, nodes: Seq<NodeId>) -> Settling<LineModel> {
        let lines = lines_of(self.line_nodes, nodes);
        settle(
            Settling {
                rings: self.lines,
                order: asked(self.line_nodes, self.line_order, nodes, lines),
            },
            lines,
            lines as nat,
        )
    }

    /// What another program starts from. The one before it had `running` oscillators.
    pub open spec fn adopted(
        self,
        running: int,
        lfo_nodes: Seq<NodeId>,
        latch_nodes: Seq<NodeId>,
        delay_nodes: Seq<NodeId>,
    ) -> ParamsModel {
        let settled = self.settled_lines(delay_nodes);
        ParamsModel {
            lfos: self.lfos_for(running, lfo_nodes),
            latches: self.latches_for(latch_nodes),
            lines: Seq::new(
                self.lines.len(),
                |i: int|
                    if i < delay_nodes.len() && settled.order[i] == NOT_PRESENT {
                        LineModel::empty()
                    } else {
                        settled.rings[i]
                    },
            ),
            line_order: settled.order,
            line_nodes: Seq::new(
                self.line_nodes.len(),
                |i: int|
                    if i < delay_nodes.len() {
                        delay_nodes[i]
                    } else {
                        NO_NODE
                    },
            ),
            ..self
        }
    }

    /// What a modulator carried between blocks, gone. Latches stay.
    pub open spec fn forgotten(self) -> ParamsModel {
        ParamsModel {
            lfos: Seq::new(
                self.lfos.len(),
                |i: int|
                    LfoState { phase: Real::zeroed(), hold: Real::zeroed(), ..self.lfos[i] },
            ),
            lines: Seq::new(self.lines.len(), |i: int| LineModel::empty()),
            ..self
        }
    }

    /// The latches, gone as well.
    pub open spec fn unlatched(self) -> ParamsModel {
        ParamsModel {
            latches: Seq::new(
                self.latches.len(),
                |i: int| Latch { value: Real::unset(), ..self.latches[i] },
            ),
            ..self
        }
    }
}

fn find_oscillator(lfos: &Vec<LfoState>, running: usize, node: NodeId) -> (r: LfoState)
    requires
        running <= lfos@.len(),
    ensures
        r == oscillator_from(lfos@.take(running as int), node, 0),
{
    let ghost live = lfos@.take(running as int);
    let mut at: usize = 0;
    while at < running
        invariant
            at <= running <= lfos@.len(),
            live == lfos@.take(running as int),
            oscillator_from(live, node, 0) == oscillator_from(live, node, at as int),
        decreases running - at,
    {
        if lfos[at].node == node {
            return lfos[at];
        }
        at += 1;
    }
    LfoState { node, phase: Real::zero(), hold: Real::zero() }
}

fn find_latch(latches: &Vec<Latch>, node: NodeId) -> (r: Latch)
    ensures
        r == latch_from(latches@, node, 0),
{
    let mut at: usize = 0;
    while at < latches.len()
        invariant
            at <= latches@.len(),
            latch_from(latches@, node, 0) == latch_from(latches@, node, at as int),
        decreases latches@.len() - at,
    {
        if latches[at].node == node {
            return latches[at];
        }
        at += 1;
    }
    Latch { node, value: Real::not_set() }
}

fn clear_ring(line: &mut ParamLine)
    requires
        old(line).ring@.len() == MAX_DELAY_TAPS,
    ensures
        final(line)@ == LineModel::empty(),
{
    let mut at: usize = 0;
    while at < MAX_DELAY_TAPS
        invariant
            at <= MAX_DELAY_TAPS,
            line.ring@.len() == MAX_DELAY_TAPS,
            forall|i: int| 0 <= i < at ==> #[trigger] line.ring@[i] == Real::zeroed(),
        decreases MAX_DELAY_TAPS - at,
    {
        line.ring[at] = Real::zero();
        at += 1;
    }
    line.head = 0;
    assert(line@ =~= LineModel::empty());
}

impl ParamState {
    /// Lands the registers in the lanes they drive.
    pub fn write_lanes(&self, outputs: &Vec<(u16, Reg)>, base: u16, slots: &mut [Real])
        requires
            self@.wf(),
            forall|i: int| 0 <= i < outputs@.len() ==> (#[trigger] outputs@[i]).1 < MAX_REGISTERS,
        ensures
            final(slots)@ == lanes_written(
                old(slots)@,
                outputs@,
                self@.registers,
                base,
                outputs@.len(),
            ),
            final(slots)@.len() == old(slots)@.len(),
    {
        let ghost before = slots@;
        let mut at: usize = 0;
        while at < outputs.len()
            invariant
                at <= outputs@.len(),
                self@.wf(),
                before == old(slots)@,
                slots@ == lanes_written(before, outputs@, self@.registers, base, at as nat),
                slots@.len() == before.len(),
                forall|i: int|
                    0 <= i < outputs@.len() ==> (#[trigger] outputs@[i]).1 < MAX_REGISTERS,
            decreases outputs@.len() - at,
        {
            let (lane, reg) = outputs[at];
            if (lane as usize) < slots.len() {
                let value: Real = self.registers[reg as usize];
                slots[lane as usize] = if !value.is_finite() {
                    Real::zero()
                } else if lane < base {
                    value.clamp(Real::zero(), Real::one())
                } else {
                    value
                };
            }
            at += 1;
        }
    }

    fn adopt_lfos(&mut self, running: usize, nodes: &Vec<NodeId>)
        requires
            old(self)@.wf(),
            running <= MAX_LFOS,
        ensures
            final(self)@ == (ParamsModel { lfos: old(self)@.lfos_for(running as int, nodes@), ..old(self)@ }),
            final(self)@.wf(),
    {
        let ghost before = self@;
        let mut next: Vec<LfoState> = Vec::new();
        while next.len() < MAX_LFOS
            invariant
                self@ == before,
                before.wf(),
                running <= MAX_LFOS,
                next@.len() <= MAX_LFOS,
                next@ == before.lfos_for(running as int, nodes@).take(next@.len() as int),
            decreases MAX_LFOS - next@.len(),
        {
            let at: usize = next.len();
            let lfo: LfoState = if at < nodes.len() {
                find_oscillator(&self.lfos, running, nodes[at])
            } else {
                LfoState { node: NO_NODE, ..self.lfos[at] }
            };
            let ghost had = next@;
            next.push(lfo);
            assert(next@ =~= before.lfos_for(running as int, nodes@).take(next@.len() as int));
        }
        self.lfos = next;
        assert(self@.lines == before.lines);
    }

    fn adopt_latches(&mut self, nodes: &Vec<NodeId>)
        requires
            old(self)@.wf(),
        ensures
            final(self)@ == (ParamsModel { latches: old(self)@.latches_for(nodes@), ..old(self)@ }),
            final(self)@.wf(),
    {
        let ghost before = self@;
        let mut next: Vec<Latch> = Vec::new();
        while next.len() < MAX_LATCHES
            invariant
                self@ == before,
                before.wf(),
                next@.len() <= MAX_LATCHES,
                next@ == before.latches_for(nodes@).take(next@.len() as int),
            decreases MAX_LATCHES - next@.len(),
        {
            let at: usize = next.len();
            let latch: Latch = if at < nodes.len() {
                find_latch(&self.latches, nodes[at])
            } else {
                Latch { node: NO_NODE, value: Real::not_set() }
            };
            next.push(latch);
            assert(next@ =~= before.latches_for(nodes@).take(next@.len() as int));
        }
        self.latches = next;
        assert(self@.lines == before.lines);
    }

    /// Takes over what the nodes of another program have in common with this
    /// one's: phases run on, latches stay set, and delay lines stay full. This
    /// one had `running` oscillators.
    #[verifier::rlimit(40)]
    pub fn adopt(
        &mut self,
        running: usize,
        lfo_nodes: &Vec<NodeId>,
        latch_nodes: &Vec<NodeId>,
        delay_nodes: &Vec<NodeId>,
    )
        requires
            old(self)@.wf(),
            running <= MAX_LFOS,
            delay_nodes@.len() <= MAX_DELAY_LINES,
        ensures
            final(self)@ == old(self)@.adopted(
                running as int,
                lfo_nodes@,
                latch_nodes@,
                delay_nodes@,
            ),
            final(self)@.wf(),
    {
        let ghost first = self@;
        self.adopt_lfos(running, lfo_nodes);
        self.adopt_latches(latch_nodes);
        let ghost before = self@;
        let ghost start = Settling {
            rings: self.lines@,
            order: asked(
                before.line_nodes,
                before.line_order,
                delay_nodes@,
                lines_of(before.line_nodes, delay_nodes@),
            ),
        };
        let ghost settled = first.settled_lines(delay_nodes@);
        proof {
            let f = |line: ParamLine| line@;
            let lines = lines_of(before.line_nodes, delay_nodes@);
            lemma_asked(before.line_nodes, before.line_order, delay_nodes@);
            lemma_settle_mapped(start, f, lines, lines as nat);
            assert(start.rings.map_values(f) =~= before.lines);
            assert forall|i: int| 0 <= i < start.rings.len() implies (#[trigger] start.rings[i])@.wf() by {
                assert(before.lines[i] == start.rings[i]@);
            }
            lemma_settled_wf(start.rings, start.order, lines, lines as nat);
        }
        reorder(
            &mut self.lines,
            &mut self.line_nodes,
            &mut self.line_order,
            delay_nodes.as_slice(),
        );
        proof {
            let f = |line: ParamLine| line@;
            assert(lines_view(self.lines@) =~= self.lines@.map_values(f));
            assert(self@.lines == settled.rings);
            assert(self@.line_order == settled.order);
        }
        let mut at: usize = 0;
        while at < delay_nodes.len()
            invariant
                at <= delay_nodes@.len() <= MAX_DELAY_LINES,
                self.lines@.len() == MAX_DELAY_LINES,
                self.line_order@ == settled.order,
                settled.order.len() == MAX_DELAY_LINES,
                settled.rings.len() == MAX_DELAY_LINES,
                forall|i: int| 0 <= i < settled.rings.len() ==> (#[trigger] settled.rings[i]).wf(),
                self@ == (ParamsModel { lines: self@.lines, ..self@ }),
                self@.registers == first.registers,
                self@.lfos == before.lfos,
                self@.latches == before.latches,
                self@.rng == first.rng,
                self@.line_nodes.len() == MAX_DELAY_LINES,
                forall|i: int|
                    0 <= i < MAX_DELAY_LINES ==> #[trigger] self@.line_nodes[i] == if i
                        < delay_nodes@.len() {
                        delay_nodes@[i]
                    } else {
                        NO_NODE
                    },
                forall|i: int|
                    0 <= i < MAX_DELAY_LINES ==> (#[trigger] self.lines@[i])@ == if i < at
                        && settled.order[i] == NOT_PRESENT {
                        LineModel::empty()
                    } else {
                        settled.rings[i]
                    },
            decreases delay_nodes@.len() - at,
        {
            if self.line_order[at] == NOT_PRESENT {
                assert(settled.rings[at as int].wf());
                assert(self.lines@[at as int]@ == settled.rings[at as int]);
                clear_ring(&mut self.lines[at]);
            }
            at += 1;
        }
        proof {
            let want = first.adopted(
                running as int,
                lfo_nodes@,
                latch_nodes@,
                delay_nodes@,
            );
            assert(self@.lines =~= want.lines);
            assert(self@.line_nodes =~= want.line_nodes);
            assert(self@ =~= want);
            assert forall|i: int| 0 <= i < self@.lines.len() implies (#[trigger] self@.lines[i]).wf() by {
                assert(self.lines@[i]@ == self@.lines[i]);
                assert(LineModel::empty().wf());
            }
        }
    }

    /// Forgets what modulators carried between blocks. A latch is a setting and
    /// stays.
    pub fn forget(&mut self)
        requires
            old(self)@.wf(),
        ensures
            final(self)@ == old(self)@.forgotten(),
            final(self)@.wf(),
    {
        let ghost before = self@;
        let mut at: usize = 0;
        while at < MAX_LFOS
            invariant
                at <= MAX_LFOS,
                before == old(self)@,
                before.wf(),
                self@ == (ParamsModel { lfos: self@.lfos, ..before }),
                self@.lfos.len() == MAX_LFOS,
                forall|i: int|
                    0 <= i < MAX_LFOS ==> #[trigger] self.lfos@[i] == if i < at {
                        LfoState { phase: Real::zeroed(), hold: Real::zeroed(), ..before.lfos[i] }
                    } else {
                        before.lfos[i]
                    },
            decreases MAX_LFOS - at,
        {
            let node: NodeId = self.lfos[at].node;
            self.lfos[at] = LfoState { node, phase: Real::zero(), hold: Real::zero() };
            at += 1;
        }
        let ghost still = self@;
        assert(still.lines == before.lines);
        let mut at: usize = 0;
        while at < MAX_DELAY_LINES
            invariant
                at <= MAX_DELAY_LINES,
                before.wf(),
                self@ == (ParamsModel { lines: self@.lines, ..still }),
                self.lines@.len() == MAX_DELAY_LINES,
                still.lines == before.lines,
                forall|i: int|
                    0 <= i < MAX_DELAY_LINES ==> (#[trigger] self.lines@[i])@ == if i < at {
                        LineModel::empty()
                    } else {
                        before.lines[i]
                    },
            decreases MAX_DELAY_LINES - at,
        {
            assert(before.lines[at as int].wf());
            assert(self.lines@[at as int]@ == before.lines[at as int]);
            clear_ring(&mut self.lines[at]);
            at += 1;
        }
        proof {
            assert(self@.lines =~= before.forgotten().lines);
            assert(self@.lfos =~= before.forgotten().lfos);
            assert(self@ =~= before.forgotten());
            assert(LineModel::empty().wf());
        }
    }

    /// Forgets the settings that keys have made.
    pub fn unlatch(&mut self)
        requires
            old(self)@.wf(),
        ensures
            final(self)@ == old(self)@.unlatched(),
            final(self)@.wf(),
    {
        let ghost before = self@;
        let mut at: usize = 0;
        while at < MAX_LATCHES
            invariant
                at <= MAX_LATCHES,
                before == old(self)@,
                before.wf(),
                self@ == (ParamsModel { latches: self@.latches, ..before }),
                self@.latches.len() == MAX_LATCHES,
                forall|i: int|
                    0 <= i < MAX_LATCHES ==> #[trigger] self.latches@[i] == if i < at {
                        Latch { value: Real::unset(), ..before.latches[i] }
                    } else {
                        before.latches[i]
                    },
            decreases MAX_LATCHES - at,
        {
            let node: NodeId = self.latches[at].node;
            self.latches[at] = Latch { node, value: Real::not_set() };
            at += 1;
        }
        assert(self@.latches =~= before.unlatched().latches);
        assert(self@.lines == before.lines);
    }
}

proof fn lemma_settled_wf(rings: Seq<ParamLine>, order: Seq<usize>, lines: int, count: nat)
    requires
        0 <= count <= lines <= order.len(),
        rings.len() == order.len(),
        forall|i: int|
            0 <= i < lines ==> #[trigger] order[i] == NOT_PRESENT || order[i] < rings.len(),
        forall|i: int| 0 <= i < rings.len() ==> (#[trigger] rings[i])@.wf(),
    ensures
        ({
            let after = settle(Settling { rings, order }, lines, count);
            &&& forall|i: int| 0 <= i < after.rings.len() ==> (#[trigger] after.rings[i])@.wf()
        }),
    decreases count,
{
    if count > 0 {
        lemma_settled_wf(rings, order, lines, (count - 1) as nat);
        let f = |line: ParamLine| line@;
        lemma_settle_mapped(Settling { rings, order }, f, lines, (count - 1) as nat);
        let before = settle(Settling { rings, order }, lines, (count - 1) as nat);
        assert(before.order[count - 1] == NOT_PRESENT || before.order[count - 1]
            < before.rings.len());
    }
}

/// A jump of the playhead forgets what was in flight and keeps the latches, which
/// are settings; a full reset throws those back too.
pub proof fn law_a_reset_keeps_latches(state: ParamsModel, latch: int, line: int, taps: int)
    requires
        state.wf(),
        0 <= latch < MAX_LATCHES,
        0 <= line < MAX_DELAY_LINES,
        0 <= taps < MAX_DELAY_TAPS,
    ensures
        state.forgotten().latches == state.latches,
        state.forgotten().lines[line].back(taps) == Real::zeroed(),
        state.forgotten().unlatched().latches[latch].value.nan(),
        state.forgotten().unlatched().latches[latch].node == state.latches[latch].node,
{
}

/// A node that two programs have in common goes on where it stood: its
/// oscillator, its latch and its delay line are what they were.
pub proof fn law_common_nodes_go_on(
    state: ParamsModel,
    running: int,
    lfo_nodes: Seq<NodeId>,
    latch_nodes: Seq<NodeId>,
    delay_nodes: Seq<NodeId>,
    i: int,
    j: int,
)
    requires
        state.wf(),
        running <= MAX_LFOS,
        delay_nodes.len() <= MAX_DELAY_LINES,
        distinct_writers(delay_nodes),
    ensures
        ({
            let next = state.adopted(running, lfo_nodes, latch_nodes, delay_nodes);
            &&& 0 <= i < lfo_nodes.len() && i < MAX_LFOS && 0 <= j < running
                && state.lfos[j].node == lfo_nodes[i] && (forall|k: int|
                0 <= k < j ==> (#[trigger] state.lfos[k]).node != lfo_nodes[i]) ==> next.lfos[i]
                == state.lfos[j]
            &&& 0 <= i < latch_nodes.len() && i < MAX_LATCHES && 0 <= j < MAX_LATCHES
                && state.latches[j].node == latch_nodes[i] && (forall|k: int|
                0 <= k < j ==> (#[trigger] state.latches[k]).node != latch_nodes[i])
                ==> next.latches[i] == state.latches[j]
            &&& 0 <= i < delay_nodes.len() && delay_nodes[i] != NO_NODE && 0 <= j
                < MAX_DELAY_LINES && state.line_nodes[j] == delay_nodes[i] && (forall|k: int|
                0 <= k < j ==> (#[trigger] state.line_nodes[k]) != delay_nodes[i])
                ==> next.lines[i] == state.lines[j]
        }),
{
    if 0 <= i < lfo_nodes.len() && 0 <= j < running && state.lfos[j].node == lfo_nodes[i] && (
    forall|k: int| 0 <= k < j ==> (#[trigger] state.lfos[k]).node != lfo_nodes[i]) {
        let live = state.lfos.take(running);
        assert forall|k: int| 0 <= k < j implies (#[trigger] live[k]).node != lfo_nodes[i] by {
            assert(live[k] == state.lfos[k]);
        }
        lemma_oscillator_from(live, lfo_nodes[i], 0, j);
    }
    if 0 <= i < latch_nodes.len() && 0 <= j < MAX_LATCHES && state.latches[j].node
        == latch_nodes[i] && (forall|k: int|
        0 <= k < j ==> (#[trigger] state.latches[k]).node != latch_nodes[i]) {
        lemma_latch_from(state.latches, latch_nodes[i], 0, j);
    }
    if 0 <= i < delay_nodes.len() {
        law_reorder_keeps_rings(
            state.lines,
            state.line_nodes,
            state.line_order,
            delay_nodes,
            i,
        );
    }
}

/// What the program before did not have starts from nothing: an oscillator at phase 0, a
/// latch unset.
pub proof fn law_new_nodes_start_over(
    state: ParamsModel,
    running: int,
    lfo_nodes: Seq<NodeId>,
    latch_nodes: Seq<NodeId>,
    delay_nodes: Seq<NodeId>,
    i: int,
)
    requires
        state.wf(),
        0 <= running <= MAX_LFOS,
    ensures
        ({
            let next = state.adopted(running, lfo_nodes, latch_nodes, delay_nodes);
            &&& 0 <= i < lfo_nodes.len() && i < MAX_LFOS && (forall|k: int|
                0 <= k < running ==> (#[trigger] state.lfos[k]).node != lfo_nodes[i])
                ==> next.lfos[i] == (LfoState {
                node: lfo_nodes[i],
                phase: Real::zeroed(),
                hold: Real::zeroed(),
            })
            &&& 0 <= i < latch_nodes.len() && i < MAX_LATCHES && (forall|k: int|
                0 <= k < MAX_LATCHES ==> (#[trigger] state.latches[k]).node != latch_nodes[i])
                ==> next.latches[i] == (Latch { node: latch_nodes[i], value: Real::unset() })
        }),
{
    if 0 <= i < lfo_nodes.len() && (forall|k: int|
        0 <= k < running ==> (#[trigger] state.lfos[k]).node != lfo_nodes[i]) {
        let live = state.lfos.take(running);
        assert forall|k: int| 0 <= k < live.len() implies (#[trigger] live[k]).node
            != lfo_nodes[i] by {
            assert(live[k] == state.lfos[k]);
        }
        lemma_no_oscillator(live, lfo_nodes[i], 0);
    }
    if 0 <= i < latch_nodes.len() && (forall|k: int|
        0 <= k < MAX_LATCHES ==> (#[trigger] state.latches[k]).node != latch_nodes[i]) {
        lemma_no_latch(state.latches, latch_nodes[i], 0);
    }
}

proof fn lemma_no_oscillator(lfos: Seq<LfoState>, node: NodeId, at: int)
    requires
        0 <= at <= lfos.len(),
        forall|k: int| at <= k < lfos.len() ==> (#[trigger] lfos[k]).node != node,
    ensures
        oscillator_from(lfos, node, at) == (LfoState {
            node,
            phase: Real::zeroed(),
            hold: Real::zeroed(),
        }),
    decreases lfos.len() - at,
{
    if at < lfos.len() {
        lemma_no_oscillator(lfos, node, at + 1);
    }
}

proof fn lemma_no_latch(latches: Seq<Latch>, node: NodeId, at: int)
    requires
        0 <= at <= latches.len(),
        forall|k: int| at <= k < latches.len() ==> (#[trigger] latches[k]).node != node,
    ensures
        latch_from(latches, node, at) == (Latch { node, value: Real::unset() }),
    decreases latches.len() - at,
{
    if at < latches.len() {
        lemma_no_latch(latches, node, at + 1);
    }
}

/// A delay line that nobody writes starts empty, whatever lay in its place.
pub proof fn law_an_unwritten_line_is_empty(
    state: ParamsModel,
    running: int,
    lfo_nodes: Seq<NodeId>,
    latch_nodes: Seq<NodeId>,
    delay_nodes: Seq<NodeId>,
    i: int,
)
    requires
        state.wf(),
        delay_nodes.len() <= MAX_DELAY_LINES,
        distinct_writers(delay_nodes),
        0 <= i < delay_nodes.len(),
        delay_nodes[i] == NO_NODE,
    ensures
        state.adopted(running, lfo_nodes, latch_nodes, delay_nodes).lines[i] == LineModel::empty(),
{
    law_reorder_keeps_rings(state.lines, state.line_nodes, state.line_order, delay_nodes, i);
}

proof fn lemma_oscillator_from(lfos: Seq<LfoState>, node: NodeId, at: int, j: int)
    requires
        0 <= at <= j < lfos.len(),
        lfos[j].node == node,
        forall|k: int| at <= k < j ==> (#[trigger] lfos[k]).node != node,
    ensures
        oscillator_from(lfos, node, at) == lfos[j],
    decreases j - at,
{
    if at < j {
        lemma_oscillator_from(lfos, node, at + 1, j);
    }
}

proof fn lemma_latch_from(latches: Seq<Latch>, node: NodeId, at: int, j: int)
    requires
        0 <= at <= j < latches.len(),
        latches[j].node == node,
        forall|k: int| at <= k < j ==> (#[trigger] latches[k]).node != node,
    ensures
        latch_from(latches, node, at) == latches[j],
    decreases j - at,
{
    if at < j {
        lemma_latch_from(latches, node, at + 1, j);
    }
}

} // verus!
