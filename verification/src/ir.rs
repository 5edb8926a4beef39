//! What a graph compiles to: flat lists of operations, and the tables they
//! index.
use vstd::prelude::*;
use crate::number::{Real, Sample};

verus! {

/// A node of the graph, as the state of a running program is keyed to it.
pub type NodeId = u32;

/// A delay line, as the two nodes at its ends name it.
pub type LineId = u32;

/// A register of the parameter half.
pub type Reg = u16;

/// A buffer of the audio half.
pub type Buf = u16;

/// A buffer of the note half.
pub type NoteBuf = u16;

pub const MAX_REGISTERS: usize = 256;

pub const MAX_LFOS: usize = 64;

pub const MAX_LATCHES: usize = 64;

pub const MAX_DELAY_LINES: usize = 32;

/// Sub-blocks one parameter delay line remembers.
pub const MAX_DELAY_TAPS: usize = 4096;

pub const MAX_AUDIO_DELAY_LINES: usize = 16;

/// Reads of audio delay lines in one program. Several may share a line.
pub const MAX_AUDIO_TAPS: usize = 16;

pub const MAX_BUFFERS: usize = 64;

/// Channels one buffer has room for: a plugin's buses laid side by side.
pub const MAX_BUFFER_CHANNELS: usize = 16;

/// Channels of a signal outside a plugin.
pub const MAX_CHANNELS: usize = 2;

pub const MAX_COMPENSATORS: usize = 32;

/// Samples one compensator can hold a path back, and one more.
pub const MAX_COMPENSATION: usize = 8192;

/// Lanes for the parameters of plugins, after the slots of the host.
pub const MAX_GRAPH_PARAMS: usize = 64;

/// Lanes for what the audio and note halves read, after those.
pub const MAX_AUDIO_LANES: usize = 64;

/// Note buffers in one program: as many as a stage's mask has bits.
pub const MAX_NOTE_BUFS: usize = 16;

pub const MAX_NOTE_EMITS: usize = 16;

/// Events one note buffer has room for.
pub const NOTE_BUF_CAPACITY: usize = 2048;

/// Events one block of the host may carry into the graph.
pub const MAX_BLOCK_EVENTS: usize = 1024;

/// The shortest sub-block a schedule offers.
pub const MIN_QUANTUM: usize = 16;

/// Stands in for "no node": the writer of a line that nothing writes, and the
/// owner of a slot of state that nothing owns.
pub const NO_NODE: u32 = 0xffff_ffff;

/// Every channel passes.
pub const ALL_CHANNELS: u16 = 0xffff;

/// Every controller passes.
pub const ALL_CONTROLLERS: u128 = 0xffff_ffff_ffff_ffff_ffff_ffff_ffff_ffff;

#[derive(Debug, Clone, Copy, PartialEq, Eq, Structural)]
pub enum Waveform {
    Sine,
    Triangle,
    Saw,
    Square,
    Random,
}

/// How fast an oscillator turns.
#[derive(Debug, Clone, Copy, PartialEq, Eq, Structural)]
pub enum Rate {
    Hz(Real),
    /// Beats one cycle takes.
    Beats(Real),
}

#[derive(Debug, Clone, Copy, PartialEq, Eq, Structural)]
pub enum MathOp {
    Add,
    Subtract,
    Multiply,
    Min,
    Max,
    Curve,
}

#[derive(Debug, Clone, Copy, PartialEq, Eq, Structural)]
pub enum Detect {
    Peak,
    Rms,
}

/// What a reading of the notes on a wire gives.
#[derive(Debug, Clone, Copy, PartialEq, Eq, Structural)]
pub enum Follow {
    Velocity,
    KeyTrack,
    Gate,
    /// How many keys are down.
    HeldKeys,
}

#[derive(Debug, Clone, Copy, PartialEq, Eq, Structural)]
pub enum Operand {
    Reg(Reg),
    Value(Real),
}

/// One step of the parameter half.
#[derive(Debug, Clone, Copy, PartialEq, Eq, Structural)]
pub enum Op {
    Const { out: Reg, value: Real },
    Slot { out: Reg, slot: u16 },
    Lfo {
        out: Reg,
        state: u16,
        waveform: Waveform,
        rate: Rate,
        offset_phase: Real,
        depth: Real,
        centre: Real,
    },
    Math { out: Reg, a: Reg, b: Operand, op: MathOp },
    Range {
        out: Reg,
        a: Reg,
        in_lo: Real,
        in_hi: Real,
        out_lo: Real,
        out_hi: Real,
        clamp: bool,
    },
    /// `high` at the threshold and above, `low` below it.
    Select { out: Reg, control: Reg, threshold: Real, low: Operand, high: Operand },
    DelayRead { out: Reg, line: u16, time: Real, time_reg: Option<Reg> },
    DelayWrite { line: u16, a: Reg },
    KeyHeld { out: Reg, buf: NoteBuf, key: u8 },
    /// How loud an audio buffer is.
    Follow { out: Reg, buf: Buf, state: u16, detect: Detect, attack: Real, release: Real },
    NoteFollow { out: Reg, buf: NoteBuf, state: u16, what: Follow },
    /// Moves a latch on by one, round `count` positions, when the key is struck.
    KeyStep { state: u16, buf: NoteBuf, key: u8, count: u8 },
    /// Sets a latch when the key is struck.
    KeyLatch { state: u16, buf: NoteBuf, key: u8, value: Real },
    LatchIs { out: Reg, state: u16, value: Real, initial: Real },
    /// The last value of a controller. A negative channel listens to them all.
    NoteCc { out: Reg, buf: NoteBuf, state: u16, channel: i16, cc: u8, initial: Real },
    Latch { out: Reg, state: u16, initial: Real },
}

/// One step of the note half.
#[derive(Debug, Clone, Copy, PartialEq, Eq, Structural)]
pub enum NoteOp {
    Input { out: NoteBuf, bus: u16 },
    /// Sends a controller whenever its lane has moved, ahead of what `a` holds.
    Emit { a: Option<NoteBuf>, out: NoteBuf, lane: u16, state: u16, channel: u8, cc: u8 },
    /// Hands on what no mask takes out. `mute` names the keys to drop,
    /// `channels` and `controllers` what to keep; a shut gate drops note-ons.
    Filter {
        a: NoteBuf,
        out: NoteBuf,
        gate: Option<u16>,
        mute: u128,
        channels: u16,
        controllers: u128,
    },
}

/// What a note buffer carries, apart from the events: enough to recognise the
/// same stream in the next program.
#[derive(Debug, Clone, Copy, PartialEq, Eq, Structural)]
pub struct NoteStream {
    pub node: NodeId,
    pub port: u8,
    pub source: Option<NoteBuf>,
    pub kind: NoteStreamKind,
}

#[derive(Debug, Clone, Copy, PartialEq, Eq, Structural)]
pub enum NoteStreamKind {
    /// What arrives on one of the DAW's buses.
    Input(u16),
    Emit,
    Filter,
}

/// One signal going into a mix.
#[derive(Debug, Clone, Copy, PartialEq, Eq, Structural)]
pub struct MixInput {
    pub buf: Buf,
    /// Where the gain comes from, in decibels, when something drives it.
    pub lane: Option<u16>,
    /// The gain otherwise, in decibels.
    pub gain: Real,
}

/// How a bus of several channels becomes one.
#[derive(Debug, Clone, Copy, PartialEq, Eq, Structural)]
pub enum Folding {
    /// All of them added up: a plugin that listens to one channel is to miss nothing.
    Sum,
    /// Their mean, so that a way there and back keeps its level.
    Average,
}

/// One step of the audio half.
#[derive(Debug)]
pub enum AudioOp {
    Silence { out: Buf },
    Input { out: Buf, bus: u16 },
    Output { a: Buf, bus: u16 },
    /// Lays buses side by side, each converted to the width asked for.
    Gather { out: Buf, buses: Vec<(Buf, u16)>, folding: Folding },
    /// One bus out of a plugin's output.
    Split { from: Buf, out: Buf, channel: u16, width: u16 },
    Plugin {
        instance: usize,
        input: Buf,
        input_buses: Vec<u16>,
        output: Buf,
        output_buses: Vec<u16>,
        notes: Option<NoteBuf>,
    },
    Mix { out: Buf, inputs: Vec<MixInput> },
    /// Follows a lane's gain, no faster than the times allow. In milliseconds.
    Fade {
        out: Buf,
        a: Buf,
        state: u16,
        lane: Option<u16>,
        gain: Real,
        rise: Real,
        fall: Real,
    },
    Compensate { buf: Buf, slot: u16, samples: u32 },
    DelayRead { out: Buf, line: u16, lane: Option<u16>, time: Real, max_time: Real },
    DelayWrite { line: u16, a: Buf },
    DelaySilence { line: u16 },
}

/// One step of the audio half, as the contracts speak of it.
#[verifier::ext_equal]
pub enum AudioStep {
    Silence { out: Buf },
    Input { out: Buf, bus: u16 },
    Output { a: Buf, bus: u16 },
    Gather { out: Buf, buses: Seq<(Buf, u16)>, folding: Folding },
    Split { from: Buf, out: Buf, channel: u16, width: u16 },
    Plugin {
        instance: usize,
        input: Buf,
        input_buses: Seq<u16>,
        output: Buf,
        output_buses: Seq<u16>,
        notes: Option<NoteBuf>,
    },
    Mix { out: Buf, inputs: Seq<MixInput> },
    Fade {
        out: Buf,
        a: Buf,
        state: u16,
        lane: Option<u16>,
        gain: Real,
        rise: Real,
        fall: Real,
    },
    Compensate { buf: Buf, slot: u16, samples: u32 },
    DelayRead { out: Buf, line: u16, lane: Option<u16>, time: Real, max_time: Real },
    DelayWrite { line: u16, a: Buf },
    DelaySilence { line: u16 },
}

impl View for AudioOp {
    type V = AudioStep;

    open spec fn view(&self) -> AudioStep {
        match *self {
            AudioOp::Silence { out } => AudioStep::Silence { out },
            AudioOp::Input { out, bus } => AudioStep::Input { out, bus },
            AudioOp::Output { a, bus } => AudioStep::Output { a, bus },
            AudioOp::Gather { out, buses, folding } => AudioStep::Gather {
                out,
                buses: buses@,
                folding,
            },
            AudioOp::Split { from, out, channel, width } => AudioStep::Split {
                from,
                out,
                channel,
                width,
            },
            AudioOp::Plugin { instance, input, input_buses, output, output_buses, notes } => {
                AudioStep::Plugin {
                    instance,
                    input,
                    input_buses: input_buses@,
                    output,
                    output_buses: output_buses@,
                    notes,
                }
            },
            AudioOp::Mix { out, inputs } => AudioStep::Mix { out, inputs: inputs@ },
            AudioOp::Fade { out, a, state, lane, gain, rise, fall } => AudioStep::Fade {
                out,
                a,
                state,
                lane,
                gain,
                rise,
                fall,
            },
            AudioOp::Compensate { buf, slot, samples } => AudioStep::Compensate {
                buf,
                slot,
                samples,
            },
            AudioOp::DelayRead { out, line, lane, time, max_time } => AudioStep::DelayRead {
                out,
                line,
                lane,
                time,
                max_time,
            },
            AudioOp::DelayWrite { line, a } => AudioStep::DelayWrite { line, a },
            AudioOp::DelaySilence { line } => AudioStep::DelaySilence { line },
        }
    }
}

pub open spec fn steps_of(ops: Seq<AudioOp>) -> Seq<AudioStep> {
    Seq::new(ops.len(), |i: int| ops[i]@)
}

/// A run of one of a program's lists.
#[derive(Debug, Clone, Copy, PartialEq, Eq, Structural)]
pub struct Span {
    pub start: u32,
    pub end: u32,
}

impl Span {
    pub open spec fn fits(self, len: nat) -> bool {
        self.start <= self.end && self.end <= len
    }

    pub open spec fn of<T>(self, list: Seq<T>) -> Seq<T> {
        list.subrange(self.start as int, self.end as int)
    }

    pub fn is_empty(&self) -> (r: bool)
        ensures
            r == (self.start >= self.end),
    {
        self.start >= self.end
    }
}

/// How much of the block one call of a stage's audio covers.
#[derive(Debug, Clone, Copy, PartialEq, Eq, Structural)]
pub enum Chunking {
    WholeBlock,
    SubBlock,
}

/// A run of operations that execute together over the whole block: parameters
/// first, then notes, then audio.
#[derive(Debug, Clone, Copy, PartialEq, Eq, Structural)]
pub struct Stage {
    pub params: Span,
    pub notes: Span,
    pub audio: Span,
    /// Which note buffers the stage fills, one bit each.
    pub note_bufs: u16,
    pub chunking: Chunking,
}

/// A parameter of a plugin that a lane drives.
#[derive(Debug, Clone, Copy, PartialEq, Eq, Structural)]
pub struct ParamTarget {
    pub instance: usize,
    pub param: u32,
}

/// The buses of one plugin instance that the program uses.
#[derive(Debug)]
pub struct InstanceIo {
    pub instance: usize,
    pub input_channels: u16,
    /// Channels of the input buses after the main one.
    pub aux_inputs: Vec<u16>,
    pub output_channels: u16,
    pub aux_outputs: Vec<u16>,
}

#[verifier::ext_equal]
pub struct InstanceModel {
    pub instance: usize,
    pub input_channels: u16,
    pub aux_inputs: Seq<u16>,
    pub output_channels: u16,
    pub aux_outputs: Seq<u16>,
}

impl View for InstanceIo {
    type V = InstanceModel;

    open spec fn view(&self) -> InstanceModel {
        InstanceModel {
            instance: self.instance,
            input_channels: self.input_channels,
            aux_inputs: self.aux_inputs@,
            output_channels: self.output_channels,
            aux_outputs: self.aux_outputs@,
        }
    }
}

#[derive(Debug)]
pub struct Program {
    pub ops: Vec<Op>,
    pub registers: usize,
    /// Which register lands in which lane once a stage's operations have run.
    pub outputs: Vec<(u16, Reg)>,
    pub audio_ops: Vec<AudioOp>,
    pub note_ops: Vec<NoteOp>,
    pub note_bufs: u16,
    pub note_streams: Vec<NoteStream>,
    pub param_targets: Vec<ParamTarget>,
    /// The first lane that is not normalized.
    pub audio_lane_base: u16,
    pub instances: Vec<InstanceIo>,
    /// Channels of each audio buffer.
    pub buffers: Vec<u16>,
    pub stages: Vec<Stage>,
    pub latency: u32,
    pub delay_nodes: Vec<NodeId>,
    pub audio_delay_nodes: Vec<NodeId>,
    /// How long each audio delay line has to be.
    pub audio_ring_seconds: Vec<Real>,
    /// The same in samples a channel, once the sample rate is known.
    pub audio_ring_len: Vec<usize>,
    /// Storage for the lines whose length has changed; empty for the others.
    pub audio_rings: Vec<Vec<Sample>>,
    pub lfo_nodes: Vec<NodeId>,
    pub latch_nodes: Vec<NodeId>,
}

} // verus!
