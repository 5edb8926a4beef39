//! The kinds of node: their settings and their sockets.
use vstd::prelude::*;
use crate::ir::{Detect, Follow, LineId, MathOp, Rate, Waveform};
use crate::number::Real;
use crate::port::{sockets, Port, PortType, Socket};

verus! {

#[derive(Debug, Clone, Copy, PartialEq, Eq, Structural)]
pub struct Constant {
    pub value: Real,
}

/// Reads an automation slot of the host.
#[derive(Debug, Clone, Copy, PartialEq, Eq, Structural)]
pub struct SlotIn {
    pub slot: usize,
}

#[derive(Debug, Clone, Copy, PartialEq, Eq, Structural)]
pub struct Lfo {
    pub waveform: Waveform,
    pub rate: Rate,
    pub phase: Real,
    pub depth: Real,
    pub offset: Real,
}

/// `b` stands in for the second operand while nothing is wired to it.
#[derive(Debug, Clone, Copy, PartialEq, Eq, Structural)]
pub struct Math {
    pub op: MathOp,
    pub b: Real,
}

#[derive(Debug, Clone, Copy, PartialEq, Eq, Structural)]
pub struct RangeMap {
    pub in_lo: Real,
    pub in_hi: Real,
    pub out_lo: Real,
    pub out_hi: Real,
    pub clamp: bool,
}

/// A ladder: the value of the last threshold the control has passed.
#[derive(Debug, Clone)]
pub struct Switch {
    pub values: Vec<Real>,
    pub thresholds: Vec<Real>,
}

/// Lets note-ons through while the control is at the threshold or above, or
/// below it when inverted.
#[derive(Debug, Clone, Copy, PartialEq, Eq, Structural)]
pub struct NoteGate {
    pub threshold: Real,
    pub invert: bool,
}

#[derive(Debug, Clone)]
pub struct NoteMute {
    pub keys: Vec<u8>,
}

/// Divides the keyboard. A split belongs to the band below it.
#[derive(Debug, Clone)]
pub struct KeySplit {
    pub splits: Vec<u8>,
}

#[derive(Debug, Clone, Copy, PartialEq, Eq, Structural)]
pub enum FilterMode {
    /// Only what is listed passes.
    Keep,
    /// Everything but what is listed passes.
    Drop,
}

#[derive(Debug, Clone)]
pub struct NoteFilter {
    pub channels: Vec<u8>,
    pub channel_mode: FilterMode,
    pub controllers: Vec<u8>,
    pub controller_mode: FilterMode,
}

/// Sends a parameter as a controller, ahead of the notes that pass through.
#[derive(Debug, Clone, Copy, PartialEq, Eq, Structural)]
pub struct ParamToCc {
    pub channel: u8,
    pub cc: u8,
}

/// The last value of a controller. A negative channel listens to them all.
#[derive(Debug, Clone, Copy, PartialEq, Eq, Structural)]
pub struct CcIn {
    pub channel: i16,
    pub cc: u8,
    pub initial: Real,
}

#[derive(Debug, Clone, Copy, PartialEq, Eq, Structural)]
pub enum KeySwitchMode {
    /// An output is open while its key is held.
    Hold,
    /// The first key moves on to the next output. The others only count outputs.
    Toggle,
    /// Each key opens its own output.
    Select,
}

/// Sends the notes to one of several outputs, chosen by keys.
#[derive(Debug, Clone)]
pub struct KeySwitch {
    pub keys: Vec<u8>,
    pub mode: KeySwitchMode,
    pub mute_keys: bool,
}

/// Keys of a keyboard.
pub const MAX_KEYS: usize = 128;

impl KeySwitch {
    /// One output for each key, as far as there are keys.
    pub open spec fn outputs(self) -> nat {
        if self.keys@.len() < MAX_KEYS {
            self.keys@.len()
        } else {
            MAX_KEYS as nat
        }
    }
}

#[derive(Debug, Clone, Copy, PartialEq, Eq, Structural)]
pub enum KeyParamMode {
    /// The first key moves on to the next value.
    Toggle,
    /// Each key chooses its own value.
    Select,
}

/// A number chosen by keys.
#[derive(Debug, Clone)]
pub struct KeyParam {
    pub mode: KeyParamMode,
    pub keys: Vec<u8>,
    pub values: Vec<Real>,
    pub mute_keys: bool,
}

#[derive(Debug, Clone, Copy, PartialEq, Eq, Structural)]
pub struct NoteFollow {
    pub what: Follow,
}

/// How loud a signal is, as a parameter. Times in seconds.
#[derive(Debug, Clone, Copy, PartialEq, Eq, Structural)]
pub struct EnvelopeFollower {
    pub detect: Detect,
    pub attack: Real,
    pub release: Real,
}

#[derive(Debug, Clone, Copy, PartialEq, Eq, Structural)]
pub struct AudioIn {
    pub bus: u16,
    pub channels: u16,
}

#[derive(Debug, Clone, Copy, PartialEq, Eq, Structural)]
pub struct AudioOut {
    pub bus: u16,
    pub channels: u16,
}

/// Adds signals up. A missing gain is unity; gains are in decibels.
#[derive(Debug, Clone)]
pub struct Mix {
    pub channels: u16,
    pub inputs: u8,
    pub gains: Vec<Real>,
}

/// Lets audio through while the control is at the threshold or above, or
/// below it when inverted. Times in milliseconds.
#[derive(Debug, Clone, Copy, PartialEq, Eq, Structural)]
pub struct Gate {
    pub channels: u16,
    pub threshold: Real,
    pub invert: bool,
    pub fade_in_ms: Real,
    pub fade_out_ms: Real,
}

/// A parameter of a plugin that has a socket.
#[derive(Debug, Clone)]
pub struct ParamPort {
    pub id: u32,
    pub name: String,
}

/// What a plugin turned out to have.
#[derive(Debug, Clone)]
pub struct PluginPorts {
    /// Channels of each input bus, the main one first.
    pub audio_in: Vec<u16>,
    pub audio_out: Vec<u16>,
    /// The output buses that have a socket; all of them when empty.
    pub audio_out_shown: Vec<u16>,
    pub accepts_notes: bool,
    pub params: Vec<ParamPort>,
    pub latency: u32,
}

#[derive(Debug, Clone)]
pub struct Plugin {
    pub instance: usize,
    pub ports: PluginPorts,
}

/// The end of a delay line that is written.
#[derive(Debug, Clone, Copy, PartialEq, Eq, Structural)]
pub struct DelayWrite {
    pub line: LineId,
    pub ty: PortType,
}

/// The end of a delay line that is read. Times in seconds.
#[derive(Debug, Clone, Copy, PartialEq, Eq, Structural)]
pub struct DelayRead {
    pub line: LineId,
    pub ty: PortType,
    pub max_time: Real,
    pub time: Real,
}

#[derive(Debug, Clone)]
pub enum NodeKind {
    Constant(Constant),
    SlotIn(SlotIn),
    Lfo(Lfo),
    Math(Math),
    RangeMap(RangeMap),
    Switch(Switch),
    NoteIn,
    NoteGate(NoteGate),
    NoteMute(NoteMute),
    NoteFilter(NoteFilter),
    KeySplit(KeySplit),
    KeySwitch(KeySwitch),
    KeyParam(KeyParam),
    NoteFollow(NoteFollow),
    CcIn(CcIn),
    ParamToCc(ParamToCc),
    EnvelopeFollower(EnvelopeFollower),
    AudioIn(AudioIn),
    AudioOut(AudioOut),
    Mix(Mix),
    Gate(Gate),
    Plugin(Plugin),
    DelayWrite(DelayWrite),
    DelayRead(DelayRead),
}

impl Default for CcIn {
    /// The modulation wheel, on any channel.
    fn default() -> (r: CcIn)
        ensures
            r == (CcIn { channel: -1i16, cc: 1, initial: Real::zeroed() }),
    {
        CcIn { channel: -1, cc: 1, initial: Real::zero() }
    }
}

impl Default for NoteFilter {
    /// Lets everything through.
    fn default() -> (r: NoteFilter)
        ensures
            r.channels@.len() == 0,
            r.controllers@.len() == 0,
            r.channel_mode is Drop,
            r.controller_mode is Drop,
    {
        NoteFilter {
            channels: Vec::new(),
            channel_mode: FilterMode::Drop,
            controllers: Vec::new(),
            controller_mode: FilterMode::Drop,
        }
    }
}

impl Default for PluginPorts {
    /// No buses, no notes, no parameters.
    fn default() -> (r: PluginPorts)
        ensures
            r.audio_in@.len() == 0,
            r.audio_out@.len() == 0,
            r.audio_out_shown@.len() == 0,
            !r.accepts_notes,
            r.params@.len() == 0,
            r.latency == 0,
    {
        PluginPorts {
            audio_in: Vec::new(),
            audio_out: Vec::new(),
            audio_out_shown: Vec::new(),
            accepts_notes: false,
            params: Vec::new(),
            latency: 0,
        }
    }
}

impl Mix {
    /// Takes away the input that a socket belongs to: its signal and its gain,
    /// two sockets. Returns how many sockets have gone, none if there is no such
    /// input.
    pub fn remove_input(&mut self, socket: u8) -> (count: u8)
        ensures
            final(self).channels == old(self).channels,
            socket / 2 < old(self).inputs ==> {
                &&& count == 2
                &&& final(self).inputs == old(self).inputs - 1
                &&& final(self).gains@ == if socket / 2 < old(self).gains@.len() {
                    old(self).gains@.remove((socket / 2) as int)
                } else {
                    old(self).gains@
                }
            },
            socket / 2 >= old(self).inputs ==> {
                &&& count == 0
                &&& final(self).inputs == old(self).inputs
                &&& final(self).gains@ == old(self).gains@
            },
    {
        let input: u8 = socket / 2;
        if input >= self.inputs {
            return 0;
        }
        self.inputs = self.inputs - 1;
        if (input as usize) < self.gains.len() {
            self.gains.remove(input as usize);
        }
        2
    }
}

impl Plugin {
    /// Takes away the parameter that a socket belongs to. Returns how many
    /// sockets have gone, none if the socket is not a parameter's.
    pub fn remove_input(&mut self, socket: u8) -> (count: u8)
        requires
            old(self).ports.first_param() <= usize::MAX,
        ensures
            final(self).instance == old(self).instance,
            final(self).ports.audio_in == old(self).ports.audio_in,
            final(self).ports.audio_out == old(self).ports.audio_out,
            final(self).ports.audio_out_shown == old(self).ports.audio_out_shown,
            final(self).ports.accepts_notes == old(self).ports.accepts_notes,
            final(self).ports.latency == old(self).ports.latency,
            ({
                let first = old(self).ports.first_param();
                let params = old(self).ports.params@;
                if first <= socket < first + params.len() {
                    count == 1 && final(self).ports.params@ == params.remove(socket - first)
                } else {
                    count == 0 && final(self).ports.params@ == params
                }
            }),
    {
        let notes: usize = if self.ports.accepts_notes {
            1
        } else {
            0
        };
        let first: usize = self.ports.audio_in.len() + notes;
        let at: usize = socket as usize;
        if at < first || at - first >= self.ports.params.len() {
            return 0;
        }
        self.ports.params.remove(at - first);
        1
    }
}

pub open spec fn named(name: &str, ty: PortType) -> Socket {
    Socket { name: name@, ty }
}

pub open spec fn param(name: &str) -> Socket {
    named(name, PortType::Param)
}

pub open spec fn note(name: &str) -> Socket {
    named(name, PortType::Note)
}

pub open spec fn audio(name: &str, channels: u16) -> Socket {
    named(name, PortType::Audio { channels })
}

/// The same socket `count` times over.
pub open spec fn repeated(count: nat, socket: Socket) -> Seq<Socket> {
    Seq::new(count, |i: int| socket)
}

impl PluginPorts {
    /// The output buses a socket can be given to: those a bus number can name.
    pub open spec fn bus_count(self) -> nat {
        if self.audio_out@.len() <= 0x10000 {
            self.audio_out@.len()
        } else {
            0x10000
        }
    }

    /// The output buses that have a socket, in socket order.
    pub open spec fn shown(self) -> Seq<u16> {
        if self.audio_out_shown@.len() == 0 {
            Seq::new(self.bus_count(), |i: int| i as u16)
        } else {
            self.audio_out_shown@.filter(|bus: u16| bus < self.audio_out@.len())
        }
    }

    /// The main input and its sidechains.
    pub open spec fn bus_sockets(self) -> Seq<Socket> {
        Seq::new(
            self.audio_in@.len(),
            |i: int|
                audio(
                    if i == 0 {
                        "in"
                    } else {
                        "sidechain"
                    },
                    self.audio_in@[i],
                ),
        )
    }

    pub open spec fn note_sockets(self) -> Seq<Socket> {
        if self.accepts_notes {
            seq![note("notes")]
        } else {
            Seq::empty()
        }
    }

    pub open spec fn param_sockets(self) -> Seq<Socket> {
        Seq::new(
            self.params@.len(),
            |i: int| Socket { name: self.params@[i].name@, ty: PortType::Param },
        )
    }

    /// Where the sockets of the parameters start.
    pub open spec fn first_param(self) -> nat {
        self.audio_in@.len() + if self.accepts_notes {
            1nat
        } else {
            0nat
        }
    }

    pub open spec fn output_sockets(self) -> Seq<Socket> {
        Seq::new(self.shown().len(), |i: int| audio("out", self.audio_out@[self.shown()[i] as int]))
    }

    pub fn shown_buses(&self) -> (r: Vec<u16>)
        ensures
            r@ == self.shown(),
            forall|i: int| 0 <= i < r@.len() ==> #[trigger] r@[i] < self.audio_out@.len(),
    {
        let mut shown: Vec<u16> = Vec::new();
        if self.audio_out_shown.is_empty() {
            let mut bus: usize = 0;
            while bus < self.audio_out.len() && bus < 0x10000
                invariant
                    bus <= self.audio_out@.len(),
                    bus <= 0x10000,
                    shown@ == Seq::new(bus as nat, |i: int| i as u16),
                decreases self.audio_out@.len() - bus,
            {
                shown.push(bus as u16);
                bus += 1;
            }
        } else {
            let ghost has = |bus: u16| bus < self.audio_out@.len();
            let mut at: usize = 0;
            proof {
                reveal(Seq::filter);
                assert(self.audio_out_shown@.take(0) =~= Seq::<u16>::empty());
            }
            while at < self.audio_out_shown.len()
                invariant
                    at <= self.audio_out_shown@.len(),
                    has == (|bus: u16| bus < self.audio_out@.len()),
                    shown@ == self.audio_out_shown@.take(at as int).filter(has),
                    forall|i: int|
                        0 <= i < shown@.len() ==> #[trigger] shown@[i] < self.audio_out@.len(),
                decreases self.audio_out_shown@.len() - at,
            {
                proof {
                    reveal(Seq::filter);
                    assert(self.audio_out_shown@.take(at + 1).drop_last()
                        =~= self.audio_out_shown@.take(at as int));
                }
                let bus: u16 = self.audio_out_shown[at];
                if (bus as usize) < self.audio_out.len() {
                    shown.push(bus);
                }
                at += 1;
            }
            assert(self.audio_out_shown@.take(at as int) =~= self.audio_out_shown@);
        }
        shown
    }
}

impl NodeKind {
    /// The sockets a node is wired into.
    pub open spec fn inputs(self) -> Seq<Socket> {
        match self {
            NodeKind::Constant(_) => Seq::empty(),
            NodeKind::SlotIn(_) => Seq::empty(),
            NodeKind::Lfo(_) => Seq::empty(),
            NodeKind::Math(_) => seq![param("a"), param("b")],
            NodeKind::RangeMap(_) => seq![param("in")],
            NodeKind::Switch(switch) => seq![param("control")] + repeated(
                switch.values@.len(),
                param("value"),
            ),
            NodeKind::NoteIn => Seq::empty(),
            NodeKind::NoteGate(_) => seq![note("notes"), param("control")],
            NodeKind::NoteMute(_) => seq![note("notes")],
            NodeKind::NoteFilter(_) => seq![note("notes")],
            NodeKind::KeySplit(_) => seq![note("notes")],
            NodeKind::KeySwitch(_) => seq![note("notes")],
            NodeKind::KeyParam(chosen) => seq![note("notes")] + repeated(
                chosen.values@.len(),
                param("value"),
            ),
            NodeKind::NoteFollow(_) => seq![note("notes")],
            NodeKind::CcIn(_) => seq![note("notes")],
            NodeKind::ParamToCc(_) => seq![param("value"), note("notes")],
            NodeKind::EnvelopeFollower(_) => seq![audio("in", 2)],
            NodeKind::AudioIn(_) => Seq::empty(),
            NodeKind::AudioOut(out) => seq![audio("in", out.channels)],
            NodeKind::Mix(mix) => Seq::new(
                (2 * mix.inputs) as nat,
                |i: int|
                    if i % 2 == 0 {
                        audio("in", mix.channels)
                    } else {
                        param("gain")
                    },
            ),
            NodeKind::Gate(gate) => seq![audio("in", gate.channels), param("control")],
            NodeKind::Plugin(plugin) => plugin.ports.bus_sockets() + plugin.ports.note_sockets()
                + plugin.ports.param_sockets(),
            NodeKind::DelayWrite(write) => seq![named("in", write.ty)],
            NodeKind::DelayRead(_) => seq![param("time")],
        }
    }

    /// The sockets a node is wired from.
    pub open spec fn outputs(self) -> Seq<Socket> {
        match self {
            NodeKind::Constant(_) => seq![param("value")],
            NodeKind::SlotIn(_) => seq![param("value")],
            NodeKind::Lfo(_) => seq![param("value")],
            NodeKind::Math(_) => seq![param("value")],
            NodeKind::RangeMap(_) => seq![param("value")],
            NodeKind::Switch(_) => seq![param("value")],
            NodeKind::NoteIn => seq![note("notes")],
            NodeKind::NoteGate(_) => seq![note("notes")],
            NodeKind::NoteMute(_) => seq![note("notes")],
            NodeKind::NoteFilter(_) => seq![note("notes")],
            NodeKind::KeySplit(split) => repeated(split.splits@.len() + 1, note("notes")),
            NodeKind::KeySwitch(switch) => repeated(switch.outputs(), note("notes")),
            NodeKind::KeyParam(_) => seq![param("value"), note("notes")],
            NodeKind::NoteFollow(_) => seq![param("value")],
            NodeKind::CcIn(_) => seq![param("value")],
            NodeKind::ParamToCc(_) => seq![note("notes")],
            NodeKind::EnvelopeFollower(_) => seq![param("value")],
            NodeKind::AudioIn(input) => seq![audio("out", input.channels)],
            NodeKind::AudioOut(_) => Seq::empty(),
            NodeKind::Mix(mix) => seq![audio("out", mix.channels)],
            NodeKind::Gate(gate) => seq![audio("out", gate.channels)],
            NodeKind::Plugin(plugin) => plugin.ports.output_sockets(),
            NodeKind::DelayWrite(_) => Seq::empty(),
            NodeKind::DelayRead(read) => seq![named("out", read.ty)],
        }
    }

    pub fn input_ports(&self) -> (r: Vec<Port>)
        ensures
            sockets(r@) == self.inputs(),
    {
        let mut ports: Vec<Port> = Vec::new();
        match self {
            NodeKind::Constant(_) => {},
            NodeKind::SlotIn(_) => {},
            NodeKind::Lfo(_) => {},
            NodeKind::Math(_) => {
                ports.push(Port::new("a", PortType::Param));
                ports.push(Port::new("b", PortType::Param));
            },
            NodeKind::RangeMap(_) => {
                ports.push(Port::new("in", PortType::Param));
            },
            NodeKind::Switch(switch) => {
                ports.push(Port::new("control", PortType::Param));
                push_repeated(&mut ports, switch.values.len(), "value", PortType::Param);
            },
            NodeKind::NoteIn => {},
            NodeKind::NoteGate(_) => {
                ports.push(Port::new("notes", PortType::Note));
                ports.push(Port::new("control", PortType::Param));
            },
            NodeKind::NoteMute(_) => {
                ports.push(Port::new("notes", PortType::Note));
            },
            NodeKind::NoteFilter(_) => {
                ports.push(Port::new("notes", PortType::Note));
            },
            NodeKind::KeySplit(_) => {
                ports.push(Port::new("notes", PortType::Note));
            },
            NodeKind::KeySwitch(_) => {
                ports.push(Port::new("notes", PortType::Note));
            },
            NodeKind::KeyParam(chosen) => {
                ports.push(Port::new("notes", PortType::Note));
                push_repeated(&mut ports, chosen.values.len(), "value", PortType::Param);
            },
            NodeKind::NoteFollow(_) => {
                ports.push(Port::new("notes", PortType::Note));
            },
            NodeKind::CcIn(_) => {
                ports.push(Port::new("notes", PortType::Note));
            },
            NodeKind::ParamToCc(_) => {
                ports.push(Port::new("value", PortType::Param));
                ports.push(Port::new("notes", PortType::Note));
            },
            NodeKind::EnvelopeFollower(_) => {
                ports.push(Port::new("in", PortType::stereo()));
            },
            NodeKind::AudioIn(_) => {},
            NodeKind::AudioOut(out) => {
                ports.push(Port::new("in", PortType::Audio { channels: out.channels }));
            },
            NodeKind::Mix(mix) => {
                let mut at: u8 = 0;
                while at < mix.inputs
                    invariant
                        at <= mix.inputs,
                        sockets(ports@) == Seq::new(
                            (2 * at) as nat,
                            |i: int|
                                if i % 2 == 0 {
                                    audio("in", mix.channels)
                                } else {
                                    param("gain")
                                },
                        ),
                    decreases mix.inputs - at,
                {
                    let ghost before = ports@;
                    proof {
                        assert(sockets(before).len() == 2 * at);
                        assert forall|i: int| 0 <= i < 2 * at implies (#[trigger] before[i])@
                            == if i % 2 == 0 {
                            audio("in", mix.channels)
                        } else {
                            param("gain")
                        } by {
                            assert(sockets(before)[i] == before[i]@);
                        }
                    }
                    ports.push(Port::new("in", PortType::Audio { channels: mix.channels }));
                    ports.push(Port::new("gain", PortType::Param));
                    at += 1;
                }
            },
            NodeKind::Gate(gate) => {
                ports.push(Port::new("in", PortType::Audio { channels: gate.channels }));
                ports.push(Port::new("control", PortType::Param));
            },
            NodeKind::Plugin(plugin) => {
                let mut bus: usize = 0;
                while bus < plugin.ports.audio_in.len()
                    invariant
                        bus <= plugin.ports.audio_in@.len(),
                        ports@.len() == bus,
                        forall|i: int|
                            0 <= i < bus ==> (#[trigger] ports@[i])@
                                == plugin.ports.bus_sockets()[i],
                    decreases plugin.ports.audio_in@.len() - bus,
                {
                    let name: &str = if bus == 0 {
                        "in"
                    } else {
                        "sidechain"
                    };
                    ports.push(
                        Port::new(name, PortType::Audio { channels: plugin.ports.audio_in[bus] }),
                    );
                    bus += 1;
                }
                assert(sockets(ports@) =~= plugin.ports.bus_sockets());
                if plugin.ports.accepts_notes {
                    ports.push(Port::new("notes", PortType::Note));
                }
                let ghost front = ports@;
                assert(sockets(front) =~= plugin.ports.bus_sockets()
                    + plugin.ports.note_sockets());
                let mut at: usize = 0;
                while at < plugin.ports.params.len()
                    invariant
                        at <= plugin.ports.params@.len(),
                        ports@.len() == front.len() + at,
                        forall|i: int|
                            0 <= i < front.len() ==> (#[trigger] ports@[i])@ == front[i]@,
                        forall|i: int|
                            front.len() <= i < ports@.len() ==> (#[trigger] ports@[i])@
                                == plugin.ports.param_sockets()[i - front.len()],
                    decreases plugin.ports.params@.len() - at,
                {
                    ports.push(
                        Port { name: plugin.ports.params[at].name.clone(), ty: PortType::Param },
                    );
                    at += 1;
                }
                assert(sockets(ports@) =~= sockets(front) + plugin.ports.param_sockets());
            },
            NodeKind::DelayWrite(write) => {
                ports.push(Port::new("in", write.ty));
            },
            NodeKind::DelayRead(_) => {
                ports.push(Port::new("time", PortType::Param));
            },
        }
        ports
    }

    pub fn output_ports(&self) -> (r: Vec<Port>)
        ensures
            sockets(r@) == self.outputs(),
    {
        let mut ports: Vec<Port> = Vec::new();
        match self {
            NodeKind::Constant(_) | NodeKind::SlotIn(_) | NodeKind::Lfo(_) | NodeKind::Math(_)
            | NodeKind::RangeMap(_) | NodeKind::Switch(_) | NodeKind::NoteFollow(_)
            | NodeKind::CcIn(_) | NodeKind::EnvelopeFollower(_) => {
                ports.push(Port::new("value", PortType::Param));
            },
            NodeKind::NoteIn | NodeKind::NoteGate(_) | NodeKind::NoteMute(_)
            | NodeKind::NoteFilter(_) | NodeKind::ParamToCc(_) => {
                ports.push(Port::new("notes", PortType::Note));
            },
            NodeKind::KeySplit(split) => {
                push_repeated(&mut ports, split.splits.len(), "notes", PortType::Note);
                let ghost front = ports@;
                ports.push(Port::new("notes", PortType::Note));
                proof {
                    assert forall|i: int| 0 <= i < front.len() implies (#[trigger] ports@[i])@
                        == note("notes") by {
                        assert(sockets(front)[i] == front[i]@);
                    }
                    assert(sockets(ports@) =~= repeated(split.splits@.len() + 1, note("notes")));
                }
            },
            NodeKind::KeySwitch(switch) => {
                let count: usize = if switch.keys.len() < MAX_KEYS {
                    switch.keys.len()
                } else {
                    MAX_KEYS
                };
                push_repeated(&mut ports, count, "notes", PortType::Note);
            },
            NodeKind::KeyParam(_) => {
                ports.push(Port::new("value", PortType::Param));
                ports.push(Port::new("notes", PortType::Note));
            },
            NodeKind::AudioIn(input) => {
                ports.push(Port::new("out", PortType::Audio { channels: input.channels }));
            },
            NodeKind::AudioOut(_) => {},
            NodeKind::Mix(mix) => {
                ports.push(Port::new("out", PortType::Audio { channels: mix.channels }));
            },
            NodeKind::Gate(gate) => {
                ports.push(Port::new("out", PortType::Audio { channels: gate.channels }));
            },
            NodeKind::Plugin(plugin) => {
                let shown: Vec<u16> = plugin.ports.shown_buses();
                let mut at: usize = 0;
                while at < shown.len()
                    invariant
                        at <= shown@.len(),
                        shown@ == plugin.ports.shown(),
                        forall|i: int|
                            0 <= i < shown@.len() ==> #[trigger] shown@[i]
                                < plugin.ports.audio_out@.len(),
                        ports@.len() == at,
                        forall|i: int|
                            0 <= i < at ==> (#[trigger] ports@[i])@
                                == plugin.ports.output_sockets()[i],
                    decreases shown@.len() - at,
                {
                    let channels: u16 = plugin.ports.audio_out[shown[at] as usize];
                    ports.push(Port::new("out", PortType::Audio { channels }));
                    at += 1;
                }
            },
            NodeKind::DelayWrite(_) => {},
            NodeKind::DelayRead(read) => {
                ports.push(Port::new("out", read.ty));
            },
        }
        ports
    }
}

/// Appends the same port `count` times.
fn push_repeated(ports: &mut Vec<Port>, count: usize, name: &str, ty: PortType)
    ensures
        sockets(final(ports)@) == sockets(old(ports)@) + repeated(count as nat, named(name, ty)),
{
    let ghost before = ports@;
    let mut at: usize = 0;
    while at < count
        invariant
            at <= count,
            ports@.len() == before.len() + at,
            forall|i: int| 0 <= i < before.len() ==> (#[trigger] ports@[i])@ == before[i]@,
            forall|i: int|
                before.len() <= i < ports@.len() ==> (#[trigger] ports@[i])@ == named(name, ty),
        decreases count - at,
    {
        ports.push(Port::new(name, ty));
        at += 1;
    }
}

} // verus!
