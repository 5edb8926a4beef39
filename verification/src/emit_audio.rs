//! What each kind of node contributes to the audio half.
use vstd::prelude::*;
use crate::audio_cx::{
    grows, lemma_line_number_from, settled, stepped, total_width, widths_of, AudioCx, AudioEnv,
    AudioModel,
};
use crate::declare::{line_at, Line};
use crate::error::CompileError;
use crate::graph::source;
use crate::ir::{
    AudioOp, AudioStep, Buf, Folding, InstanceIo, InstanceModel, LineId, MixInput,
    MAX_BUFFER_CHANNELS, MAX_NOTE_BUFS, NO_NODE,
};
use crate::nodes::{
    AudioIn, AudioOut, DelayRead, DelayWrite, Gate, Mix, NodeKind, Plugin, PluginPorts,
};
use crate::note_half::{notes_into, reader_count};
use crate::number::Real;
use crate::port::PortType;
use crate::stages::{index_of, position};
use crate::tables::lemma_lookup_from;

verus! {

/// Stands for a latch that nothing keeps.
pub const NO_LATCH: u16 = 0xffff;

/// One signal going into a mix, before its latency is made up for.
#[derive(Debug, Clone, Copy, PartialEq, Eq, Structural)]
pub struct MixSource {
    pub index: u8,
    pub buf: Buf,
    pub late: u32,
}

pub open spec fn later(a: u32, b: u32) -> u32 {
    if a < b {
        b
    } else {
        a
    }
}

/// The latest of some signals.
pub open spec fn latest(sources: Seq<MixSource>) -> u32
    decreases sources.len(),
{
    if sources.len() == 0 {
        0
    } else {
        later(latest(sources.drop_last()), sources.last().late)
    }
}

/// The latest of what is wired into the first `count` audio inputs.
pub open spec fn latest_source(sources: Seq<Option<(Buf, u32)>>, count: nat) -> u32
    decreases count,
{
    if count == 0 {
        0
    } else {
        let before = latest_source(sources, (count - 1) as nat);
        if count <= sources.len() {
            match sources[count - 1] {
                Some((buf, late)) => later(before, late),
                None => before,
            }
        } else {
            before
        }
    }
}

/// How many of the first `count` input buses a plugin is run with: the main one,
/// and up to the last that something is wired to. A sidechain nobody wired is
/// not switched on.
pub open spec fn buses_fed(sources: Seq<Option<(Buf, u32)>>, count: nat) -> nat
    decreases count,
{
    if count <= 1 {
        count
    } else if count <= sources.len() && sources[count - 1] is Some {
        count
    } else {
        buses_fed(sources, (count - 1) as nat)
    }
}

/// How many output buses a plugin is run with: the main one, and up to the last
/// that something reads through one of the first `count` sockets.
pub open spec fn buses_read(env: AudioEnv, id: u32, shown: Seq<u16>, count: nat) -> nat
    decreases count,
{
    if count == 0 {
        1
    } else {
        let before = buses_read(env, id, shown, (count - 1) as nat);
        if reader_count(env.links, env.order, id, (count - 1) as u8) > 0 && shown[count - 1] + 1
            > before {
            (shown[count - 1] + 1) as nat
        } else {
            before
        }
    }
}

/// How many output sockets have a number.
pub open spec fn socket_count(shown: Seq<u16>) -> nat {
    if shown.len() < 256 {
        shown.len()
    } else {
        256
    }
}

pub open spec fn gain_of(node: Mix, index: int) -> Real {
    if index < node.gains@.len() {
        node.gains@[index]
    } else {
        Real::zeroed()
    }
}

pub open spec fn mix_bufs(inputs: Seq<MixInput>) -> Seq<Buf> {
    Seq::new(inputs.len(), |i: int| inputs[i].buf)
}

pub open spec fn paired(bufs: Seq<Buf>, widths: Seq<u16>) -> Seq<(Buf, u16)> {
    Seq::new(bufs.len(), |i: int| (bufs[i], widths[i]))
}

pub open spec fn too_wide() -> CompileError {
    CompileError::TooLarge { what: "channels in one buffer", limit: MAX_BUFFER_CHANNELS }
}

pub open spec fn added(late: u32, more: u32) -> u32 {
    if late + more > u32::MAX {
        u32::MAX
    } else {
        (late + more) as u32
    }
}

impl AudioModel {
    pub open spec fn audio_in(self, node: AudioIn) -> Result<AudioModel, CompileError> {
        match self.with_buffer(node.channels, self.readers) {
            Err(error) => Err(error),
            Ok((next, out)) => Ok(
                next.emitted(AudioStep::Input { out, bus: node.bus }).producing(0, out, 0),
            ),
        }
    }

    pub open spec fn audio_out(self, node: AudioOut) -> Result<AudioModel, CompileError> {
        match self.with_source(0) {
            Err(error) => Err(error),
            Ok((next, None)) => Ok(next),
            Ok((next, Some((a, late)))) => {
                let sent = next.emitted(AudioStep::Output { a, bus: node.bus }).consumed(a);
                Ok(AudioModel { latency: later(sent.latency, late), ..sent })
            },
        }
    }

    /// The latch the node keeps.
    pub open spec fn latch(self, env: AudioEnv) -> u16 {
        match index_of(env.latch_nodes, self.id) {
            Some(at) => at as u16,
            None => NO_LATCH,
        }
    }

    pub open spec fn audio_gate(self, env: AudioEnv, node: Gate) -> Result<
        AudioModel,
        CompileError,
    > {
        match self.with_source(0) {
            Err(error) => Err(error),
            Ok((fed, None)) => match fed.with_buffer(node.channels, fed.readers) {
                Err(error) => Err(error),
                Ok((next, out)) => Ok(
                    next.emitted(AudioStep::Silence { out }).producing(0, out, 0),
                ),
            },
            Ok((fed, Some((a, late)))) => match fed.with_buffer_beside(
                node.channels,
                fed.readers,
                seq![a],
            ) {
                Err(error) => Err(error),
                Ok((next, out)) => Ok(
                    next.emitted(
                        AudioStep::Fade {
                            out,
                            a,
                            state: next.latch(env),
                            lane: next.lane(env, 1),
                            gain: Real::unit(),
                            rise: node.fade_in_ms,
                            fall: node.fade_out_ms,
                        },
                    ).consumed(a).producing(0, out, late),
                ),
            },
        }
    }

    pub open spec fn audio_follower(self) -> AudioModel {
        match self.source(0) {
            Some((buf, late)) => AudioModel { follows: self.follows.push((self.id, buf)), ..self },
            None => self,
        }
    }

    pub open spec fn audio_read(self, env: AudioEnv, node: DelayRead) -> Result<
        AudioModel,
        CompileError,
    > {
        match node.ty {
            PortType::Audio { channels } => match self.with_line(env, node.line) {
                Err(error) => Err(error),
                Ok((lined, line)) => {
                    let wanting = lined.wanting_ring(line, node.max_time);
                    match wanting.with_buffer(channels, wanting.readers) {
                        Err(error) => Err(error),
                        Ok((next, out)) => Ok(
                            next.emitted(
                                AudioStep::DelayRead {
                                    out,
                                    line,
                                    lane: next.lane(env, 0),
                                    time: node.time,
                                    max_time: node.max_time,
                                },
                            ).producing(0, out, 0),
                        ),
                    }
                },
            },
            _ => Ok(self),
        }
    }

    /// What is written is not given back: the write runs when everything else of
    /// the stage has.
    pub open spec fn audio_write(self, env: AudioEnv, node: DelayWrite) -> Result<
        AudioModel,
        CompileError,
    > {
        match node.ty {
            PortType::Audio { .. } => match self.with_source(0) {
                Err(error) => Err(error),
                Ok((fed, from)) => match fed.with_line(env, node.line) {
                    Err(error) => Err(error),
                    Ok((next, line)) => match from {
                        Some((a, late)) => Ok(
                            next.held_back(AudioStep::DelayWrite { line, a }),
                        ),
                        None => Ok(next),
                    },
                },
            },
            _ => Ok(self),
        }
    }

    /// A signal delayed to the latest one. One that others still read is copied
    /// first.
    pub open spec fn lined_up(self, buf: Buf, late: u32, until: u32) -> Result<
        (AudioModel, Buf),
        CompileError,
    > {
        if late >= until {
            Ok((self, buf))
        } else if self.pool.pending[buf as int] > 1 {
            let width = self.pool.widths[buf as int];
            match self.with_buffer_beside(width, 1, seq![buf]) {
                Err(error) => Err(error),
                Ok((next, out)) => match next.emitted(
                    AudioStep::Gather {
                        out,
                        buses: seq![(buf, width)],
                        folding: Folding::Average,
                    },
                ).consumed(buf).compensated(out, (until - late) as u32) {
                    Err(error) => Err(error),
                    Ok(last) => Ok((last, out)),
                },
            }
        } else {
            match self.compensated(buf, (until - late) as u32) {
                Err(error) => Err(error),
                Ok(last) => Ok((last, buf)),
            }
        }
    }

    pub open spec fn consumed_all(self, bufs: Seq<Buf>, count: nat) -> AudioModel
        decreases count,
    {
        if count == 0 {
            self
        } else {
            self.consumed_all(bufs, (count - 1) as nat).consumed(bufs[count - 1])
        }
    }

    /// What is wired into the first `count` inputs of a mix.
    pub open spec fn mix_sources(self, count: nat) -> Result<
        (AudioModel, Seq<MixSource>),
        CompileError,
    >
        decreases count,
    {
        if count == 0 {
            Ok((self, Seq::empty()))
        } else {
            match self.mix_sources((count - 1) as nat) {
                Err(error) => Err(error),
                Ok((below, list)) => match below.with_source(count - 1) {
                    Err(error) => Err(error),
                    Ok((next, None)) => Ok((next, list)),
                    Ok((next, Some((buf, late)))) => Ok(
                        (next, list.push(MixSource { index: (count - 1) as u8, buf, late })),
                    ),
                },
            }
        }
    }

    /// The first `count` of them lined up with the latest.
    pub open spec fn mix_inputs(
        self,
        env: AudioEnv,
        node: Mix,
        sources: Seq<MixSource>,
        count: nat,
    ) -> Result<(AudioModel, Seq<MixInput>), CompileError>
        decreases count,
    {
        if count == 0 {
            Ok((self, Seq::empty()))
        } else {
            match self.mix_inputs(env, node, sources, (count - 1) as nat) {
                Err(error) => Err(error),
                Ok((below, list)) => {
                    let from = sources[count - 1];
                    match below.lined_up(from.buf, from.late, latest(sources)) {
                        Err(error) => Err(error),
                        Ok((next, buf)) => Ok(
                            (
                                next,
                                list.push(
                                    MixInput {
                                        buf,
                                        lane: next.lane(env, (2 * from.index + 1) as u8),
                                        gain: gain_of(node, from.index as int),
                                    },
                                ),
                            ),
                        ),
                    }
                },
            }
        }
    }

    pub open spec fn mix(self, env: AudioEnv, node: Mix) -> Result<AudioModel, CompileError> {
        let count = if node.inputs < 128 {
            node.inputs as nat
        } else {
            128
        };
        match self.mix_sources(count) {
            Err(error) => Err(error),
            Ok((fed, sources)) => match fed.mix_inputs(env, node, sources, sources.len()) {
                Err(error) => Err(error),
                Ok((lined, inputs)) => match lined.with_buffer_beside(
                    node.channels,
                    lined.readers,
                    mix_bufs(inputs),
                ) {
                    Err(error) => Err(error),
                    Ok((next, out)) => Ok(
                        next.emitted(AudioStep::Mix { out, inputs }).consumed_all(
                            mix_bufs(inputs),
                            inputs.len(),
                        ).producing(0, out, latest(sources)),
                    ),
                },
            },
        }
    }

    /// What each of the first `count` input buses of a plugin is fed: its source
    /// lined up with the latest one, or silence.
    pub open spec fn bus_buffers(self, until: u32, count: nat) -> Result<
        (AudioModel, Seq<Buf>),
        CompileError,
    >
        decreases count,
    {
        if count == 0 {
            Ok((self, Seq::empty()))
        } else {
            match self.bus_buffers(until, (count - 1) as nat) {
                Err(error) => Err(error),
                Ok((below, list)) => match below.source(count - 1) {
                    Some((buf, late)) => match below.lined_up(buf, late, until) {
                        Err(error) => Err(error),
                        Ok((next, lined)) => Ok((next, list.push(lined))),
                    },
                    None => match below.with_buffer(1, 1) {
                        Err(error) => Err(error),
                        Ok((next, out)) => Ok(
                            (next.emitted(AudioStep::Silence { out }), list.push(out)),
                        ),
                    },
                },
            }
        }
    }

    /// A plugin's input: one bus where it lies if it has the right width, and
    /// otherwise the buses laid side by side.
    pub open spec fn input_region(self, bufs: Seq<Buf>, widths: Seq<u16>) -> Result<
        (AudioModel, Buf),
        CompileError,
    > {
        if bufs.len() == 0 {
            self.with_buffer(0, 0)
        } else if bufs.len() == 1 && self.pool.widths[bufs[0] as int] == widths[0] {
            Ok((self, bufs[0]))
        } else if total_width(widths) > MAX_BUFFER_CHANNELS {
            Err(too_wide())
        } else {
            match self.with_buffer_beside(total_width(widths) as u16, 1, bufs) {
                Err(error) => Err(error),
                Ok((next, out)) => Ok(
                    (
                        next.emitted(
                            AudioStep::Gather { out, buses: paired(bufs, widths), folding: Folding::Sum },
                        ).consumed_all(bufs, bufs.len()),
                        out,
                    ),
                ),
            }
        }
    }

    /// The first `count` output sockets that carry the main bus, each of them
    /// left with the plugin's output.
    pub open spec fn main_outputs(self, shown: Seq<u16>, out: Buf, late: u32, count: nat) -> AudioModel
        decreases count,
    {
        if count == 0 {
            self
        } else {
            let below = self.main_outputs(shown, out, late, (count - 1) as nat);
            if shown[count - 1] == 0 {
                below.producing((count - 1) as u8, out, late)
            } else {
                below
            }
        }
    }

    /// The first `count` output sockets that something reads, each of them left
    /// with a copy of its bus.
    pub open spec fn split_outputs(
        self,
        env: AudioEnv,
        ports: PluginPorts,
        region: Buf,
        late: u32,
        count: nat,
    ) -> Result<AudioModel, CompileError>
        decreases count,
    {
        if count == 0 {
            Ok(self)
        } else {
            match self.split_outputs(env, ports, region, late, (count - 1) as nat) {
                Err(error) => Err(error),
                Ok(below) => {
                    let port = (count - 1) as u8;
                    let readers = reader_count(env.links, env.order, below.id, port);
                    let bus = ports.shown()[count - 1] as int;
                    if readers == 0 {
                        Ok(below)
                    } else {
                        match below.with_buffer_beside(
                            ports.audio_out@[bus],
                            readers as usize,
                            seq![region],
                        ) {
                            Err(error) => Err(error),
                            Ok((next, out)) => Ok(
                                next.emitted(
                                    AudioStep::Split {
                                        from: region,
                                        out,
                                        channel: total_width(ports.audio_out@.take(bus)) as u16,
                                        width: ports.audio_out@[bus],
                                    },
                                ).producing(port, out, late),
                            ),
                        }
                    }
                },
            }
        }
    }

    /// The notes a plugin hears.
    pub open spec fn plugin_notes(self, env: AudioEnv, ports: PluginPorts) -> Option<u16> {
        if ports.accepts_notes && ports.audio_in@.len() < 256 {
            notes_into(env.links, env.note_outputs, self.id, ports.audio_in@.len() as u8)
        } else {
            None
        }
    }

    /// A plugin called with the buses `ins` and `outs`, and what it leaves on its
    /// sockets.
    pub open spec fn plugin_called(
        self,
        env: AudioEnv,
        node: Plugin,
        input: Buf,
        ins: Seq<u16>,
        outs: Seq<u16>,
        late: u32,
    ) -> Result<AudioModel, CompileError> {
        let shown = node.ports.shown();
        if total_width(outs) > MAX_BUFFER_CHANNELS {
            Err(too_wide())
        } else {
            let readers = if outs.len() == 1 {
                self.readers
            } else {
                1
            };
            match self.with_buffer_beside(total_width(outs) as u16, readers, seq![input]) {
                Err(error) => Err(error),
                Ok((next, output)) => {
                    let called = next.emitted(
                        AudioStep::Plugin {
                            instance: node.instance,
                            input,
                            input_buses: ins,
                            output,
                            output_buses: outs,
                            notes: next.plugin_notes(env, node.ports),
                        },
                    ).consumed(input);
                    let told = AudioModel {
                        instances: called.instances.push(
                            InstanceModel {
                                instance: node.instance,
                                input_channels: if ins.len() == 0 {
                                    0
                                } else {
                                    ins[0]
                                },
                                aux_inputs: if ins.len() == 0 {
                                    ins
                                } else {
                                    ins.skip(1)
                                },
                                output_channels: outs[0],
                                aux_outputs: outs.skip(1),
                            },
                        ),
                        ..called
                    };
                    if outs.len() == 1 {
                        Ok(told.main_outputs(shown, output, late, socket_count(shown)))
                    } else {
                        match told.split_outputs(
                            env,
                            node.ports,
                            output,
                            late,
                            socket_count(shown),
                        ) {
                            Err(error) => Err(error),
                            Ok(last) => Ok(last.consumed(output)),
                        }
                    }
                },
            }
        }
    }

    /// A plugin with no output bus is not called.
    pub open spec fn plugin(self, env: AudioEnv, node: Plugin) -> Result<AudioModel, CompileError> {
        let ports = node.ports;
        if ports.audio_out@.len() == 0 {
            Ok(self)
        } else {
            let fed = buses_fed(self.sources, ports.audio_in@.len());
            let until = latest_source(self.sources, fed);
            let ins = ports.audio_in@.take(fed as int);
            let read = buses_read(env, self.id, ports.shown(), socket_count(ports.shown()));
            let outs = ports.audio_out@.take(read as int);
            match self.bus_buffers(until, fed) {
                Err(error) => Err(error),
                Ok((lined, bufs)) => match lined.input_region(bufs, ins) {
                    Err(error) => Err(error),
                    Ok((next, input)) => next.plugin_called(
                        env,
                        node,
                        input,
                        ins,
                        outs,
                        added(until, ports.latency),
                    ),
                },
            }
        }
    }

    /// One node's share of the audio half.
    pub open spec fn compiled(self, env: AudioEnv, kind: NodeKind) -> Result<
        AudioModel,
        CompileError,
    > {
        match kind {
            NodeKind::AudioIn(node) => self.audio_in(node),
            NodeKind::AudioOut(node) => self.audio_out(node),
            NodeKind::Gate(node) => self.audio_gate(env, node),
            NodeKind::EnvelopeFollower(_) => Ok(self.audio_follower()),
            NodeKind::DelayRead(node) => self.audio_read(env, node),
            NodeKind::DelayWrite(node) => self.audio_write(env, node),
            NodeKind::Mix(node) => self.mix(env, node),
            NodeKind::Plugin(node) => self.plugin(env, node),
            _ => Ok(self),
        }
    }
}

impl<'a> AudioCx<'a> {
    fn compile_input(&mut self, node: &AudioIn) -> (r: Result<(), CompileError>)
        requires
            old(self)@.wf(),
        ensures
            settled(old(self)@.audio_in(*node), *old(self), *final(self), r),
    {
        let out: Buf = self.allocate(node.channels, self.readers)?;
        self.emit(AudioOp::Input { out, bus: node.bus });
        self.produce(0, out, 0);
        Ok(())
    }

    fn compile_output(&mut self, node: &AudioOut) -> (r: Result<(), CompileError>)
        requires
            old(self)@.wf(),
        ensures
            settled(old(self)@.audio_out(*node), *old(self), *final(self), r),
    {
        if let Some((a, late)) = self.source_at_socket_width(0)? {
            self.emit(AudioOp::Output { a, bus: node.bus });
            self.consume(a);
            self.report_latency(late);
        }
        Ok(())
    }

    fn compile_gate(&mut self, node: &Gate) -> (r: Result<(), CompileError>)
        requires
            old(self)@.wf(),
        ensures
            settled(old(self)@.audio_gate(old(self).env(), *node), *old(self), *final(self), r),
    {
        match self.source_at_socket_width(0)? {
            None => {
                let out: Buf = self.allocate(node.channels, self.readers)?;
                self.emit(AudioOp::Silence { out });
                self.produce(0, out, 0);
            },
            Some((a, late)) => {
                let mut avoid: Vec<Buf> = Vec::new();
                avoid.push(a);
                assert(avoid@ =~= seq![a]);
                let out: Buf = self.allocate_beside(
                    node.channels,
                    self.readers,
                    avoid.as_slice(),
                )?;
                assert(avoid@[0] == a);
                let state: u16 = match position(self.latch_nodes.as_slice(), self.id) {
                    Some(at) => #[verifier::truncate] (at as u16),
                    None => NO_LATCH,
                };
                let lane: Option<u16> = self.lane(1);
                self.emit(
                    AudioOp::Fade {
                        out,
                        a,
                        state,
                        lane,
                        gain: Real::one(),
                        rise: node.fade_in_ms,
                        fall: node.fade_out_ms,
                    },
                );
                self.consume(a);
                self.produce(0, out, late);
            },
        }
        Ok(())
    }

    fn compile_follower(&mut self)
        requires
            old(self)@.wf(),
        ensures
            final(self).env() == old(self).env(),
            final(self)@ == old(self)@.audio_follower(),
            final(self)@.wf(),
    {
        if let Some((buf, _late)) = self.source(0) {
            self.follow(buf);
        }
    }

    fn compile_read(&mut self, node: &DelayRead) -> (r: Result<(), CompileError>)
        requires
            old(self)@.wf(),
        ensures
            settled(old(self)@.audio_read(old(self).env(), *node), *old(self), *final(self), r),
    {
        if let PortType::Audio { channels } = node.ty {
            let line: u16 = self.audio_line(node.line)?;
            self.want_ring(line, node.max_time);
            let out: Buf = self.allocate(channels, self.readers)?;
            let lane: Option<u16> = self.lane(0);
            self.emit(
                AudioOp::DelayRead { out, line, lane, time: node.time, max_time: node.max_time },
            );
            self.produce(0, out, 0);
        }
        Ok(())
    }

    fn compile_write(&mut self, node: &DelayWrite) -> (r: Result<(), CompileError>)
        requires
            old(self)@.wf(),
        ensures
            settled(old(self)@.audio_write(old(self).env(), *node), *old(self), *final(self), r),
    {
        if let PortType::Audio { .. } = node.ty {
            let from: Option<(Buf, u32)> = self.source_at_socket_width(0)?;
            let line: u16 = self.audio_line(node.line)?;
            if let Some((a, _late)) = from {
                self.emit_deferred(AudioOp::DelayWrite { line, a });
            }
        }
        Ok(())
    }

    /// Delays a signal to the latest one.
    fn line_up(&mut self, buf: Buf, late: u32, until: u32) -> (r: Result<Buf, CompileError>)
        requires
            old(self)@.wf(),
            buf < old(self)@.pool.widths.len(),
        ensures
            stepped(old(self)@.lined_up(buf, late, until), *old(self), *final(self), r),
            grows(old(self)@, final(self)@),
            r matches Ok(b) ==> b < final(self)@.pool.widths.len(),
    {
        if late >= until {
            return Ok(buf);
        }
        if self.pool.is_shared(buf) {
            let width: u16 = self.width_of(buf);
            let mut avoid: Vec<Buf> = Vec::new();
            avoid.push(buf);
            assert(avoid@ =~= seq![buf]);
            let out: Buf = self.allocate_beside(width, 1, avoid.as_slice())?;
            let mut buses: Vec<(Buf, u16)> = Vec::new();
            buses.push((buf, width));
            proof {
                assert(buses@ =~= seq![(buf, width)]);
                assert(avoid@[0] == buf);
                lemma_one_width(buf, width);
            }
            self.emit(AudioOp::Gather { out, buses, folding: Folding::Average });
            self.consume(buf);
            self.compensate(out, until - late)?;
            Ok(out)
        } else {
            self.compensate(buf, until - late)?;
            Ok(buf)
        }
    }

    /// Notes that some buffers have been read.
    fn consume_all(&mut self, bufs: &Vec<Buf>)
        requires
            old(self)@.wf(),
            forall|k: int|
                0 <= k < bufs@.len() ==> #[trigger] bufs@[k] < old(self)@.pool.widths.len(),
        ensures
            final(self).env() == old(self).env(),
            final(self)@ == old(self)@.consumed_all(bufs@, bufs@.len()),
            final(self)@.wf(),
            final(self)@.pool.widths == old(self)@.pool.widths,
    {
        let ghost before = self@;
        let mut at: usize = 0;
        while at < bufs.len()
            invariant
                at <= bufs@.len(),
                self@.wf(),
                self.env() == old(self).env(),
                before == old(self)@,
                self@ == before.consumed_all(bufs@, at as nat),
                self@.pool.widths == before.pool.widths,
                forall|k: int|
                    0 <= k < bufs@.len() ==> #[trigger] bufs@[k] < before.pool.widths.len(),
            decreases bufs@.len() - at,
        {
            self.consume(bufs[at]);
            at += 1;
        }
    }

    /// Looks up what is wired into the first `count` inputs of a mix.
    fn mix_sources(&mut self, count: u8) -> (r: Result<Vec<MixSource>, CompileError>)
        requires
            old(self)@.wf(),
        ensures
            final(self).env() == old(self).env(),
            match old(self)@.mix_sources(count as nat) {
                Ok((model, list)) => r matches Ok(found) && found@ == list && final(self)@ == model
                    && model.wf(),
                Err(error) => r matches Err(e) && e == error,
            },
            r matches Ok(found) ==> forall|k: int|
                0 <= k < found@.len() ==> (#[trigger] found@[k]).buf
                    < final(self)@.pool.widths.len() && found@[k].index < count,
    {
        let ghost before = self@;
        let mut found: Vec<MixSource> = Vec::new();
        let mut index: u8 = 0;
        while index < count
            invariant
                index <= count,
                self@.wf(),
                self.env() == old(self).env(),
                before == old(self)@,
                before.mix_sources(index as nat) == Ok::<_, CompileError>((self@, found@)),
                forall|k: int|
                    0 <= k < found@.len() ==> (#[trigger] found@[k]).buf < self@.pool.widths.len()
                        && found@[k].index < index,
            decreases count - index,
        {
            let ghost here = self@;
            let ghost had = found@;
            let next: Result<Option<(Buf, u32)>, CompileError> = self.source_at_socket_width(
                index as usize,
            );
            match next {
                Err(error) => {
                    proof {
                        before.lemma_mix_sources_fails((index + 1) as nat, count as nat, error);
                    }
                    return Err(error);
                },
                Ok(None) => {},
                Ok(Some((buf, late))) => {
                    found.push(MixSource { index, buf, late });
                },
            }
            index += 1;
        }
        Ok(found)
    }

    /// Lines up what goes into a mix.
    fn mix_inputs(&mut self, node: &Mix, sources: &Vec<MixSource>, until: u32) -> (r: Result<
        Vec<MixInput>,
        CompileError,
    >)
        requires
            old(self)@.wf(),
            until == latest(sources@),
            forall|k: int|
                0 <= k < sources@.len() ==> (#[trigger] sources@[k]).buf
                    < old(self)@.pool.widths.len() && sources@[k].index < 128,
        ensures
            final(self).env() == old(self).env(),
            match old(self)@.mix_inputs(old(self).env(), *node, sources@, sources@.len()) {
                Ok((model, list)) => r matches Ok(found) && found@ == list && final(self)@ == model
                    && model.wf(),
                Err(error) => r matches Err(e) && e == error,
            },
            r matches Ok(found) ==> forall|k: int|
                0 <= k < found@.len() ==> (#[trigger] found@[k]).buf
                    < final(self)@.pool.widths.len(),
    {
        let ghost before = self@;
        let ghost env = self.env();
        let mut found: Vec<MixInput> = Vec::new();
        let mut at: usize = 0;
        while at < sources.len()
            invariant
                at <= sources@.len(),
                self@.wf(),
                env == old(self).env(),
                self.env() == env,
                before == old(self)@,
                until == latest(sources@),
                before.mix_inputs(env, *node, sources@, at as nat) == Ok::<_, CompileError>(
                    (self@, found@),
                ),
                before.pool.widths.len() <= self@.pool.widths.len(),
                forall|k: int|
                    0 <= k < sources@.len() ==> (#[trigger] sources@[k]).buf
                        < before.pool.widths.len() && sources@[k].index < 128,
                forall|k: int|
                    0 <= k < found@.len() ==> (#[trigger] found@[k]).buf < self@.pool.widths.len(),
            decreases sources@.len() - at,
        {
            let from: MixSource = sources[at];
            match self.line_up(from.buf, from.late, until) {
                Err(error) => {
                    proof {
                        before.lemma_mix_inputs_fails(
                            env,
                            *node,
                            sources@,
                            (at + 1) as nat,
                            sources@.len(),
                            error,
                        );
                    }
                    return Err(error);
                },
                Ok(buf) => {
                    let lane: Option<u16> = self.lane(2 * from.index + 1);
                    let gain: Real = if (from.index as usize) < node.gains.len() {
                        node.gains[from.index as usize]
                    } else {
                        Real::zero()
                    };
                    found.push(MixInput { buf, lane, gain });
                },
            }
            at += 1;
        }
        Ok(found)
    }

    fn compile_mix(&mut self, node: &Mix) -> (r: Result<(), CompileError>)
        requires
            old(self)@.wf(),
        ensures
            settled(old(self)@.mix(old(self).env(), *node), *old(self), *final(self), r),
    {
        let count: u8 = if node.inputs < 128 {
            node.inputs
        } else {
            128
        };
        let sources: Vec<MixSource> = self.mix_sources(count)?;
        let until: u32 = latest_of(&sources);
        let inputs: Vec<MixInput> = self.mix_inputs(node, &sources, until)?;
        let bufs: Vec<Buf> = bufs_of(&inputs);
        let out: Buf = self.allocate_beside(node.channels, self.readers, bufs.as_slice())?;
        assert forall|i: int| 0 <= i < inputs@.len() implies (#[trigger] inputs@[i]).buf != out by {
            assert(bufs@[i] == inputs@[i].buf);
        }
        self.emit(AudioOp::Mix { out, inputs });
        self.consume_all(&bufs);
        self.produce(0, out, until);
        Ok(())
    }
}

proof fn lemma_notes_named(env: AudioEnv, id: u32, port: u8)
    requires
        env.names_notes(),
    ensures
        notes_into(env.links, env.note_outputs, id, port) matches Some(a) ==> a < MAX_NOTE_BUFS,
{
    if let Some(from) = source(env.links, id, port) {
        lemma_lookup_from(env.note_outputs, from, 0);
    }
}

proof fn lemma_one_width(buf: Buf, width: u16)
    ensures
        total_width(widths_of(seq![(buf, width)])) == width,
{
    let widths = widths_of(seq![(buf, width)]);
    assert(widths =~= seq![width]);
    assert(widths.drop_last() =~= Seq::<u16>::empty());
    assert(total_width(widths.drop_last()) == 0);
}

fn latest_of(sources: &Vec<MixSource>) -> (r: u32)
    ensures
        r == latest(sources@),
{
    let mut until: u32 = 0;
    let mut at: usize = 0;
    assert(sources@.take(0) =~= Seq::empty());
    while at < sources.len()
        invariant
            at <= sources@.len(),
            until == latest(sources@.take(at as int)),
        decreases sources@.len() - at,
    {
        assert(sources@.take(at + 1).drop_last() =~= sources@.take(at as int));
        if until < sources[at].late {
            until = sources[at].late;
        }
        at += 1;
    }
    assert(sources@.take(at as int) =~= sources@);
    until
}

fn bufs_of(inputs: &Vec<MixInput>) -> (r: Vec<Buf>)
    ensures
        r@ == mix_bufs(inputs@),
{
    let mut bufs: Vec<Buf> = Vec::new();
    let mut at: usize = 0;
    while at < inputs.len()
        invariant
            at <= inputs@.len(),
            bufs@ == mix_bufs(inputs@).take(at as int),
        decreases inputs@.len() - at,
    {
        bufs.push(inputs[at].buf);
        at += 1;
    }
    bufs
}

impl AudioModel {
    proof fn lemma_mix_sources_fails(self, at: nat, count: nat, error: CompileError)
        requires
            at <= count,
            self.mix_sources(at) == Err::<(AudioModel, Seq<MixSource>), CompileError>(error),
        ensures
            self.mix_sources(count) == Err::<(AudioModel, Seq<MixSource>), CompileError>(error),
        decreases count - at,
    {
        if at < count {
            self.lemma_mix_sources_fails(at + 1, count, error);
        }
    }

    proof fn lemma_mix_inputs_fails(
        self,
        env: AudioEnv,
        node: Mix,
        sources: Seq<MixSource>,
        at: nat,
        count: nat,
        error: CompileError,
    )
        requires
            at <= count,
            self.mix_inputs(env, node, sources, at) == Err::<
                (AudioModel, Seq<MixInput>),
                CompileError,
            >(error),
        ensures
            self.mix_inputs(env, node, sources, count) == Err::<
                (AudioModel, Seq<MixInput>),
                CompileError,
            >(error),
        decreases count - at,
    {
        if at < count {
            self.lemma_mix_inputs_fails(env, node, sources, at + 1, count, error);
        }
    }
}

impl<'a> AudioCx<'a> {
    /// Counts the input buses a plugin is run with.
    fn count_fed(&self, count: usize) -> (r: usize)
        requires
            self@.wf(),
        ensures
            r == buses_fed(self@.sources, count as nat),
            r <= count,
    {
        let mut at: usize = count;
        while at > 1 && self.source(at - 1).is_none()
            invariant
                at <= count,
                self@.wf(),
                buses_fed(self@.sources, count as nat) == buses_fed(self@.sources, at as nat),
            decreases at,
        {
            at -= 1;
        }
        at
    }

    fn latest_fed(&self, count: usize) -> (r: u32)
        requires
            self@.wf(),
        ensures
            r == latest_source(self@.sources, count as nat),
    {
        let mut until: u32 = 0;
        let mut at: usize = 0;
        while at < count
            invariant
                at <= count,
                self@.wf(),
                until == latest_source(self@.sources, at as nat),
            decreases count - at,
        {
            if let Some((_buf, late)) = self.source(at) {
                if until < late {
                    until = late;
                }
            }
            at += 1;
        }
        until
    }

    /// Counts the output buses a plugin is run with.
    fn count_read(&self, shown: &Vec<u16>, sockets: usize) -> (r: usize)
        requires
            sockets == socket_count(shown@),
        ensures
            r == buses_read(self.env(), self@.id, shown@, sockets as nat),
    {
        let mut most: usize = 1;
        let mut at: usize = 0;
        while at < sockets
            invariant
                at <= sockets,
                sockets == socket_count(shown@),
                most == buses_read(self.env(), self@.id, shown@, at as nat),
            decreases sockets - at,
        {
            let bus: usize = shown[at] as usize;
            if self.readers_of(at as u8) > 0 && bus + 1 > most {
                most = bus + 1;
            }
            at += 1;
        }
        most
    }

    /// Finds what each input bus of a plugin is fed.
    fn bus_buffers(&mut self, until: u32, count: usize) -> (r: Result<Vec<Buf>, CompileError>)
        requires
            old(self)@.wf(),
        ensures
            final(self).env() == old(self).env(),
            match old(self)@.bus_buffers(until, count as nat) {
                Ok((model, list)) => r matches Ok(found) && found@ == list && final(self)@ == model
                    && model.wf() && list.len() == count,
                Err(error) => r matches Err(e) && e == error,
            },
            r matches Ok(found) ==> forall|k: int|
                0 <= k < found@.len() ==> #[trigger] found@[k] < final(self)@.pool.widths.len(),
    {
        let ghost before = self@;
        let mut found: Vec<Buf> = Vec::new();
        let mut at: usize = 0;
        while at < count
            invariant
                at <= count,
                self@.wf(),
                self.env() == old(self).env(),
                before == old(self)@,
                found@.len() == at,
                before.bus_buffers(until, at as nat) == Ok::<_, CompileError>((self@, found@)),
                forall|k: int|
                    0 <= k < found@.len() ==> #[trigger] found@[k] < self@.pool.widths.len(),
            decreases count - at,
        {
            let next: Result<Buf, CompileError> = match self.source(at) {
                Some((buf, late)) => self.line_up(buf, late, until),
                None => {
                    let given: Result<Buf, CompileError> = self.allocate(1, 1);
                    if let Ok(out) = given {
                        self.emit(AudioOp::Silence { out });
                    }
                    given
                },
            };
            match next {
                Err(error) => {
                    proof {
                        before.lemma_bus_buffers_fails(
                            until,
                            (at + 1) as nat,
                            count as nat,
                            error,
                        );
                    }
                    return Err(error);
                },
                Ok(buf) => {
                    found.push(buf);
                },
            }
            at += 1;
        }
        Ok(found)
    }

    /// Lays a plugin's input buses side by side.
    fn input_region(&mut self, bufs: &Vec<Buf>, widths: &Vec<u16>) -> (r: Result<Buf, CompileError>)
        requires
            old(self)@.wf(),
            bufs@.len() == widths@.len(),
            forall|k: int|
                0 <= k < bufs@.len() ==> #[trigger] bufs@[k] < old(self)@.pool.widths.len(),
        ensures
            stepped(old(self)@.input_region(bufs@, widths@), *old(self), *final(self), r),
            r matches Ok(b) ==> b < final(self)@.pool.widths.len() && total_width(widths@)
                <= MAX_BUFFER_CHANNELS,
    {
        if bufs.len() == 0 {
            return self.allocate(0, 0);
        }
        proof {
            if widths@.len() == 1 {
                assert(widths@.drop_last() =~= Seq::<u16>::empty());
                assert(total_width(widths@.drop_last()) == 0);
            }
        }
        if bufs.len() == 1 && self.width_of(bufs[0]) == widths[0] {
            return Ok(bufs[0]);
        }
        match sum_of(widths) {
            None => Err(
                CompileError::TooLarge {
                    what: "channels in one buffer",
                    limit: MAX_BUFFER_CHANNELS,
                },
            ),
            Some(total) => {
                let out: Buf = self.allocate_beside(total, 1, bufs.as_slice())?;
                let buses: Vec<(Buf, u16)> = pair_up(bufs, widths);
                proof {
                    assert(widths_of(buses@) =~= widths@);
                    assert forall|i: int| 0 <= i < buses@.len() implies (#[trigger] buses@[i]).0
                        < self@.pool.widths.len() && buses@[i].0 != out by {
                        assert(buses@[i].0 == bufs@[i]);
                    }
                }
                self.emit(AudioOp::Gather { out, buses, folding: Folding::Sum });
                self.consume_all(bufs);
                Ok(out)
            },
        }
    }

    /// Leaves a plugin's output on the sockets that carry its main bus.
    fn main_outputs(&mut self, shown: &Vec<u16>, out: Buf, late: u32, sockets: usize)
        requires
            old(self)@.wf(),
            out < old(self)@.pool.widths.len(),
            sockets == socket_count(shown@),
        ensures
            final(self).env() == old(self).env(),
            final(self)@ == old(self)@.main_outputs(shown@, out, late, sockets as nat),
            final(self)@.wf(),
    {
        let ghost before = self@;
        let mut at: usize = 0;
        while at < sockets
            invariant
                at <= sockets,
                sockets == socket_count(shown@),
                self@.wf(),
                self.env() == old(self).env(),
                before == old(self)@,
                out < self@.pool.widths.len(),
                self@ == before.main_outputs(shown@, out, late, at as nat),
            decreases sockets - at,
        {
            if shown[at] == 0 {
                self.produce(at as u8, out, late);
            }
            at += 1;
        }
    }

    /// Copies each bus of a plugin's output that something reads.
    fn split_outputs(
        &mut self,
        ports: &PluginPorts,
        shown: &Vec<u16>,
        region: Buf,
        late: u32,
        sockets: usize,
        Ghost(read): Ghost<int>,
    ) -> (r: Result<(), CompileError>)
        requires
            old(self)@.wf(),
            region < old(self)@.pool.widths.len(),
            shown@ == ports.shown(),
            sockets == socket_count(shown@),
            0 <= read <= ports.audio_out@.len(),
            read == buses_read(old(self).env(), old(self)@.id, shown@, sockets as nat),
            total_width(ports.audio_out@.take(read)) <= MAX_BUFFER_CHANNELS,
            forall|i: int| 0 <= i < shown@.len() ==> #[trigger] shown@[i] < ports.audio_out@.len(),
        ensures
            settled(
                old(self)@.split_outputs(old(self).env(), *ports, region, late, sockets as nat),
                *old(self),
                *final(self),
                r,
            ),
            r is Ok ==> region < final(self)@.pool.widths.len(),
    {
        let ghost before = self@;
        let ghost env = self.env();
        let mut avoid: Vec<Buf> = Vec::new();
        avoid.push(region);
        assert(avoid@ =~= seq![region]);
        let mut at: usize = 0;
        while at < sockets
            invariant
                at <= sockets,
                sockets == socket_count(shown@),
                shown@ == ports.shown(),
                self@.wf(),
                env == old(self).env(),
                self.env() == env,
                before == old(self)@,
                self@.id == before.id,
                avoid@ == seq![region],
                region < self@.pool.widths.len(),
                0 <= read <= ports.audio_out@.len(),
                read == buses_read(env, before.id, shown@, sockets as nat),
                total_width(ports.audio_out@.take(read)) <= MAX_BUFFER_CHANNELS,
                forall|i: int|
                    0 <= i < shown@.len() ==> #[trigger] shown@[i] < ports.audio_out@.len(),
                before.split_outputs(env, *ports, region, late, at as nat) == Ok::<
                    AudioModel,
                    CompileError,
                >(self@),
            decreases sockets - at,
        {
            let readers: usize = self.readers_of(at as u8);
            if readers > 0 {
                let bus: usize = shown[at] as usize;
                proof {
                    lemma_buses_read(env, before.id, shown@, (at + 1) as nat, sockets as nat);
                    lemma_total_width(ports.audio_out@, bus as int, read);
                }
                let width: u16 = ports.audio_out[bus];
                let channel: u16 = width_before(ports, bus);
                match self.allocate_beside(width, readers, avoid.as_slice()) {
                    Err(error) => {
                        proof {
                            before.lemma_split_outputs_fails(
                                env,
                                *ports,
                                region,
                                late,
                                (at + 1) as nat,
                                sockets as nat,
                                error,
                            );
                        }
                        return Err(error);
                    },
                    Ok(out) => {
                        assert(avoid@[0] == region);
                        self.emit(AudioOp::Split { from: region, out, channel, width });
                        self.produce(at as u8, out, late);
                    },
                }
            }
            at += 1;
        }
        Ok(())
    }

    fn plugin_notes(&self, ports: &PluginPorts) -> (r: Option<u16>)
        ensures
            r == self@.plugin_notes(self.env(), *ports),
    {
        if ports.accepts_notes && ports.audio_in.len() < 256 {
            self.notes_in(ports.audio_in.len() as u8)
        } else {
            None
        }
    }

    /// Calls a plugin and hands out what it leaves.
    fn call_plugin(
        &mut self,
        node: &Plugin,
        input: Buf,
        ins: Vec<u16>,
        read: usize,
        shown: &Vec<u16>,
        late: u32,
    ) -> (r: Result<(), CompileError>)
        requires
            old(self)@.wf(),
            old(self).env().names_notes(),
            input < old(self)@.pool.widths.len(),
            total_width(ins@) <= MAX_BUFFER_CHANNELS,
            0 < read <= node.ports.audio_out@.len(),
            shown@ == node.ports.shown(),
            read == buses_read(old(self).env(), old(self)@.id, shown@, socket_count(shown@)),
            forall|i: int|
                0 <= i < shown@.len() ==> #[trigger] shown@[i] < node.ports.audio_out@.len(),
        ensures
            settled(
                old(self)@.plugin_called(
                    old(self).env(),
                    *node,
                    input,
                    ins@,
                    node.ports.audio_out@.take(read as int),
                    late,
                ),
                *old(self),
                *final(self),
                r,
            ),
    {
        let outs: Vec<u16> = first_of(&node.ports.audio_out, read);
        let total: u16 = match sum_of(&outs) {
            None => {
                return Err(
                    CompileError::TooLarge {
                        what: "channels in one buffer",
                        limit: MAX_BUFFER_CHANNELS,
                    },
                );
            },
            Some(total) => total,
        };
        let sockets: usize = if shown.len() < 256 {
            shown.len()
        } else {
            256
        };
        let readers: usize = if read == 1 {
            self.readers
        } else {
            1
        };
        let mut avoid: Vec<Buf> = Vec::new();
        avoid.push(input);
        assert(avoid@ =~= seq![input]);
        let output: Buf = self.allocate_beside(total, readers, avoid.as_slice())?;
        assert(avoid@[0] == input);
        let notes: Option<u16> = self.plugin_notes(&node.ports);
        proof {
            lemma_notes_named(self.env(), self.id, node.ports.audio_in@.len() as u8);
        }
        let io: InstanceIo = InstanceIo {
            instance: node.instance,
            input_channels: if ins.len() == 0 {
                0
            } else {
                ins[0]
            },
            aux_inputs: rest_of(&ins),
            output_channels: outs[0],
            aux_outputs: rest_of(&outs),
        };
        let ghost widths = outs@;
        self.emit(
            AudioOp::Plugin {
                instance: node.instance,
                input,
                input_buses: ins,
                output,
                output_buses: outs,
                notes,
            },
        );
        self.consume(input);
        self.declare_instance(io);
        if read == 1 {
            self.main_outputs(shown, output, late, sockets);
            Ok(())
        } else {
            self.split_outputs(&node.ports, shown, output, late, sockets, Ghost(read as int))?;
            self.consume(output);
            Ok(())
        }
    }

    fn compile_plugin(&mut self, node: &Plugin) -> (r: Result<(), CompileError>)
        requires
            old(self)@.wf(),
            old(self).env().names_notes(),
        ensures
            settled(old(self)@.plugin(old(self).env(), *node), *old(self), *final(self), r),
    {
        if node.ports.audio_out.len() == 0 {
            return Ok(());
        }
        let shown: Vec<u16> = node.ports.shown_buses();
        let sockets: usize = if shown.len() < 256 {
            shown.len()
        } else {
            256
        };
        let fed: usize = self.count_fed(node.ports.audio_in.len());
        let until: u32 = self.latest_fed(fed);
        let ins: Vec<u16> = first_of(&node.ports.audio_in, fed);
        let read: usize = self.count_read(&shown, sockets);
        proof {
            lemma_buses_read_bound(
                self.env(),
                self.id,
                shown@,
                sockets as nat,
                node.ports.audio_out@.len(),
            );
        }
        let ghost before = self@;
        let bufs: Vec<Buf> = self.bus_buffers(until, fed)?;
        proof {
            before.lemma_bus_buffers_id(until, fed as nat);
        }
        let ghost lined = self@;
        let input: Buf = self.input_region(&bufs, &ins)?;
        proof {
            lined.lemma_input_region_id(bufs@, ins@);
        }
        self.call_plugin(node, input, ins, read, &shown, until.saturating_add(node.ports.latency))
    }

    /// Compiles one node's share of the audio half.
    pub fn compile(&mut self, kind: &NodeKind) -> (r: Result<(), CompileError>)
        requires
            old(self)@.wf(),
            old(self).env().names_notes(),
        ensures
            settled(old(self)@.compiled(old(self).env(), *kind), *old(self), *final(self), r),
    {
        match kind {
            NodeKind::AudioIn(node) => self.compile_input(node),
            NodeKind::AudioOut(node) => self.compile_output(node),
            NodeKind::Gate(node) => self.compile_gate(node),
            NodeKind::EnvelopeFollower(_) => {
                self.compile_follower();
                Ok(())
            },
            NodeKind::DelayRead(node) => self.compile_read(node),
            NodeKind::DelayWrite(node) => self.compile_write(node),
            NodeKind::Mix(node) => self.compile_mix(node),
            NodeKind::Plugin(node) => self.compile_plugin(node),
            _ => Ok(()),
        }
    }
}

/// The channels of some buses together, if one buffer can hold them.
pub fn sum_of(widths: &Vec<u16>) -> (r: Option<u16>)
    ensures
        match r {
            Some(total) => total == total_width(widths@) && total <= MAX_BUFFER_CHANNELS,
            None => total_width(widths@) > MAX_BUFFER_CHANNELS,
        },
{
    let mut total: usize = 0;
    let mut at: usize = 0;
    proof {
        assert(widths@.take(0) =~= Seq::empty());
        assert(widths@.take(widths@.len() as int) =~= widths@);
    }
    while at < widths.len()
        invariant
            at <= widths@.len(),
            total == total_width(widths@.take(at as int)),
            total <= MAX_BUFFER_CHANNELS,
            widths@.take(widths@.len() as int) == widths@,
        decreases widths@.len() - at,
    {
        proof {
            assert(widths@.take(at + 1).drop_last() =~= widths@.take(at as int));
            lemma_width_of_fewer(widths@, at + 1, widths@.len() as int);
        }
        total += widths[at] as usize;
        if total > MAX_BUFFER_CHANNELS {
            return None;
        }
        at += 1;
    }
    Some(total as u16)
}

/// The channels before a bus.
fn width_before(ports: &PluginPorts, bus: usize) -> (r: u16)
    requires
        bus <= ports.audio_out@.len(),
        total_width(ports.audio_out@.take(bus as int)) <= MAX_BUFFER_CHANNELS,
    ensures
        r == total_width(ports.audio_out@.take(bus as int)),
{
    let before: Vec<u16> = first_of(&ports.audio_out, bus);
    match sum_of(&before) {
        Some(total) => total,
        None => 0,
    }
}

fn first_of(list: &Vec<u16>, count: usize) -> (r: Vec<u16>)
    requires
        count <= list@.len(),
    ensures
        r@ == list@.take(count as int),
{
    let mut first: Vec<u16> = Vec::new();
    let mut at: usize = 0;
    while at < count
        invariant
            at <= count <= list@.len(),
            first@ == list@.take(at as int),
        decreases count - at,
    {
        first.push(list[at]);
        at += 1;
    }
    first
}

/// All but the first.
fn rest_of(list: &Vec<u16>) -> (r: Vec<u16>)
    ensures
        r@ == (if list@.len() == 0 {
            list@
        } else {
            list@.skip(1)
        }),
{
    let mut rest: Vec<u16> = Vec::new();
    let mut at: usize = 1;
    while at < list.len()
        invariant
            1 <= at,
            list@.len() == 0 ==> rest@.len() == 0 && at == 1,
            list@.len() > 0 ==> at <= list@.len() && rest@ == list@.subrange(1, at as int),
        decreases list@.len() - at,
    {
        rest.push(list[at]);
        at += 1;
    }
    rest
}

fn pair_up(bufs: &Vec<Buf>, widths: &Vec<u16>) -> (r: Vec<(Buf, u16)>)
    requires
        bufs@.len() == widths@.len(),
    ensures
        r@ == paired(bufs@, widths@),
{
    let mut pairs: Vec<(Buf, u16)> = Vec::new();
    let mut at: usize = 0;
    while at < bufs.len()
        invariant
            at <= bufs@.len(),
            bufs@.len() == widths@.len(),
            pairs@ == paired(bufs@, widths@).take(at as int),
        decreases bufs@.len() - at,
    {
        pairs.push((bufs[at], widths[at]));
        at += 1;
    }
    pairs
}

proof fn lemma_width_of_fewer(widths: Seq<u16>, count: int, more: int)
    requires
        0 <= count <= more <= widths.len(),
    ensures
        total_width(widths.take(count)) <= total_width(widths.take(more)),
    decreases more,
{
    if count < more {
        lemma_width_of_fewer(widths, count, more - 1);
        assert(widths.take(more).drop_last() =~= widths.take(more - 1));
    }
}

/// The buses before one, and that one, are no wider than more of them.
pub proof fn lemma_total_width(widths: Seq<u16>, bus: int, more: int)
    requires
        0 <= bus < more <= widths.len(),
    ensures
        total_width(widths.take(bus)) + widths[bus] <= total_width(widths.take(more)),
{
    lemma_width_of_fewer(widths, bus + 1, more);
    assert(widths.take(bus + 1).drop_last() =~= widths.take(bus));
}

pub proof fn lemma_buses_read(env: AudioEnv, id: u32, shown: Seq<u16>, at: nat, count: nat)
    requires
        0 < at <= count <= shown.len(),
        reader_count(env.links, env.order, id, (at - 1) as u8) > 0,
    ensures
        shown[at - 1] < buses_read(env, id, shown, count),
    decreases count,
{
    if at < count {
        lemma_buses_read(env, id, shown, at, (count - 1) as nat);
    }
}

pub proof fn lemma_buses_read_bound(
    env: AudioEnv,
    id: u32,
    shown: Seq<u16>,
    count: nat,
    buses: nat,
)
    requires
        count <= shown.len(),
        0 < buses,
        forall|i: int| 0 <= i < shown.len() ==> #[trigger] shown[i] < buses,
    ensures
        0 < buses_read(env, id, shown, count) <= buses,
    decreases count,
{
    if count > 0 {
        lemma_buses_read_bound(env, id, shown, (count - 1) as nat, buses);
    }
}

impl AudioModel {
    /// How long a signal is held back between two points of the compilation: by
    /// the delay that was laid on it last.
    pub open spec fn wait_added(self, next: AudioModel, buf: Buf) -> int {
        if next.ops.len() == self.ops.len() {
            0
        } else {
            match next.ops.last() {
                AudioStep::Compensate { buf: delayed, samples, .. } if delayed == buf => {
                    samples as int
                },
                _ => 0,
            }
        }
    }
}

proof fn lemma_latest(sources: Seq<MixSource>, i: int)
    requires
        0 <= i < sources.len(),
    ensures
        sources[i].late <= latest(sources),
    decreases sources.len(),
{
    if i < sources.len() - 1 {
        lemma_latest(sources.drop_last(), i);
    }
}

proof fn lemma_latest_source(sources: Seq<Option<(Buf, u32)>>, count: nat, i: int)
    requires
        0 <= i < count <= sources.len(),
    ensures
        sources[i] matches Some((buf, late)) ==> late <= latest_source(sources, count),
    decreases count,
{
    if i < count - 1 {
        lemma_latest_source(sources, (count - 1) as nat, i);
    }
}

/// A plugin that declares no output bus has no part in the audio half.
pub proof fn law_plugin_without_outputs_is_left_out(
    model: AudioModel,
    env: AudioEnv,
    node: Plugin,
)
    requires
        node.ports.audio_out@.len() == 0,
    ensures
        model.compiled(env, NodeKind::Plugin(node)) == Ok::<AudioModel, CompileError>(model),
{
}

/// Parallel paths arrive together: each input of a mix is held back by exactly as
/// much as it is ahead of the latest one.
pub proof fn law_mixed_paths_arrive_together(
    model: AudioModel,
    sources: Seq<MixSource>,
    i: int,
)
    requires
        0 <= i < sources.len(),
    ensures
        sources[i].late <= latest(sources),
        model.lined_up(sources[i].buf, sources[i].late, latest(sources)) matches Ok((next, lined))
            ==> sources[i].late + model.wait_added(next, lined) == latest(sources),
{
    lemma_latest(sources, i);
}

/// The same of the buses of a plugin: each is held back by exactly as much as it
/// is ahead of the latest one.
pub proof fn law_plugin_buses_arrive_together(
    model: AudioModel,
    sources: Seq<Option<(Buf, u32)>>,
    count: nat,
    i: int,
)
    requires
        0 <= i < count <= sources.len(),
        sources[i] is Some,
    ensures
        ({
            let (buf, late) = sources[i]->0;
            let until = latest_source(sources, count);
            &&& late <= until
            &&& model.lined_up(buf, late, until) matches Ok((next, lined)) ==> late
                + model.wait_added(next, lined) == until
        }),
{
    lemma_latest_source(sources, count, i);
}

/// Whether an operation moves the head of a delay line.
pub open spec fn moves_head(step: AudioStep) -> bool {
    step is DelayWrite || step is DelaySilence
}

impl AudioModel {
    /// Where the operations of the stage at hand start.
    pub open spec fn stage_start(self) -> int {
        if self.spans.len() == 0 {
            0
        } else {
            self.spans.last().end as int
        }
    }

    /// No head of a delay line has moved in this stage, and whatever was held back
    /// is a write.
    pub open spec fn writes_wait(self) -> bool {
        &&& forall|i: int|
            self.stage_start() <= i < self.ops.len() ==> !moves_head(#[trigger] self.ops[i])
        &&& forall|i: int|
            0 <= i < self.deferred.len() ==> #[trigger] self.deferred[i] is DelayWrite
    }

    pub open spec fn goes_on_to(self, next: AudioModel) -> bool {
        &&& next.spans == self.spans
        &&& self.ops.len() <= next.ops.len()
        &&& forall|i: int| 0 <= i < self.ops.len() ==> #[trigger] next.ops[i] == self.ops[i]
        &&& self.writes_wait() ==> next.writes_wait()
    }

    /// The same, and no delay line was met for the first time.
    pub open spec fn carries_on_to(self, next: AudioModel) -> bool {
        &&& self.goes_on_to(next)
        &&& next.audio_lines == self.audio_lines
        &&& next.delay_nodes == self.delay_nodes
    }

    /// Every audio line met so far was met once, and its writer is known.
    pub open spec fn lines_paired(self, lines: Seq<Line>) -> bool {
        &&& self.audio_lines.no_duplicates()
        &&& self.delay_nodes.len() == self.audio_lines.len()
        &&& forall|i: int|
            0 <= i < self.audio_lines.len() ==> #[trigger] self.delay_nodes[i] == match line_at(
                lines,
                self.audio_lines[i],
            ) {
                Some(at) => lines[at].writer,
                None => NO_NODE,
            }
    }

    proof fn lemma_with_line_paired(self, env: AudioEnv, line: LineId)
        ensures
            self.lines_paired(env.lines) ==> (self.with_line(env, line) matches Ok((next, index))
                ==> next.lines_paired(env.lines)),
    {
        lemma_line_number_from(self.audio_lines, line, 0);
    }

    /// Compiling a node keeps the lines and their writers together.
    pub proof fn lemma_compiled_paired(self, env: AudioEnv, kind: NodeKind)
        ensures
            self.lines_paired(env.lines) ==> (self.compiled(env, kind) matches Ok(next)
                ==> next.lines_paired(env.lines)),
    {
        match kind {
            NodeKind::Mix(node) => {
                self.lemma_mix_goes_on(env, node);
            },
            NodeKind::AudioOut(node) => {
                self.lemma_audio_out_goes_on(node);
            },
            NodeKind::Gate(node) => {
                self.lemma_audio_gate_goes_on(env, node);
            },
            NodeKind::DelayRead(node) => {
                self.lemma_with_line_paired(env, node.line);
            },
            NodeKind::DelayWrite(node) => {
                if let Ok((fed, from)) = self.with_source(0) {
                    fed.lemma_with_line_paired(env, node.line);
                }
            },
            NodeKind::Plugin(node) => {
                self.lemma_plugin_goes_on(env, node);
            },
            _ => {},
        }
    }

    proof fn lemma_lined_up_id(self, buf: Buf, late: u32, until: u32)
        ensures
            self.lined_up(buf, late, until) matches Ok((next, lined)) ==> next.id == self.id
                && self.carries_on_to(next),
    {
    }

    proof fn lemma_bus_buffers_id(self, until: u32, count: nat)
        ensures
            self.bus_buffers(until, count) matches Ok((next, list)) ==> next.id == self.id
                && self.carries_on_to(next),
        decreases count,
    {
        if count > 0 {
            self.lemma_bus_buffers_id(until, (count - 1) as nat);
            if let Ok((below, list)) = self.bus_buffers(until, (count - 1) as nat) {
                if let Some((buf, late)) = below.source(count - 1) {
                    below.lemma_lined_up_id(buf, late, until);
                }
            }
        }
    }

    proof fn lemma_consumed_all_id(self, bufs: Seq<Buf>, count: nat)
        ensures
            self.consumed_all(bufs, count).id == self.id,
            self.carries_on_to(self.consumed_all(bufs, count)),
        decreases count,
    {
        if count > 0 {
            self.lemma_consumed_all_id(bufs, (count - 1) as nat);
        }
    }

    proof fn lemma_input_region_id(self, bufs: Seq<Buf>, widths: Seq<u16>)
        ensures
            self.input_region(bufs, widths) matches Ok((next, input)) ==> next.id == self.id
                && self.carries_on_to(next),
    {
        if let Ok((next, out)) = self.with_buffer_beside(total_width(widths) as u16, 1, bufs) {
            next.emitted(
                AudioStep::Gather { out, buses: paired(bufs, widths), folding: Folding::Sum },
            ).lemma_consumed_all_id(bufs, bufs.len());
        }
    }

    proof fn lemma_bus_buffers_fails(self, until: u32, at: nat, count: nat, error: CompileError)
        requires
            at <= count,
            self.bus_buffers(until, at) == Err::<(AudioModel, Seq<Buf>), CompileError>(error),
        ensures
            self.bus_buffers(until, count) == Err::<(AudioModel, Seq<Buf>), CompileError>(error),
        decreases count - at,
    {
        if at < count {
            self.lemma_bus_buffers_fails(until, at + 1, count, error);
        }
    }

    proof fn lemma_split_outputs_fails(
        self,
        env: AudioEnv,
        ports: PluginPorts,
        region: Buf,
        late: u32,
        at: nat,
        count: nat,
        error: CompileError,
    )
        requires
            at <= count,
            self.split_outputs(env, ports, region, late, at) == Err::<AudioModel, CompileError>(
                error,
            ),
        ensures
            self.split_outputs(env, ports, region, late, count) == Err::<AudioModel, CompileError>(
                error,
            ),
        decreases count - at,
    {
        if at < count {
            self.lemma_split_outputs_fails(env, ports, region, late, at + 1, count, error);
        }
    }
}

/// Compiling a node closes no stage, and holds the writes to delay lines back to
/// its end.
impl AudioModel {
    proof fn lemma_mix_sources_goes_on(self, count: nat)
        ensures
            self.mix_sources(count) matches Ok((next, list)) ==> self.carries_on_to(next),
        decreases count,
    {
        if count > 0 {
            self.lemma_mix_sources_goes_on((count - 1) as nat);
        }
    }

    proof fn lemma_mix_inputs_goes_on(
        self,
        env: AudioEnv,
        node: Mix,
        sources: Seq<MixSource>,
        count: nat,
    )
        ensures
            self.mix_inputs(env, node, sources, count) matches Ok((next, list)) ==> self.carries_on_to(next),
        decreases count,
    {
        if count > 0 {
            self.lemma_mix_inputs_goes_on(env, node, sources, (count - 1) as nat);
            if let Ok((below, list)) = self.mix_inputs(env, node, sources, (count - 1) as nat) {
                let from = sources[count - 1];
                below.lemma_lined_up_id(from.buf, from.late, latest(sources));
            }
        }
    }

    proof fn lemma_main_outputs_goes_on(self, shown: Seq<u16>, out: Buf, late: u32, count: nat)
        ensures
            self.carries_on_to(self.main_outputs(shown, out, late, count)),
        decreases count,
    {
        if count > 0 {
            self.lemma_main_outputs_goes_on(shown, out, late, (count - 1) as nat);
        }
    }

    proof fn lemma_split_outputs_goes_on(
        self,
        env: AudioEnv,
        ports: PluginPorts,
        region: Buf,
        late: u32,
        count: nat,
    )
        ensures
            self.split_outputs(env, ports, region, late, count) matches Ok(next) ==> self.carries_on_to(next),
        decreases count,
    {
        if count > 0 {
            self.lemma_split_outputs_goes_on(env, ports, region, late, (count - 1) as nat);
        }
    }

    proof fn lemma_mix_goes_on(self, env: AudioEnv, node: Mix)
        ensures
            self.mix(env, node) matches Ok(next) ==> self.carries_on_to(next),
    {
        let count = if node.inputs < 128 {
            node.inputs as nat
        } else {
            128
        };
        self.lemma_mix_sources_goes_on(count);
        if let Ok((fed, sources)) = self.mix_sources(count) {
            fed.lemma_mix_inputs_goes_on(env, node, sources, sources.len());
            if let Ok((lined, inputs)) = fed.mix_inputs(env, node, sources, sources.len()) {
                if let Ok((next, out)) = lined.with_buffer_beside(
                    node.channels,
                    lined.readers,
                    mix_bufs(inputs),
                ) {
                    next.emitted(AudioStep::Mix { out, inputs }).lemma_consumed_all_id(
                        mix_bufs(inputs),
                        inputs.len(),
                    );
                }
            }
        }
    }

    proof fn lemma_plugin_called_goes_on(
        self,
        env: AudioEnv,
        node: Plugin,
        input: Buf,
        ins: Seq<u16>,
        outs: Seq<u16>,
        late: u32,
    )
        ensures
            self.plugin_called(env, node, input, ins, outs, late) matches Ok(next) ==> self.carries_on_to(next),
    {
        let shown = node.ports.shown();
        let readers = if outs.len() == 1 {
            self.readers
        } else {
            1
        };
        if let Ok((next, output)) = self.with_buffer_beside(
            total_width(outs) as u16,
            readers,
            seq![input],
        ) {
            let called = next.emitted(
                AudioStep::Plugin {
                    instance: node.instance,
                    input,
                    input_buses: ins,
                    output,
                    output_buses: outs,
                    notes: next.plugin_notes(env, node.ports),
                },
            ).consumed(input);
            let told = AudioModel {
                instances: called.instances.push(
                    InstanceModel {
                        instance: node.instance,
                        input_channels: if ins.len() == 0 {
                            0
                        } else {
                            ins[0]
                        },
                        aux_inputs: if ins.len() == 0 {
                            ins
                        } else {
                            ins.skip(1)
                        },
                        output_channels: outs[0],
                        aux_outputs: outs.skip(1),
                    },
                ),
                ..called
            };
            told.lemma_main_outputs_goes_on(shown, output, late, socket_count(shown));
            told.lemma_split_outputs_goes_on(env, node.ports, output, late, socket_count(shown));
        }
    }

    proof fn lemma_audio_out_goes_on(self, node: AudioOut)
        ensures
            self.audio_out(node) matches Ok(next) ==> self.carries_on_to(next),
    {
    }

    proof fn lemma_audio_gate_goes_on(self, env: AudioEnv, node: Gate)
        ensures
            self.audio_gate(env, node) matches Ok(next) ==> self.carries_on_to(next),
    {
    }

    proof fn lemma_audio_read_goes_on(self, env: AudioEnv, node: DelayRead)
        ensures
            self.audio_read(env, node) matches Ok(next) ==> self.goes_on_to(next),
    {
    }

    proof fn lemma_audio_write_goes_on(self, env: AudioEnv, node: DelayWrite)
        ensures
            self.audio_write(env, node) matches Ok(next) ==> self.goes_on_to(next),
    {
    }

    proof fn lemma_plugin_goes_on(self, env: AudioEnv, node: Plugin)
        ensures
            self.plugin(env, node) matches Ok(next) ==> self.carries_on_to(next),
    {
        let ports = node.ports;
        let fed = buses_fed(self.sources, ports.audio_in@.len());
        let until = latest_source(self.sources, fed);
        let ins = ports.audio_in@.take(fed as int);
        let read = buses_read(env, self.id, ports.shown(), socket_count(ports.shown()));
        let outs = ports.audio_out@.take(read as int);
        self.lemma_bus_buffers_id(until, fed);
        if let Ok((lined, bufs)) = self.bus_buffers(until, fed) {
            lined.lemma_input_region_id(bufs, ins);
            if let Ok((next, input)) = lined.input_region(bufs, ins) {
                next.lemma_plugin_called_goes_on(
                    env,
                    node,
                    input,
                    ins,
                    outs,
                    added(until, ports.latency),
                );
            }
        }
    }

    pub proof fn lemma_compiled_goes_on(self, env: AudioEnv, kind: NodeKind)
        ensures
            self.compiled(env, kind) matches Ok(next) ==> self.goes_on_to(next),
    {
        match kind {
            NodeKind::Mix(node) => {
                self.lemma_mix_goes_on(env, node);
            },
            NodeKind::AudioOut(node) => {
                self.lemma_audio_out_goes_on(node);
            },
            NodeKind::Gate(node) => {
                self.lemma_audio_gate_goes_on(env, node);
            },
            NodeKind::DelayRead(node) => {
                self.lemma_audio_read_goes_on(env, node);
            },
            NodeKind::DelayWrite(node) => {
                self.lemma_audio_write_goes_on(env, node);
            },
            NodeKind::Plugin(node) => {
                self.lemma_plugin_goes_on(env, node);
            },
            _ => {},
        }
    }
}

} // verus!
