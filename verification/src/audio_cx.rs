//! What a node is handed to compile its audio half with.
//!
//! It hands out buffers rather than registers, lines up paths of unequal
//! latency, and numbers the audio delay lines.
use vstd::prelude::*;
use crate::declare::{find_line, line_at, Line};
use crate::error::CompileError;
use crate::graph::{source, Graph, Link};
use crate::ir::{
    steps_of, AudioOp, AudioStep, Buf, Folding, InstanceIo, InstanceModel, LineId, NodeId, Span,
    MAX_AUDIO_DELAY_LINES, MAX_BUFFER_CHANNELS, MAX_COMPENSATION, MAX_COMPENSATORS, MAX_NOTE_BUFS,
    NO_NODE,
};
use crate::nodes::NodeKind;
use crate::note_half::{notes_into, reader_count, readers_of, Notes};
use crate::number::Real;
use crate::param_cx::{lemma_spans_follow, spans_follow};
use crate::pool::{keeps_widths, occurs, Pool, PoolModel};
use crate::port::{sockets, Port, PortType, Socket};
use crate::stages::{lemma_index_from, position};
use crate::tables::{find_key, lookup};

verus! {

/// The longest an audio delay line can be, in seconds.
pub const MAX_AUDIO_DELAY: u64 = 0x4024_0000_0000_0000;

/// What a node leaves on an output socket, and how late it is.
#[derive(Debug, Clone, Copy, PartialEq, Eq, Structural)]
pub struct Produced {
    pub node: NodeId,
    pub port: u8,
    pub buf: Buf,
    pub latency: u32,
}

/// The channels of a list of buses together.
pub open spec fn total_width(widths: Seq<u16>) -> nat
    decreases widths.len(),
{
    if widths.len() == 0 {
        0
    } else {
        total_width(widths.drop_last()) + widths.last() as nat
    }
}

/// The widths that a list of buses is converted to.
pub open spec fn widths_of(buses: Seq<(Buf, u16)>) -> Seq<u16> {
    Seq::new(buses.len(), |i: int| buses[i].1)
}

/// Buses that exist, apart from where they are laid side by side, and room for them.
pub open spec fn gather_fits(out: Buf, buses: Seq<(Buf, u16)>, buffers: nat) -> bool {
    &&& out < buffers
    &&& total_width(widths_of(buses)) <= MAX_BUFFER_CHANNELS
    &&& forall|i: int|
        0 <= i < buses.len() ==> (#[trigger] buses[i]).0 < buffers && buses[i].0 != out
}

/// An operation names buffers, lines and compensators that exist, and nothing is
/// read from where it is written in another shape.
pub open spec fn step_fits(step: AudioStep, buffers: nat) -> bool {
    match step {
        AudioStep::Silence { out } => out < buffers,
        AudioStep::Input { out, .. } => out < buffers,
        AudioStep::Output { a, .. } => a < buffers,
        AudioStep::Gather { out, buses, .. } => gather_fits(out, buses, buffers),
        AudioStep::Split { from, out, channel, width } => {
            &&& from < buffers
            &&& out < buffers
            &&& from != out
            &&& channel + width <= MAX_BUFFER_CHANNELS
        },
        AudioStep::Plugin { input, input_buses, output, output_buses, notes, .. } => {
            &&& input < buffers
            &&& output < buffers
            &&& input != output
            &&& total_width(input_buses) <= MAX_BUFFER_CHANNELS
            &&& total_width(output_buses) <= MAX_BUFFER_CHANNELS
            &&& notes matches Some(buf) ==> buf < MAX_NOTE_BUFS
        },
        AudioStep::Mix { out, inputs } => {
            &&& out < buffers
            &&& forall|i: int|
                0 <= i < inputs.len() ==> (#[trigger] inputs[i]).buf < buffers && inputs[i].buf
                    != out
        },
        AudioStep::Fade { out, a, .. } => out < buffers && a < buffers && a != out,
        AudioStep::Compensate { buf, slot, .. } => buf < buffers && slot < MAX_COMPENSATORS,
        AudioStep::DelayRead { out, line, .. } => out < buffers && line < MAX_AUDIO_DELAY_LINES,
        AudioStep::DelayWrite { a, line } => a < buffers && line < MAX_AUDIO_DELAY_LINES,
        AudioStep::DelaySilence { line } => line < MAX_AUDIO_DELAY_LINES,
    }
}

/// What the audio half is compiled against.
pub struct AudioEnv {
    pub links: Seq<Link>,
    pub lines: Seq<Line>,
    pub order: Seq<NodeId>,
    pub lanes: Seq<((NodeId, u8), u16)>,
    pub latch_nodes: Seq<NodeId>,
    pub note_outputs: Seq<((NodeId, u8), u16)>,
}

impl AudioEnv {
    /// The notes on every socket lie in a buffer there is.
    pub open spec fn names_notes(self) -> bool {
        forall|i: int|
            0 <= i < self.note_outputs.len() ==> (#[trigger] self.note_outputs[i]).1
                < MAX_NOTE_BUFS
    }
}

#[verifier::ext_equal]
pub struct AudioModel {
    pub id: NodeId,
    /// What is wired into each audio input.
    pub sources: Seq<Option<(Buf, u32)>>,
    pub source_widths: Seq<u16>,
    pub readers: usize,
    pub out_width: u16,
    pub pool: PoolModel,
    pub produced: Seq<Produced>,
    pub ops: Seq<AudioStep>,
    /// Operations held back to the end of the stage.
    pub deferred: Seq<AudioStep>,
    pub instances: Seq<InstanceModel>,
    pub latency: u32,
    pub compensators: u16,
    pub audio_lines: Seq<LineId>,
    pub delay_nodes: Seq<NodeId>,
    pub ring_seconds: Seq<Real>,
    /// Which buffer each level is read off.
    pub follows: Seq<(NodeId, Buf)>,
    pub spans: Seq<Span>,
    /// How many audio lines had been numbered before this stage.
    pub settled_lines: usize,
}

/// The first thing left on a socket from `at` on.
pub open spec fn produced_from(
    produced: Seq<Produced>,
    node: NodeId,
    port: u8,
    at: int,
) -> Option<(Buf, u32)>
    decreases produced.len() - at,
{
    if at >= produced.len() {
        None
    } else if produced[at].node == node && produced[at].port == port {
        Some((produced[at].buf, produced[at].latency))
    } else {
        produced_from(produced, node, port, at + 1)
    }
}

pub proof fn lemma_produced_from(produced: Seq<Produced>, node: NodeId, port: u8, at: int)
    requires
        0 <= at,
    ensures
        produced_from(produced, node, port, at) matches Some((buf, latency)) ==> exists|i: int|
            at <= i < produced.len() && (#[trigger] produced[i]).buf == buf,
    decreases produced.len() - at,
{
    if at < produced.len() {
        if produced[at].node == node && produced[at].port == port {
            assert(produced[at].buf == produced[at].buf);
        } else {
            lemma_produced_from(produced, node, port, at + 1);
        }
    }
}

/// What is wired into an input of a node.
pub open spec fn fed_by(
    links: Seq<Link>,
    produced: Seq<Produced>,
    node: NodeId,
    port: u8,
) -> Option<(Buf, u32)> {
    match source(links, node, port) {
        Some((from, from_port)) => produced_from(produced, from, from_port, 0),
        None => None,
    }
}

/// What is wired into the audio sockets among the first `count`. Nothing is into a socket
/// that has no number.
pub open spec fn audio_sources(
    links: Seq<Link>,
    produced: Seq<Produced>,
    node: NodeId,
    inputs: Seq<Socket>,
    count: nat,
) -> Seq<Option<(Buf, u32)>>
    decreases count,
{
    if count == 0 {
        Seq::empty()
    } else {
        let before = audio_sources(links, produced, node, inputs, (count - 1) as nat);
        if inputs[count - 1].ty is Audio {
            before.push(
                if count <= 256 {
                    fed_by(links, produced, node, (count - 1) as u8)
                } else {
                    None
                },
            )
        } else {
            before
        }
    }
}

/// The channels of the audio sockets among the first `count`.
pub open spec fn audio_widths(inputs: Seq<Socket>, count: nat) -> Seq<u16>
    decreases count,
{
    if count == 0 {
        Seq::empty()
    } else {
        let before = audio_widths(inputs, (count - 1) as nat);
        match inputs[count - 1].ty {
            PortType::Audio { channels } => before.push(channels),
            _ => before,
        }
    }
}

pub open spec fn first_width(outputs: Seq<Socket>) -> u16 {
    if outputs.len() == 0 {
        0
    } else {
        match outputs[0].ty {
            PortType::Audio { channels } => channels,
            _ => 0,
        }
    }
}

/// How many links leave a node for nodes that run.
pub open spec fn all_readers(links: Seq<Link>, order: Seq<NodeId>, node: NodeId) -> nat {
    links.filter(|link: Link| link.from == node && order.contains(link.to)).len()
}

/// The first line from `at` on.
pub open spec fn line_number_from(lines: Seq<LineId>, line: LineId, at: int) -> Option<int>
    decreases lines.len() - at,
{
    if at >= lines.len() {
        None
    } else if lines[at] == line {
        Some(at)
    } else {
        line_number_from(lines, line, at + 1)
    }
}

pub proof fn lemma_line_number_from(lines: Seq<LineId>, line: LineId, at: int)
    requires
        0 <= at,
    ensures
        match line_number_from(lines, line, at) {
            Some(i) => at <= i < lines.len() && lines[i] == line,
            None => forall|i: int| at <= i < lines.len() ==> lines[i] != line,
        },
    decreases lines.len() - at,
{
    if at < lines.len() && lines[at] != line {
        lemma_line_number_from(lines, line, at + 1);
    }
}

/// Whether some operation writes a line.
pub open spec fn line_written(ops: Seq<AudioStep>, line: int) -> bool {
    exists|i: int|
        0 <= i < ops.len() && (#[trigger] ops[i] matches AudioStep::DelayWrite { line: to, .. } && to
            == line)
}

/// Silence for the lines from `from` to `to` that no operation writes, so that
/// what they hold drains away.
pub open spec fn draining(ops: Seq<AudioStep>, from: int, to: int) -> Seq<AudioStep>
    decreases to - from,
{
    if from >= to {
        Seq::empty()
    } else {
        let before = draining(ops, from, to - 1);
        if line_written(ops, to - 1) {
            before
        } else {
            before.push(AudioStep::DelaySilence { line: (to - 1) as u16 })
        }
    }
}

impl AudioModel {
    pub open spec fn empty() -> AudioModel {
        AudioModel {
            id: NO_NODE,
            sources: Seq::empty(),
            source_widths: Seq::empty(),
            readers: 0,
            out_width: 0,
            pool: PoolModel { widths: Seq::empty(), pending: Seq::empty() },
            produced: Seq::empty(),
            ops: Seq::empty(),
            deferred: Seq::empty(),
            instances: Seq::empty(),
            latency: 0,
            compensators: 0,
            audio_lines: Seq::empty(),
            delay_nodes: Seq::empty(),
            ring_seconds: Seq::empty(),
            follows: Seq::empty(),
            spans: Seq::empty(),
            settled_lines: 0,
        }
    }

    /// Turned to the next node.
    pub open spec fn begun(self, env: AudioEnv, id: NodeId, kind: NodeKind) -> AudioModel {
        AudioModel {
            id,
            sources: audio_sources(
                env.links,
                self.produced,
                id,
                kind.inputs(),
                kind.inputs().len(),
            ),
            source_widths: audio_widths(kind.inputs(), kind.inputs().len()),
            readers: all_readers(env.links, env.order, id) as usize,
            out_width: first_width(kind.outputs()),
            ..self
        }
    }

    pub open spec fn source(self, index: int) -> Option<(Buf, u32)> {
        if 0 <= index < self.sources.len() {
            self.sources[index]
        } else {
            None
        }
    }

    pub open spec fn lane(self, env: AudioEnv, port: u8) -> Option<u16> {
        lookup(env.lanes, (self.id, port))
    }

    pub open spec fn emitted(self, op: AudioStep) -> AudioModel {
        AudioModel { ops: self.ops.push(op), ..self }
    }

    pub open spec fn held_back(self, op: AudioStep) -> AudioModel {
        AudioModel { deferred: self.deferred.push(op), ..self }
    }

    pub open spec fn producing(self, port: u8, buf: Buf, latency: u32) -> AudioModel {
        AudioModel {
            produced: self.produced.push(Produced { node: self.id, port, buf, latency }),
            ..self
        }
    }

    pub open spec fn consumed(self, buf: Buf) -> AudioModel {
        AudioModel { pool: self.pool.consumed(buf), ..self }
    }

    pub open spec fn with_buffer(self, channels: u16, readers: usize) -> Result<
        (AudioModel, Buf),
        CompileError,
    > {
        match self.pool.given(channels, readers) {
            Err(error) => Err(error),
            Ok((pool, buf)) => Ok((AudioModel { pool, ..self }, buf)),
        }
    }

    pub open spec fn with_buffer_beside(
        self,
        channels: u16,
        readers: usize,
        avoid: Seq<Buf>,
    ) -> Result<(AudioModel, Buf), CompileError> {
        match self.pool.given_avoiding(channels, readers, avoid) {
            Err(error) => Err(error),
            Ok((pool, buf)) => Ok((AudioModel { pool, ..self }, buf)),
        }
    }

    /// An audio input, converted to the width the socket declares: a mono source
    /// is spread, a wider one averaged. A socket at the right width costs
    /// nothing.
    pub open spec fn with_source(self, index: int) -> Result<
        (AudioModel, Option<(Buf, u32)>),
        CompileError,
    > {
        match self.source(index) {
            None => Ok((self, None)),
            Some((buf, late)) => {
                let want = if index < self.source_widths.len() {
                    self.source_widths[index]
                } else {
                    0
                };
                if want == 0 || self.pool.widths[buf as int] == want {
                    Ok((self, Some((buf, late))))
                } else {
                    match self.consumed(buf).with_buffer_beside(want, 1, seq![buf]) {
                        Err(error) => Err(error),
                        Ok((next, out)) => Ok(
                            (
                                next.emitted(
                                    AudioStep::Gather {
                                        out,
                                        buses: seq![(buf, want)],
                                        folding: Folding::Average,
                                    },
                                ),
                                Some((out, late)),
                            ),
                        ),
                    }
                }
            },
        }
    }

    /// A path delayed so that it lines up with a later one.
    pub open spec fn compensated(self, buf: Buf, samples: u32) -> Result<
        AudioModel,
        CompileError,
    > {
        if self.compensators >= MAX_COMPENSATORS {
            Err(CompileError::TooLarge { what: "compensated paths", limit: MAX_COMPENSATORS })
        } else if samples >= MAX_COMPENSATION {
            Err(
                CompileError::TooLarge {
                    what: "samples of delay compensation",
                    limit: MAX_COMPENSATION,
                },
            )
        } else {
            Ok(
                AudioModel {
                    compensators: (self.compensators + 1) as u16,
                    ..self.emitted(
                        AudioStep::Compensate { buf, slot: self.compensators, samples },
                    )
                },
            )
        }
    }

    /// An audio line's number, given out on its first mention.
    pub open spec fn with_line(self, env: AudioEnv, line: LineId) -> Result<
        (AudioModel, u16),
        CompileError,
    > {
        match line_number_from(self.audio_lines, line, 0) {
            Some(index) => Ok((self, index as u16)),
            None => if self.audio_lines.len() >= MAX_AUDIO_DELAY_LINES {
                Err(
                    CompileError::TooLarge {
                        what: "audio delay lines",
                        limit: MAX_AUDIO_DELAY_LINES,
                    },
                )
            } else {
                Ok(
                    (
                        AudioModel {
                            audio_lines: self.audio_lines.push(line),
                            ring_seconds: self.ring_seconds.push(Real::zeroed()),
                            delay_nodes: self.delay_nodes.push(
                                match line_at(env.lines, line) {
                                    Some(at) => env.lines[at].writer,
                                    None => NO_NODE,
                                },
                            ),
                            ..self
                        },
                        self.audio_lines.len() as u16,
                    ),
                )
            },
        }
    }

    /// A line long enough for the furthest of its reads.
    pub open spec fn wanting_ring(self, index: u16, seconds: Real) -> AudioModel {
        AudioModel {
            ring_seconds: self.ring_seconds.update(
                index as int,
                self.ring_seconds[index as int].larger(
                    seconds.within(Real::zeroed(), Real { bits: MAX_AUDIO_DELAY }),
                ),
            ),
            ..self
        }
    }

    /// The end of a stage: what was held back runs last, and the lines of the
    /// stage that nothing writes are drained.
    pub open spec fn closed(self) -> AudioModel {
        let held = self.ops + self.deferred;
        let ops = held + draining(
            held,
            self.settled_lines as int,
            self.audio_lines.len() as int,
        );
        AudioModel {
            ops,
            deferred: Seq::empty(),
            settled_lines: self.audio_lines.len() as usize,
            spans: self.spans.push(
                Span {
                    start: if self.spans.len() == 0 {
                        0
                    } else {
                        self.spans.last().end
                    },
                    end: ops.len() as u32,
                },
            ),
            ..self
        }
    }

    pub open spec fn wf(self) -> bool {
        &&& self.pool.wf()
        &&& self.compensators <= MAX_COMPENSATORS
        &&& self.audio_lines.len() <= MAX_AUDIO_DELAY_LINES
        &&& self.delay_nodes.len() == self.audio_lines.len()
        &&& self.ring_seconds.len() == self.audio_lines.len()
        &&& self.settled_lines <= self.audio_lines.len()
        &&& forall|i: int|
            0 <= i < self.produced.len() ==> (#[trigger] self.produced[i]).buf
                < self.pool.widths.len()
        &&& forall|i: int|
            0 <= i < self.sources.len() ==> (#[trigger] self.sources[i] matches Some((buf, late))
                ==> buf < self.pool.widths.len())
        &&& forall|i: int|
            0 <= i < self.ops.len() ==> step_fits(#[trigger] self.ops[i], self.pool.widths.len())
        &&& forall|i: int|
            0 <= i < self.deferred.len() ==> step_fits(
                #[trigger] self.deferred[i],
                self.pool.widths.len(),
            )
        &&& forall|i: int|
            0 <= i < self.follows.len() ==> (#[trigger] self.follows[i]).1
                < self.pool.widths.len()
        &&& self.ops.len() <= u32::MAX ==> spans_follow(self.spans, self.ops.len())
    }
}

pub struct AudioCx<'a> {
    pub graph: &'a Graph,
    pub lines: &'a Vec<Line>,
    pub order: &'a Vec<NodeId>,
    pub lanes: &'a Vec<((NodeId, u8), u16)>,
    pub latch_nodes: &'a Vec<NodeId>,
    pub notes: &'a Notes,
    pub id: NodeId,
    pub sources: Vec<Option<(Buf, u32)>>,
    pub source_widths: Vec<u16>,
    pub readers: usize,
    pub out_width: u16,
    pub pool: Pool,
    pub produced: Vec<Produced>,
    pub ops: Vec<AudioOp>,
    pub deferred: Vec<AudioOp>,
    pub instances: Vec<InstanceIo>,
    pub latency: u32,
    pub compensators: u16,
    pub audio_lines: Vec<LineId>,
    pub delay_nodes: Vec<NodeId>,
    pub ring_seconds: Vec<Real>,
    pub follows: Vec<(NodeId, Buf)>,
    pub spans: Vec<Span>,
    pub settled_lines: usize,
}

pub open spec fn instances_of(list: Seq<InstanceIo>) -> Seq<InstanceModel> {
    Seq::new(list.len(), |i: int| list[i]@)
}

impl<'a> View for AudioCx<'a> {
    type V = AudioModel;

    open spec fn view(&self) -> AudioModel {
        AudioModel {
            id: self.id,
            sources: self.sources@,
            source_widths: self.source_widths@,
            readers: self.readers,
            out_width: self.out_width,
            pool: self.pool@,
            produced: self.produced@,
            ops: steps_of(self.ops@),
            deferred: steps_of(self.deferred@),
            instances: instances_of(self.instances@),
            latency: self.latency,
            compensators: self.compensators,
            audio_lines: self.audio_lines@,
            delay_nodes: self.delay_nodes@,
            ring_seconds: self.ring_seconds@,
            follows: self.follows@,
            spans: self.spans@,
            settled_lines: self.settled_lines,
        }
    }
}

/// What came of a step that hands something back.
pub open spec fn stepped<T>(
    spec: Result<(AudioModel, T), CompileError>,
    before: AudioCx,
    after: AudioCx,
    r: Result<T, CompileError>,
) -> bool {
    &&& after.env() == before.env()
    &&& match spec {
        Ok((model, value)) => r == Ok::<T, CompileError>(value) && after@ == model && model.wf(),
        Err(error) => r == Err::<T, CompileError>(error),
    }
}

/// What came of a step that hands nothing back.
pub open spec fn settled(
    spec: Result<AudioModel, CompileError>,
    before: AudioCx,
    after: AudioCx,
    r: Result<(), CompileError>,
) -> bool {
    &&& after.env() == before.env()
    &&& match spec {
        Ok(model) => r == Ok::<(), CompileError>(()) && after@ == model && model.wf(),
        Err(error) => r == Err::<(), CompileError>(error),
    }
}

/// Buffers are only ever added, so what fitted before fits still.
pub proof fn lemma_step_still_fits(step: AudioStep, buffers: nat, more: nat)
    requires
        step_fits(step, buffers),
        buffers <= more,
    ensures
        step_fits(step, more),
{
}

/// Every buffer that was there is there, as wide as it was.
pub open spec fn grows(before: AudioModel, after: AudioModel) -> bool {
    keeps_widths(before.pool, after.pool)
}

proof fn lemma_pool_grows(before: AudioModel, pool: PoolModel)
    requires
        before.wf(),
        pool.wf(),
        before.pool.widths.len() <= pool.widths.len(),
    ensures
        (AudioModel { pool, ..before }).wf(),
{
    let after = AudioModel { pool, ..before };
    assert forall|i: int| 0 <= i < after.ops.len() implies step_fits(
        #[trigger] after.ops[i],
        after.pool.widths.len(),
    ) by {
        lemma_step_still_fits(before.ops[i], before.pool.widths.len(), pool.widths.len());
    }
    assert forall|i: int| 0 <= i < after.deferred.len() implies step_fits(
        #[trigger] after.deferred[i],
        after.pool.widths.len(),
    ) by {
        lemma_step_still_fits(before.deferred[i], before.pool.widths.len(), pool.widths.len());
    }
    assert(after.follows == before.follows);
}

proof fn lemma_emitted_wf(before: AudioModel, op: AudioStep)
    requires
        before.wf(),
        step_fits(op, before.pool.widths.len()),
    ensures
        before.emitted(op).wf(),
{
    let after = before.emitted(op);
    assert forall|i: int| 0 <= i < after.ops.len() implies step_fits(
        #[trigger] after.ops[i],
        after.pool.widths.len(),
    ) by {
        if i < before.ops.len() {
            assert(after.ops[i] == before.ops[i]);
        }
    }
    if after.ops.len() <= u32::MAX {
        assert forall|k: int| 0 <= k < after.spans.len() implies (#[trigger] after.spans[k]).fits(
            after.ops.len(),
        ) by {
            assert(before.spans[k].fits(before.ops.len()));
        }
    }
}

impl<'a> AudioCx<'a> {
    pub open spec fn env(&self) -> AudioEnv {
        AudioEnv {
            links: self.graph.links@,
            lines: self.lines@,
            order: self.order@,
            lanes: self.lanes@,
            latch_nodes: self.latch_nodes@,
            note_outputs: self.notes.outputs@,
        }
    }

    pub fn new(
        graph: &'a Graph,
        lines: &'a Vec<Line>,
        order: &'a Vec<NodeId>,
        lanes: &'a Vec<((NodeId, u8), u16)>,
        latch_nodes: &'a Vec<NodeId>,
        notes: &'a Notes,
    ) -> (r: AudioCx<'a>)
        ensures
            r.env() == (AudioEnv {
                links: graph.links@,
                lines: lines@,
                order: order@,
                lanes: lanes@,
                latch_nodes: latch_nodes@,
                note_outputs: notes.outputs@,
            }),
            r@ == AudioModel::empty(),
            r@.wf(),
    {
        let cx: AudioCx<'a> = AudioCx {
            graph,
            lines,
            order,
            lanes,
            latch_nodes,
            notes,
            id: NO_NODE,
            sources: Vec::new(),
            source_widths: Vec::new(),
            readers: 0,
            out_width: 0,
            pool: Pool::new(),
            produced: Vec::new(),
            ops: Vec::new(),
            deferred: Vec::new(),
            instances: Vec::new(),
            latency: 0,
            compensators: 0,
            audio_lines: Vec::new(),
            delay_nodes: Vec::new(),
            ring_seconds: Vec::new(),
            follows: Vec::new(),
            spans: Vec::new(),
            settled_lines: 0,
        };
        assert(cx@ =~= AudioModel::empty());
        cx
    }

    /// What is wired into an input of a node.
    fn fed_by(&self, node: NodeId, port: u8) -> (r: Option<(Buf, u32)>)
        ensures
            r == fed_by(self.env().links, self@.produced, node, port),
    {
        match self.graph.source_of(node, port) {
            Some((from, from_port)) => {
                let mut at: usize = 0;
                while at < self.produced.len()
                    invariant
                        at <= self.produced@.len(),
                        source(self.graph.links@, node, port) == Some((from, from_port)),
                        produced_from(self.produced@, from, from_port, 0) == produced_from(
                            self.produced@,
                            from,
                            from_port,
                            at as int,
                        ),
                    decreases self.produced@.len() - at,
                {
                    let made: Produced = self.produced[at];
                    if made.node == from && made.port == from_port {
                        return Some((made.buf, made.latency));
                    }
                    at += 1;
                }
                None
            },
            None => None,
        }
    }

    /// How many links leave a node for nodes that run.
    fn count_readers(&self, node: NodeId) -> (r: usize)
        ensures
            r == all_readers(self.env().links, self.env().order, node),
    {
        let ghost read = |link: Link| link.from == node && self.order@.contains(link.to);
        let ghost links = self.graph.links@;
        let mut count: usize = 0;
        let mut at: usize = 0;
        proof {
            reveal(Seq::filter);
            assert(links.take(0) =~= Seq::<Link>::empty());
        }
        while at < self.graph.links.len()
            invariant
                links == self.graph.links@,
                count <= at <= links.len(),
                read == (|link: Link| link.from == node && self.order@.contains(link.to)),
                count == links.take(at as int).filter(read).len(),
            decreases links.len() - at,
        {
            proof {
                reveal(Seq::filter);
                assert(links.take(at + 1).drop_last() =~= links.take(at as int));
                lemma_index_from(self.order@, links[at as int].to, 0);
            }
            let link: Link = self.graph.links[at];
            if link.from == node {
                if position(self.order.as_slice(), link.to).is_some() {
                    count += 1;
                }
            }
            at += 1;
        }
        assert(links.take(at as int) =~= links);
        count
    }

    /// Turns to the next node: looks up what is wired into it, how wide its audio
    /// sockets are, and how many reads its outputs will see.
    pub fn begin(&mut self, id: NodeId, kind: &NodeKind)
        requires
            old(self)@.wf(),
        ensures
            final(self).env() == old(self).env(),
            final(self)@ == old(self)@.begun(old(self).env(), id, *kind),
            final(self)@.wf(),
    {
        let ghost before = self@;
        let ghost env = self.env();
        let ghost inputs = kind.inputs();
        let ports: Vec<Port> = kind.input_ports();
        assert(sockets(ports@).len() == ports@.len());
        let mut sources: Vec<Option<(Buf, u32)>> = Vec::new();
        let mut widths: Vec<u16> = Vec::new();
        let mut at: usize = 0;
        while at < ports.len()
            invariant
                at <= ports@.len(),
                sockets(ports@) == inputs,
                ports@.len() == inputs.len(),
                *self == *old(self),
                before == old(self)@,
                env == old(self).env(),
                before.wf(),
                sources@ == audio_sources(env.links, before.produced, id, inputs, at as nat),
                widths@ == audio_widths(inputs, at as nat),
                forall|i: int|
                    0 <= i < sources@.len() ==> (#[trigger] sources@[i] matches Some((buf, late))
                        ==> buf < before.pool.widths.len()),
            decreases ports@.len() - at,
        {
            assert(inputs[at as int] == ports@[at as int]@);
            if let PortType::Audio { channels } = ports[at].ty {
                let fed: Option<(Buf, u32)> = if at < 256 {
                    proof {
                        if let Some((from, from_port)) = source(env.links, id, at as u8) {
                            lemma_produced_from(before.produced, from, from_port, 0);
                        }
                    }
                    self.fed_by(id, at as u8)
                } else {
                    None
                };
                sources.push(fed);
                widths.push(channels);
            }
            at += 1;
        }
        let readers: usize = self.count_readers(id);
        let outs: Vec<Port> = kind.output_ports();
        assert(sockets(outs@).len() == outs@.len());
        let out_width: u16 = if outs.len() == 0 {
            0
        } else {
            assert(sockets(outs@)[0] == outs@[0]@);
            match outs[0].ty {
                PortType::Audio { channels } => channels,
                _ => 0,
            }
        };
        self.id = id;
        self.sources = sources;
        self.source_widths = widths;
        self.readers = readers;
        self.out_width = out_width;
        proof {
            assert(self@ =~= before.begun(env, id, *kind));
            assert(self@.produced == before.produced);
            assert(self@.ops == before.ops);
            assert(self@.deferred == before.deferred);
            assert(self@.follows == before.follows);
        }
    }

    /// What is wired into the audio input `index`, and how late it is.
    pub fn source(&self, index: usize) -> (r: Option<(Buf, u32)>)
        requires
            self@.wf(),
        ensures
            r == self@.source(index as int),
            r matches Some((buf, late)) ==> buf < self@.pool.widths.len(),
    {
        if index < self.sources.len() {
            assert(self@.sources[index as int] == self.sources@[index as int]);
            self.sources[index]
        } else {
            None
        }
    }

    /// The same, at the width the socket declares.
    pub fn source_at_socket_width(&mut self, index: usize) -> (r: Result<
        Option<(Buf, u32)>,
        CompileError,
    >)
        requires
            old(self)@.wf(),
        ensures
            stepped(old(self)@.with_source(index as int), *old(self), *final(self), r),
            grows(old(self)@, final(self)@),
            r matches Ok(Some((buf, late))) ==> buf < final(self)@.pool.widths.len(),
    {
        let (buf, late): (Buf, u32) = match self.source(index) {
            Some(fed) => fed,
            None => {
                return Ok(None);
            },
        };
        let want: u16 = if index < self.source_widths.len() {
            self.source_widths[index]
        } else {
            0
        };
        if want == 0 || self.pool.width_of(buf) == want {
            return Ok(Some((buf, late)));
        }
        self.consume(buf);
        let mut avoid: Vec<Buf> = Vec::new();
        avoid.push(buf);
        assert(avoid@ =~= seq![buf]);
        let out: Buf = self.allocate_beside(want, 1, avoid.as_slice())?;
        let mut buses: Vec<(Buf, u16)> = Vec::new();
        buses.push((buf, want));
        proof {
            assert(buses@ =~= seq![(buf, want)]);
            assert(widths_of(buses@) =~= seq![want]);
            reveal_with_fuel(total_width, 2);
            assert(occurs(seq![buf], buf as int)) by {
                assert(seq![buf][0] == buf);
            }
        }
        self.emit(AudioOp::Gather { out, buses, folding: Folding::Average });
        Ok(Some((out, late)))
    }

    /// How many links leave one of the node's outputs for nodes that run.
    pub fn readers_of(&self, port: u8) -> (r: usize)
        ensures
            r == reader_count(self.env().links, self.env().order, self@.id, port),
    {
        readers_of(self.graph, self.order.as_slice(), self.id, port)
    }

    /// The lane booked for one of the node's sockets.
    pub fn lane(&self, port: u8) -> (r: Option<u16>)
        ensures
            r == self@.lane(self.env(), port),
    {
        find_key(self.lanes, (self.id, port))
    }

    pub fn notes_in(&self, port: u8) -> (r: Option<u16>)
        ensures
            r == notes_into(self.env().links, self.env().note_outputs, self@.id, port),
    {
        self.notes.source_of(self.graph, self.id, port)
    }

    pub fn allocate(&mut self, channels: u16, readers: usize) -> (r: Result<Buf, CompileError>)
        requires
            old(self)@.wf(),
        ensures
            stepped(old(self)@.with_buffer(channels, readers), *old(self), *final(self), r),
            grows(old(self)@, final(self)@),
            r matches Ok(buf) ==> buf < final(self)@.pool.widths.len()
                && final(self)@.pool.widths[buf as int] == channels,
    {
        let ghost before = self@;
        let got: Result<Buf, CompileError> = self.pool.allocate(channels, readers);
        proof {
            lemma_pool_grows(before, self.pool@);
            assert(self@ =~= (AudioModel { pool: self.pool@, ..before }));
        }
        got
    }

    /// Hands out a buffer that is none of those in `avoid`.
    pub fn allocate_beside(&mut self, channels: u16, readers: usize, avoid: &[Buf]) -> (r: Result<
        Buf,
        CompileError,
    >)
        requires
            old(self)@.wf(),
            forall|k: int|
                0 <= k < avoid@.len() ==> #[trigger] avoid@[k] < old(self)@.pool.widths.len(),
        ensures
            stepped(
                old(self)@.with_buffer_beside(channels, readers, avoid@),
                *old(self),
                *final(self),
                r,
            ),
            grows(old(self)@, final(self)@),
            r matches Ok(buf) ==> buf < final(self)@.pool.widths.len()
                && final(self)@.pool.widths[buf as int] == channels && !occurs(
                avoid@,
                buf as int,
            ),
    {
        let ghost before = self@;
        let got: Result<Buf, CompileError> = self.pool.alloc_avoiding(channels, readers, avoid);
        proof {
            lemma_pool_grows(before, self.pool@);
            assert(self@ =~= (AudioModel { pool: self.pool@, ..before }));
        }
        got
    }

    pub fn width_of(&self, buf: Buf) -> (r: u16)
        requires
            buf < self@.pool.widths.len(),
        ensures
            r == self@.pool.widths[buf as int],
    {
        self.pool.width_of(buf)
    }

    /// One read of a buffer is done.
    pub fn consume(&mut self, buf: Buf)
        requires
            old(self)@.wf(),
            buf < old(self)@.pool.widths.len(),
        ensures
            final(self).env() == old(self).env(),
            final(self)@ == old(self)@.consumed(buf),
            final(self)@.wf(),
            final(self)@.pool.widths == old(self)@.pool.widths,
    {
        let ghost before = self@;
        self.pool.consume(buf);
        proof {
            lemma_pool_grows(before, self.pool@);
            assert(self@ =~= before.consumed(buf));
        }
    }

    pub fn emit(&mut self, op: AudioOp)
        requires
            old(self)@.wf(),
            step_fits(op@, old(self)@.pool.widths.len()),
        ensures
            final(self).env() == old(self).env(),
            final(self)@ == old(self)@.emitted(op@),
            final(self)@.wf(),
            final(self)@.pool == old(self)@.pool,
    {
        let ghost before = self@;
        self.ops.push(op);
        proof {
            assert(self@.ops =~= before.ops.push(op@));
            assert(self@ =~= before.emitted(op@));
            lemma_emitted_wf(before, op@);
        }
    }

    /// Holds an operation back to the end of the stage.
    pub fn emit_deferred(&mut self, op: AudioOp)
        requires
            old(self)@.wf(),
            step_fits(op@, old(self)@.pool.widths.len()),
        ensures
            final(self).env() == old(self).env(),
            final(self)@ == old(self)@.held_back(op@),
            final(self)@.wf(),
    {
        let ghost before = self@;
        self.deferred.push(op);
        proof {
            assert(self@.deferred =~= before.deferred.push(op@));
            assert(self@ =~= before.held_back(op@));
            assert forall|i: int| 0 <= i < self@.deferred.len() implies step_fits(
                #[trigger] self@.deferred[i],
                self@.pool.widths.len(),
            ) by {
                if i < before.deferred.len() {
                    assert(self@.deferred[i] == before.deferred[i]);
                }
            }
        }
    }

    /// Says what the node leaves on an output socket, and how late it is.
    pub fn produce(&mut self, port: u8, buf: Buf, latency: u32)
        requires
            old(self)@.wf(),
            buf < old(self)@.pool.widths.len(),
        ensures
            final(self).env() == old(self).env(),
            final(self)@ == old(self)@.producing(port, buf, latency),
            final(self)@.wf(),
    {
        let ghost before = self@;
        self.produced.push(Produced { node: self.id, port, buf, latency });
        assert(self@ =~= before.producing(port, buf, latency));
        assert(self@.ops == before.ops);
        assert(self@.follows == before.follows);
    }

    /// Reports a path that reaches the host.
    pub fn report_latency(&mut self, latency: u32)
        requires
            old(self)@.wf(),
        ensures
            final(self).env() == old(self).env(),
            final(self)@ == (AudioModel {
                latency: if latency > old(self)@.latency {
                    latency
                } else {
                    old(self)@.latency
                },
                ..old(self)@
            }),
            final(self)@.wf(),
    {
        let ghost before = self@;
        if latency > self.latency {
            self.latency = latency;
        }
        assert(self@.ops == before.ops);
        assert(self@.follows == before.follows);
        assert(self@.produced == before.produced);
    }

    /// Delays one path of a merge so that it lines up with the latest one.
    pub fn compensate(&mut self, buf: Buf, samples: u32) -> (r: Result<(), CompileError>)
        requires
            old(self)@.wf(),
            buf < old(self)@.pool.widths.len(),
        ensures
            settled(old(self)@.compensated(buf, samples), *old(self), *final(self), r),
            final(self)@.pool == old(self)@.pool,
    {
        if self.compensators as usize >= MAX_COMPENSATORS {
            return Err(
                CompileError::TooLarge { what: "compensated paths", limit: MAX_COMPENSATORS },
            );
        }
        if samples as usize >= MAX_COMPENSATION {
            return Err(
                CompileError::TooLarge {
                    what: "samples of delay compensation",
                    limit: MAX_COMPENSATION,
                },
            );
        }
        let slot: u16 = self.compensators;
        self.emit(AudioOp::Compensate { buf, slot, samples });
        let ghost emitted = self@;
        self.compensators = self.compensators + 1;
        proof {
            assert(self@ =~= old(self)@.compensated(buf, samples)->Ok_0);
            assert(self@.ops == emitted.ops);
            assert(self@.follows == emitted.follows);
            assert(self@.produced == emitted.produced);
        }
        Ok(())
    }

    /// Says which buses of a plugin the program uses.
    pub fn declare_instance(&mut self, io: InstanceIo)
        requires
            old(self)@.wf(),
        ensures
            final(self).env() == old(self).env(),
            final(self)@ == (AudioModel {
                instances: old(self)@.instances.push(io@),
                ..old(self)@
            }),
            final(self)@.wf(),
    {
        let ghost before = self@;
        self.instances.push(io);
        assert(self@.instances =~= before.instances.push(io@));
        assert(self@.ops == before.ops);
        assert(self@.follows == before.follows);
        assert(self@.produced == before.produced);
    }

    /// The number of an audio line, given out on its first mention. The node that
    /// writes it stands at the same index, which is what lets a change of program
    /// keep the contents.
    pub fn audio_line(&mut self, line: LineId) -> (r: Result<u16, CompileError>)
        requires
            old(self)@.wf(),
        ensures
            stepped(old(self)@.with_line(old(self).env(), line), *old(self), *final(self), r),
            final(self)@.pool == old(self)@.pool,
            r matches Ok(index) ==> index < final(self)@.audio_lines.len(),
    {
        let ghost before = self@;
        proof {
            lemma_line_number_from(before.audio_lines, line, 0);
        }
        let mut at: usize = 0;
        while at < self.audio_lines.len()
            invariant
                at <= self.audio_lines@.len() <= MAX_AUDIO_DELAY_LINES,
                *self == *old(self),
                before == old(self)@,
                before.wf(),
                line_number_from(self.audio_lines@, line, 0) == line_number_from(
                    self.audio_lines@,
                    line,
                    at as int,
                ),
            decreases self.audio_lines@.len() - at,
        {
            if self.audio_lines[at] == line {
                return Ok(at as u16);
            }
            at += 1;
        }
        if self.audio_lines.len() >= MAX_AUDIO_DELAY_LINES {
            return Err(
                CompileError::TooLarge {
                    what: "audio delay lines",
                    limit: MAX_AUDIO_DELAY_LINES,
                },
            );
        }
        let writer: NodeId = match find_line(self.lines.as_slice(), line) {
            Some(i) => self.lines[i].writer,
            None => NO_NODE,
        };
        self.audio_lines.push(line);
        self.ring_seconds.push(Real::zero());
        self.delay_nodes.push(writer);
        proof {
            assert(self@ =~= (before.with_line(old(self).env(), line)->Ok_0).0);
            assert(self@.ops == before.ops);
            assert(self@.follows == before.follows);
            assert(self@.produced == before.produced);
        }
        Ok((self.audio_lines.len() - 1) as u16)
    }

    /// Asks that a line be long enough for `seconds`.
    pub fn want_ring(&mut self, index: u16, seconds: Real)
        requires
            old(self)@.wf(),
            index < old(self)@.audio_lines.len(),
        ensures
            final(self).env() == old(self).env(),
            final(self)@ == old(self)@.wanting_ring(index, seconds),
            final(self)@.wf(),
            final(self)@.pool == old(self)@.pool,
    {
        let ghost before = self@;
        let asked: Real = seconds.clamp(Real::zero(), Real { bits: MAX_AUDIO_DELAY });
        let longest: Real = self.ring_seconds[index as usize].max(asked);
        self.ring_seconds.set(index as usize, longest);
        assert(self@ =~= before.wanting_ring(index, seconds));
        assert(self@.ops == before.ops);
        assert(self@.follows == before.follows);
        assert(self@.produced == before.produced);
    }

    /// Says which buffer the node reads a level off. It is never given back: the
    /// level is read after the audio of the stage has run.
    pub fn follow(&mut self, buf: Buf)
        requires
            old(self)@.wf(),
            buf < old(self)@.pool.widths.len(),
        ensures
            final(self).env() == old(self).env(),
            final(self)@ == (AudioModel {
                follows: old(self)@.follows.push((old(self)@.id, buf)),
                ..old(self)@
            }),
            final(self)@.wf(),
    {
        let ghost before = self@;
        self.follows.push((self.id, buf));
        assert(self@.ops == before.ops);
        assert(self@.produced == before.produced);
    }
}

/// The audio half of a program.
pub struct Audio {
    pub ops: Vec<AudioOp>,
    pub spans: Vec<Span>,
    pub delay_nodes: Vec<NodeId>,
    pub ring_seconds: Vec<Real>,
    pub buffers: Vec<u16>,
    pub latency: u32,
    pub instances: Vec<InstanceIo>,
    pub follows: Vec<(NodeId, Buf)>,
}

/// A list with one more instance, behind everything that does not come after it.
pub open spec fn instance_inserted(list: Seq<InstanceModel>, io: InstanceModel) -> Seq<
    InstanceModel,
>
    decreases list.len(),
{
    if list.len() == 0 || list.last().instance <= io.instance {
        list.push(io)
    } else {
        instance_inserted(list.drop_last(), io).push(list.last())
    }
}

/// The instances in ascending order of their numbers.
pub open spec fn instances_sorted(list: Seq<InstanceModel>) -> Seq<InstanceModel>
    decreases list.len(),
{
    if list.len() == 0 {
        Seq::empty()
    } else {
        instance_inserted(instances_sorted(list.drop_last()), list.last())
    }
}

proof fn lemma_instance_inserted(list: Seq<InstanceModel>, io: InstanceModel, at: int)
    requires
        0 <= at <= list.len(),
        forall|j: int| at <= j < list.len() ==> (#[trigger] list[j]).instance > io.instance,
        at > 0 ==> list[at - 1].instance <= io.instance,
    ensures
        instance_inserted(list, io) == list.insert(at, io),
    decreases list.len(),
{
    if at == list.len() {
        assert(list.insert(at, io) =~= list.push(io));
    } else {
        lemma_instance_inserted(list.drop_last(), io, at);
        assert(list.insert(at, io) =~= list.drop_last().insert(at, io).push(list.last()));
    }
}

/// Puts the instances in order.
fn sort_instances(list: &mut Vec<InstanceIo>)
    ensures
        instances_of(final(list)@) == instances_sorted(instances_of(old(list)@)),
{
    let ghost before = instances_of(list@);
    let mut sorted: Vec<InstanceIo> = Vec::new();
    let ghost mut done: int = 0;
    assert(before.take(0) =~= Seq::<InstanceModel>::empty());
    assert(instances_of(sorted@) =~= Seq::<InstanceModel>::empty());
    while list.len() > 0
        invariant
            0 <= done <= before.len(),
            list@.len() == before.len() - done,
            instances_of(list@) == before.skip(done),
            instances_of(sorted@) == instances_sorted(before.take(done)),
        decreases list@.len(),
    {
        let ghost rest = list@;
        let io: InstanceIo = list.remove(0);
        proof {
            assert(instances_of(rest)[0] == before.skip(done)[0]);
            assert(io@ == before[done]);
            assert(instances_of(list@) =~= instances_of(rest).skip(1));
            assert(before.skip(done).skip(1) =~= before.skip(done + 1));
            assert(before.take(done + 1).drop_last() =~= before.take(done));
        }
        let ghost was = sorted@;
        let mut place: usize = sorted.len();
        while place > 0 && sorted[place - 1].instance > io.instance
            invariant
                place <= sorted@.len(),
                sorted@ == was,
                forall|j: int|
                    place <= j < sorted@.len() ==> (#[trigger] instances_of(was)[j]).instance
                        > io@.instance,
            decreases place,
        {
            place -= 1;
        }
        proof {
            if place > 0 {
                assert(instances_of(was)[place - 1] == was[place - 1]@);
            }
            lemma_instance_inserted(instances_of(was), io@, place as int);
        }
        sorted.insert(place, io);
        assert(instances_of(sorted@) =~= instances_of(was).insert(place as int, io@));
        proof {
            done = done + 1;
        }
    }
    assert(before.take(done) =~= before);
    *list = sorted;
}

proof fn lemma_draining(ops: Seq<AudioStep>, from: int, to: int)
    requires
        0 <= from <= to <= MAX_AUDIO_DELAY_LINES,
    ensures
        forall|i: int|
            0 <= i < draining(ops, from, to).len() ==> (#[trigger] draining(ops, from, to)[i] matches AudioStep::DelaySilence {
                line,
            } && line < MAX_AUDIO_DELAY_LINES),
    decreases to - from,
{
    if from < to {
        lemma_draining(ops, from, to - 1);
    }
}

proof fn lemma_closed_wf(before: AudioModel)
    requires
        before.wf(),
    ensures
        before.closed().wf(),
{
    let after = before.closed();
    let held = before.ops + before.deferred;
    let drained = draining(held, before.settled_lines as int, before.audio_lines.len() as int);
    lemma_draining(held, before.settled_lines as int, before.audio_lines.len() as int);
    assert forall|i: int| 0 <= i < after.ops.len() implies step_fits(
        #[trigger] after.ops[i],
        after.pool.widths.len(),
    ) by {
        if i < before.ops.len() {
            assert(after.ops[i] == before.ops[i]);
        } else if i < held.len() {
            assert(after.ops[i] == before.deferred[i - before.ops.len()]);
        } else {
            assert(after.ops[i] == drained[i - held.len()]);
        }
    }
    if after.ops.len() <= u32::MAX {
        lemma_spans_follow(before.spans, before.ops.len(), after.ops.len());
    }
    assert(after.follows == before.follows);
    assert(after.produced == before.produced);
    assert(after.sources == before.sources);
}

impl<'a> AudioCx<'a> {
    /// Whether an operation writes a line.
    fn is_written(&self, index: u16) -> (r: bool)
        ensures
            r == line_written(self@.ops, index as int),
    {
        let mut at: usize = 0;
        while at < self.ops.len()
            invariant
                at <= self.ops@.len(),
                forall|i: int|
                    0 <= i < at ==> !(#[trigger] self@.ops[i] matches AudioStep::DelayWrite {
                        line: to,
                        ..
                    } && to == index),
            decreases self.ops@.len() - at,
        {
            assert(self@.ops[at as int] == self.ops@[at as int]@);
            if let AudioOp::DelayWrite { line, .. } = &self.ops[at] {
                if *line == index {
                    return true;
                }
            }
            at += 1;
        }
        false
    }

    /// Ends a stage.
    pub fn close_stage(&mut self)
        requires
            old(self)@.wf(),
        ensures
            final(self).env() == old(self).env(),
            final(self)@ == old(self)@.closed(),
            final(self)@.wf(),
    {
        let ghost before = self@;
        let ghost env = self.env();
        let start: u32 = if self.spans.len() == 0 {
            0
        } else {
            self.spans[self.spans.len() - 1].end
        };
        let ghost first_ops = self.ops@;
        let ghost first_deferred = self.deferred@;
        let mut held: Vec<AudioOp> = Vec::new();
        std::mem::swap(&mut held, &mut self.deferred);
        self.ops.append(&mut held);
        let ghost joined = before.ops + before.deferred;
        proof {
            assert(self.ops@ == first_ops + first_deferred);
            assert(self@.ops =~= joined);
            assert(self@.deferred =~= Seq::<AudioStep>::empty());
        }
        let mut index: usize = self.settled_lines;
        let ghost mut drained: Seq<AudioStep> = Seq::empty();
        while index < self.audio_lines.len()
            invariant
                before.wf(),
                before.settled_lines <= index <= self.audio_lines@.len(),
                self.audio_lines@ == before.audio_lines,
                self.env() == env,
                self@ == (AudioModel {
                    ops: joined + drained,
                    deferred: Seq::empty(),
                    ..before
                }),
                drained == draining(joined, before.settled_lines as int, index as int),
                forall|i: int|
                    0 <= i < drained.len() ==> #[trigger] drained[i] is DelaySilence,
            decreases self.audio_lines@.len() - index,
        {
            let written: bool = self.is_written(index as u16);
            proof {
                assert(written == line_written(joined, index as int)) by {
                    if line_written(joined, index as int) {
                        let i = choose|i: int|
                            0 <= i < joined.len() && (#[trigger] joined[i] matches AudioStep::DelayWrite {
                                line: to,
                                ..
                            } && to == index);
                        assert((joined + drained)[i] == joined[i]);
                        assert(self@.ops[i] == joined[i]);
                    }
                    if line_written(self@.ops, index as int) {
                        let i = choose|i: int|
                            0 <= i < self@.ops.len() && (#[trigger] self@.ops[i] matches AudioStep::DelayWrite {
                                line: to,
                                ..
                            } && to == index);
                        if i >= joined.len() {
                            assert(self@.ops[i] == drained[i - joined.len()]);
                        } else {
                            assert(joined[i] == self@.ops[i]);
                        }
                    }
                }
            }
            if !written {
                let ghost ops = self@.ops;
                self.ops.push(AudioOp::DelaySilence { line: index as u16 });
                proof {
                    drained = drained.push(AudioStep::DelaySilence { line: index as u16 });
                    assert(self@.ops =~= ops.push(AudioStep::DelaySilence { line: index as u16 }));
                    assert(self@.ops =~= joined + drained);
                    assert(self@ =~= (AudioModel {
                        ops: joined + drained,
                        deferred: Seq::empty(),
                        ..before
                    }));
                }
            }
            index += 1;
        }
        self.settled_lines = self.audio_lines.len();
        let end: u32 = #[verifier::truncate]
        (self.ops.len() as u32);
        self.spans.push(Span { start, end });
        proof {
            assert(self@.ops.len() == self.ops@.len());
            assert(self@ =~= before.closed());
            lemma_closed_wf(before);
        }
    }

    /// Everything compiled, the instances in order.
    pub fn finish(self) -> (r: Audio)
        requires
            self@.wf(),
        ensures
            steps_of(r.ops@) == self@.ops,
            r.spans@ == self@.spans,
            r.delay_nodes@ == self@.delay_nodes,
            r.ring_seconds@ == self@.ring_seconds,
            r.buffers@ == self@.pool.widths,
            r.latency == self@.latency,
            instances_of(r.instances@) == instances_sorted(self@.instances),
            r.follows@ == self@.follows,
    {
        let mut instances: Vec<InstanceIo> = self.instances;
        sort_instances(&mut instances);
        Audio {
            ops: self.ops,
            spans: self.spans,
            delay_nodes: self.delay_nodes,
            ring_seconds: self.ring_seconds,
            buffers: self.pool.widths,
            latency: self.latency,
            instances,
            follows: self.follows,
        }
    }
}

} // verus!
