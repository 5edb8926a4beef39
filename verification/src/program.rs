//! A compiled program as a whole: what it holds, and what makes it safe to run.
use vstd::prelude::*;
use crate::audio_cx::{instances_of, step_fits};
use crate::ir::{
    steps_of, AudioStep, InstanceModel, NodeId, NoteOp, NoteStream, Op, ParamTarget,
    Program, Reg, Stage, MAX_AUDIO_DELAY_LINES, MAX_BUFFERS, MAX_BUFFER_CHANNELS,
    MAX_CHANNELS, MAX_DELAY_LINES, MAX_LATCHES, MAX_LFOS, MAX_NOTE_BUFS, MAX_REGISTERS,
};
use crate::note_state::{distinct_streams, note_op_fits};
use crate::number::{Real, Sample};
use crate::param_cx::op_fits;

verus! {

#[verifier::ext_equal]
pub struct ProgramModel {
    pub ops: Seq<Op>,
    pub registers: usize,
    pub outputs: Seq<(u16, Reg)>,
    pub audio_ops: Seq<AudioStep>,
    pub note_ops: Seq<NoteOp>,
    pub note_bufs: u16,
    pub note_streams: Seq<NoteStream>,
    pub param_targets: Seq<ParamTarget>,
    pub audio_lane_base: u16,
    pub instances: Seq<InstanceModel>,
    pub buffers: Seq<u16>,
    pub stages: Seq<Stage>,
    pub latency: u32,
    pub delay_nodes: Seq<NodeId>,
    pub audio_delay_nodes: Seq<NodeId>,
    pub audio_ring_seconds: Seq<Real>,
    pub audio_ring_len: Seq<usize>,
    pub audio_rings: Seq<Seq<Sample>>,
    pub lfo_nodes: Seq<NodeId>,
    pub latch_nodes: Seq<NodeId>,
}

pub open spec fn rings_of(rings: Seq<Vec<Sample>>) -> Seq<Seq<Sample>> {
    Seq::new(rings.len(), |i: int| rings[i]@)
}

impl View for Program {
    type V = ProgramModel;

    open spec fn view(&self) -> ProgramModel {
        ProgramModel {
            ops: self.ops@,
            registers: self.registers,
            outputs: self.outputs@,
            audio_ops: steps_of(self.audio_ops@),
            note_ops: self.note_ops@,
            note_bufs: self.note_bufs,
            note_streams: self.note_streams@,
            param_targets: self.param_targets@,
            audio_lane_base: self.audio_lane_base,
            instances: instances_of(self.instances@),
            buffers: self.buffers@,
            stages: self.stages@,
            latency: self.latency,
            delay_nodes: self.delay_nodes@,
            audio_delay_nodes: self.audio_delay_nodes@,
            audio_ring_seconds: self.audio_ring_seconds@,
            audio_ring_len: self.audio_ring_len@,
            audio_rings: rings_of(self.audio_rings@),
            lfo_nodes: self.lfo_nodes@,
            latch_nodes: self.latch_nodes@,
        }
    }
}

impl ProgramModel {
    pub open spec fn empty() -> ProgramModel {
        ProgramModel {
            ops: Seq::empty(),
            registers: 0,
            outputs: Seq::empty(),
            audio_ops: Seq::empty(),
            note_ops: Seq::empty(),
            note_bufs: 0,
            note_streams: Seq::empty(),
            param_targets: Seq::empty(),
            audio_lane_base: 0,
            instances: Seq::empty(),
            buffers: Seq::empty(),
            stages: Seq::empty(),
            latency: 0,
            delay_nodes: Seq::empty(),
            audio_delay_nodes: Seq::empty(),
            audio_ring_seconds: Seq::empty(),
            audio_ring_len: Seq::empty(),
            audio_rings: Seq::empty(),
            lfo_nodes: Seq::empty(),
            latch_nodes: Seq::empty(),
        }
    }

    /// Every operation names registers, states, buffers and lines that the
    /// engine has, and every stage a run of operations that is there.
    pub open spec fn fits(self) -> bool {
        &&& self.lfo_nodes.len() <= MAX_LFOS
        &&& self.latch_nodes.len() <= MAX_LATCHES
        &&& self.delay_nodes.len() <= MAX_DELAY_LINES
        &&& self.audio_delay_nodes.len() <= MAX_AUDIO_DELAY_LINES
        &&& self.buffers.len() <= MAX_BUFFERS
        &&& forall|i: int|
            0 <= i < self.buffers.len() ==> #[trigger] self.buffers[i] <= MAX_BUFFER_CHANNELS
        &&& forall|i: int| 0 <= i < self.ops.len() ==> op_fits(#[trigger] self.ops[i])
        &&& forall|i: int|
            0 <= i < self.outputs.len() ==> (#[trigger] self.outputs[i]).1 < MAX_REGISTERS
        &&& forall|i: int|
            0 <= i < self.note_ops.len() ==> note_op_fits(#[trigger] self.note_ops[i])
        &&& self.note_streams.len() <= MAX_NOTE_BUFS
        &&& distinct_streams(self.note_streams)
        &&& forall|i: int|
            0 <= i < self.note_streams.len() ==> ((
            #[trigger] self.note_streams[i]).source matches Some(source) ==> source
                < MAX_NOTE_BUFS)
        &&& forall|i: int|
            0 <= i < self.audio_ring_len.len() ==> MAX_CHANNELS * (#[trigger] self.audio_ring_len[i])
                <= usize::MAX
        &&& forall|i: int|
            0 <= i < self.audio_ops.len() ==> step_fits(
                #[trigger] self.audio_ops[i],
                self.buffers.len(),
            )
        &&& forall|i: int|
            0 <= i < self.stages.len() ==> {
                &&& (#[trigger] self.stages[i]).params.fits(self.ops.len())
                &&& self.stages[i].notes.fits(self.note_ops.len())
                &&& self.stages[i].audio.fits(self.audio_ops.len())
            }
    }

    /// Whether there is nothing to run.
    pub open spec fn idle(self) -> bool {
        self.ops.len() == 0 && self.audio_ops.len() == 0 && self.note_ops.len() == 0
    }

    /// Whether the program writes a lane.
    pub open spec fn drives(self, lane: int) -> bool {
        exists|i: int| 0 <= i < self.outputs.len() && (#[trigger] self.outputs[i]).0 == lane
    }
}

impl Program {
    pub fn empty() -> (r: Program)
        ensures
            r@ == ProgramModel::empty(),
            r@.fits(),
    {
        let program: Program = Program {
            ops: Vec::new(),
            registers: 0,
            outputs: Vec::new(),
            audio_ops: Vec::new(),
            note_ops: Vec::new(),
            note_bufs: 0,
            note_streams: Vec::new(),
            param_targets: Vec::new(),
            audio_lane_base: 0,
            instances: Vec::new(),
            buffers: Vec::new(),
            stages: Vec::new(),
            latency: 0,
            delay_nodes: Vec::new(),
            audio_delay_nodes: Vec::new(),
            audio_ring_seconds: Vec::new(),
            audio_ring_len: Vec::new(),
            audio_rings: Vec::new(),
            lfo_nodes: Vec::new(),
            latch_nodes: Vec::new(),
        };
        assert(program@ =~= ProgramModel::empty());
        program
    }

    pub fn is_empty(&self) -> (r: bool)
        ensures
            r == self@.idle(),
    {
        self.ops.len() == 0 && self.audio_ops.len() == 0 && self.note_ops.len() == 0
    }

    /// Whether the program writes a lane, which the DAW's value then gives way
    /// to.
    pub fn drives_lane(&self, lane: usize) -> (r: bool)
        ensures
            r == self@.drives(lane as int),
    {
        let mut at: usize = 0;
        while at < self.outputs.len()
            invariant
                at <= self.outputs@.len(),
                forall|i: int| 0 <= i < at ==> (#[trigger] self.outputs@[i]).0 != lane,
            decreases self.outputs@.len() - at,
        {
            if self.outputs[at].0 as usize == lane {
                assert(self@.outputs[at as int].0 == lane);
                return true;
            }
            at += 1;
        }
        false
    }
}

/// What a line was sized at, so that a program that asks for the same again
/// brings no ring along.
#[derive(Debug, Clone, Copy, PartialEq, Eq, Structural)]
pub struct SizedLine {
    pub node: NodeId,
    pub len: usize,
}

pub open spec fn sized(nodes: Seq<NodeId>, lens: Seq<usize>) -> Seq<SizedLine> {
    Seq::new(nodes.len(), |i: int| SizedLine { node: nodes[i], len: asked_for(lens, i) })
}

pub open spec fn asked_for(lens: Seq<usize>, i: int) -> usize {
    if i < lens.len() {
        lens[i]
    } else {
        0
    }
}

impl Program {
    /// Brings rings along for the audio delay lines that were not of this length
    /// before. Says what every line is sized at now. `lens` is how many samples a
    /// channel of each line has to hold.
    pub fn size_rings(&mut self, lens: &[usize], before: &[SizedLine]) -> (r: Vec<SizedLine>)
        requires
            forall|i: int|
                0 <= i < lens@.len() ==> MAX_CHANNELS * (#[trigger] lens@[i]) <= usize::MAX,
        ensures
            r@ == sized(old(self).audio_delay_nodes@, lens@),
            final(self)@ == (ProgramModel {
                audio_ring_len: Seq::new(
                    old(self).audio_delay_nodes@.len(),
                    |i: int| asked_for(lens@, i),
                ),
                audio_rings: Seq::new(
                    old(self).audio_delay_nodes@.len(),
                    |i: int|
                        if before@.contains(sized(old(self).audio_delay_nodes@, lens@)[i]) {
                            Seq::empty()
                        } else {
                            Seq::new(
                                (MAX_CHANNELS * asked_for(lens@, i)) as nat,
                                |k: int| Sample::silent(),
                            )
                        },
                ),
                ..old(self)@
            }),
            old(self)@.fits() ==> final(self)@.fits(),
    {
        let ghost model = self@;
        let ghost nodes = self.audio_delay_nodes@;
        let ghost want = sized(nodes, lens@);
        let mut now: Vec<SizedLine> = Vec::new();
        let mut ring_lens: Vec<usize> = Vec::new();
        let mut rings: Vec<Vec<Sample>> = Vec::new();
        while now.len() < self.audio_delay_nodes.len()
            invariant
                nodes == self.audio_delay_nodes@,
                want == sized(nodes, lens@),
                self@ == model,
                now@.len() == ring_lens@.len() == rings@.len() <= nodes.len(),
                now@ == want.take(now@.len() as int),
                forall|i: int|
                    0 <= i < lens@.len() ==> MAX_CHANNELS * (#[trigger] lens@[i]) <= usize::MAX,
                forall|i: int|
                    0 <= i < ring_lens@.len() ==> #[trigger] ring_lens@[i] == asked_for(lens@, i),
                forall|i: int|
                    0 <= i < rings@.len() ==> (#[trigger] rings@[i])@ == if before@.contains(
                        want[i],
                    ) {
                        Seq::empty()
                    } else {
                        Seq::new(
                            (MAX_CHANNELS * asked_for(lens@, i)) as nat,
                            |k: int| Sample::silent(),
                        )
                    },
            decreases nodes.len() - now@.len(),
        {
            let at: usize = now.len();
            let len: usize = if at < lens.len() {
                lens[at]
            } else {
                0
            };
            let line: SizedLine = SizedLine { node: self.audio_delay_nodes[at], len };
            assert(line == want[at as int]);
            let ring: Vec<Sample> = if is_among(before, line) {
                Vec::new()
            } else {
                vec![Sample::silence(); MAX_CHANNELS * len]
            };
            proof {
                if before@.contains(line) {
                    assert(ring@ =~= Seq::empty());
                } else {
                    assert(ring@ =~= Seq::new(
                        (MAX_CHANNELS * asked_for(lens@, at as int)) as nat,
                        |k: int| Sample::silent(),
                    ));
                }
            }
            now.push(line);
            ring_lens.push(len);
            rings.push(ring);
            assert(now@ =~= want.take(now@.len() as int));
        }
        self.audio_ring_len = ring_lens;
        self.audio_rings = rings;
        proof {
            assert(now@ =~= want);
            assert(rings_of(self.audio_rings@) =~= Seq::new(
                nodes.len(),
                |i: int|
                    if before@.contains(want[i]) {
                        Seq::empty()
                    } else {
                        Seq::new(
                            (MAX_CHANNELS * asked_for(lens@, i)) as nat,
                            |k: int| Sample::silent(),
                        )
                    },
            ));
            assert(self@.ops == model.ops);
            assert(self@.audio_ops == model.audio_ops);
            assert(self@.stages == model.stages);
            assert(self@.buffers == model.buffers);
            assert(self@.outputs == model.outputs);
            assert(self@.note_ops == model.note_ops);
            assert(self@.note_streams == model.note_streams);
        }
        now
    }
}

fn is_among(list: &[SizedLine], line: SizedLine) -> (r: bool)
    ensures
        r == list@.contains(line),
{
    let mut at: usize = 0;
    while at < list.len()
        invariant
            at <= list@.len(),
            forall|i: int| 0 <= i < at ==> #[trigger] list@[i] != line,
        decreases list@.len() - at,
    {
        if list[at] == line {
            assert(list@[at as int] == line);
            return true;
        }
        at += 1;
    }
    false
}

} // verus!
