//! What a node is handed to compile its parameter half with.
//!
//! Registers, states and lanes are numbered in the order they are asked for.
use vstd::prelude::*;
use crate::declare::{find_line, line_at, Line};
use crate::error::CompileError;
use crate::graph::{source, Graph, Link};
use crate::ir::{
    LineId, NodeId, Op, Operand, ParamTarget, Reg, Span, MAX_AUDIO_LANES, MAX_GRAPH_PARAMS,
    MAX_LATCHES, MAX_LFOS, MAX_REGISTERS, NO_NODE,
};
use crate::note_half::{notes_into, Notes, OUTPUT_SOCKET};
use crate::number::Real;
use crate::tables::{find_key, lemma_lookup_from, lookup};

verus! {

/// Whether an operation reads a register.
pub open spec fn reads(op: Op, reg: Reg) -> bool {
    match op {
        Op::Math { a, b, .. } => a == reg || b == Operand::Reg(reg),
        Op::Range { a, .. } => a == reg,
        Op::Select { control, low, high, .. } => control == reg || low == Operand::Reg(reg) || high
            == Operand::Reg(reg),
        Op::DelayRead { time_reg, .. } => time_reg == Some(reg),
        Op::DelayWrite { a, .. } => a == reg,
        _ => false,
    }
}

/// The register an operation writes, if it writes one.
pub open spec fn writes(op: Op) -> Option<Reg> {
    match op {
        Op::Const { out, .. } => Some(out),
        Op::Slot { out, .. } => Some(out),
        Op::Lfo { out, .. } => Some(out),
        Op::Math { out, .. } => Some(out),
        Op::Range { out, .. } => Some(out),
        Op::Select { out, .. } => Some(out),
        Op::DelayRead { out, .. } => Some(out),
        Op::DelayWrite { .. } => None,
        Op::KeyHeld { out, .. } => Some(out),
        Op::Follow { out, .. } => Some(out),
        Op::NoteFollow { out, .. } => Some(out),
        Op::KeyStep { .. } => None,
        Op::KeyLatch { .. } => None,
        Op::LatchIs { out, .. } => Some(out),
        Op::NoteCc { out, .. } => Some(out),
        Op::Latch { out, .. } => Some(out),
    }
}

/// The state an operation keeps is one there is room for.
pub open spec fn state_fits(op: Op) -> bool {
    match op {
        Op::Lfo { state, .. } => state < MAX_LFOS,
        Op::Follow { state, .. } => state < MAX_LATCHES,
        Op::NoteFollow { state, .. } => state < MAX_LATCHES,
        Op::KeyStep { state, .. } => state < MAX_LATCHES,
        Op::KeyLatch { state, .. } => state < MAX_LATCHES,
        Op::LatchIs { state, .. } => state < MAX_LATCHES,
        Op::NoteCc { state, .. } => state < MAX_LATCHES,
        Op::Latch { state, .. } => state < MAX_LATCHES,
        _ => true,
    }
}

/// An operation names registers and states that exist.
pub open spec fn op_fits(op: Op) -> bool {
    &&& forall|reg: Reg| #[trigger] reads(op, reg) ==> reg < MAX_REGISTERS
    &&& writes(op) matches Some(out) ==> out < MAX_REGISTERS
    &&& state_fits(op)
}

/// Whether some operation writes a register.
pub open spec fn written(ops: Seq<Op>, reg: Reg) -> bool {
    exists|j: int| 0 <= j < ops.len() && #[trigger] writes(ops[j]) == Some(reg)
}

/// Every operation reads only registers that an earlier one has written.
pub open spec fn reads_follow_writes(ops: Seq<Op>) -> bool {
    forall|k: int, reg: Reg|
        0 <= k < ops.len() && #[trigger] reads(ops[k], reg) ==> written(ops.take(k), reg)
}

/// Every operation writes only the first so many registers.
pub open spec fn writes_within(ops: Seq<Op>, registers: usize) -> bool {
    forall|k: int|
        0 <= k < ops.len() ==> (writes(#[trigger] ops[k]) matches Some(out) ==> out < registers)
}

/// Every register an operation names is one of the first so many.
pub open spec fn names_within(ops: Seq<Op>, registers: usize) -> bool {
    &&& writes_within(ops, registers)
    &&& forall|k: int, reg: Reg|
        0 <= k < ops.len() && #[trigger] reads(ops[k], reg) ==> reg < registers
}

/// What is read was written, so it is one of the registers that are written.
pub proof fn lemma_names_within(ops: Seq<Op>, registers: usize)
    requires
        writes_within(ops, registers),
        reads_follow_writes(ops),
    ensures
        names_within(ops, registers),
{
    assert forall|k: int, reg: Reg|
        0 <= k < ops.len() && #[trigger] reads(ops[k], reg) implies reg < registers by {
        assert(written(ops.take(k), reg));
        let j = choose|j: int|
            0 <= j < ops.take(k).len() && #[trigger] writes(ops.take(k)[j]) == Some(reg);
        assert(ops.take(k)[j] == ops[j]);
    }
}

proof fn lemma_written_push(ops: Seq<Op>, op: Op, reg: Reg)
    ensures
        written(ops, reg) ==> written(ops.push(op), reg),
        writes(op) == Some(reg) ==> written(ops.push(op), reg),
{
    if written(ops, reg) {
        let j = choose|j: int| 0 <= j < ops.len() && #[trigger] writes(ops[j]) == Some(reg);
        assert(writes(ops.push(op)[j]) == Some(reg));
    }
    assert(ops.push(op)[ops.len() as int] == op);
}

proof fn lemma_written_append(ops: Seq<Op>, more: Seq<Op>, reg: Reg)
    ensures
        written(ops, reg) ==> written(ops + more, reg),
{
    if written(ops, reg) {
        let j = choose|j: int| 0 <= j < ops.len() && #[trigger] writes(ops[j]) == Some(reg);
        assert(writes((ops + more)[j]) == Some(reg));
    }
}

/// What the parameter half is compiled against.
pub struct ParamEnv {
    pub links: Seq<Link>,
    pub lines: Seq<Line>,
    pub slot_count: usize,
    pub note_outputs: Seq<((NodeId, u8), u16)>,
}

#[verifier::ext_equal]
pub struct ParamModel {
    pub id: NodeId,
    pub next_reg: usize,
    /// The register behind each output socket.
    pub reg_of: Seq<((NodeId, u8), Reg)>,
    pub ops: Seq<Op>,
    /// Operations held back to the end of the stage.
    pub deferred: Seq<Op>,
    pub outputs: Seq<(u16, Reg)>,
    pub lfo_nodes: Seq<NodeId>,
    pub latch_nodes: Seq<NodeId>,
    pub param_targets: Seq<ParamTarget>,
    pub audio_lanes: Seq<((NodeId, u8), u16)>,
    /// The condition behind each gated note output.
    pub note_gates: Seq<((NodeId, u8), Reg)>,
    pub spans: Seq<Span>,
}

/// The first constant nothing from `at` on.
pub open spec fn zero_from(ops: Seq<Op>, at: int) -> Option<Reg>
    decreases ops.len() - at,
{
    if at >= ops.len() {
        None
    } else {
        match ops[at] {
            Op::Const { out, value } if value.equal(Real::zeroed()) => Some(out),
            _ => zero_from(ops, at + 1),
        }
    }
}

/// The first target from `at` on.
pub open spec fn target_from(targets: Seq<ParamTarget>, target: ParamTarget, at: int) -> Option<int>
    decreases targets.len() - at,
{
    if at >= targets.len() {
        None
    } else if targets[at] == target {
        Some(at)
    } else {
        target_from(targets, target, at + 1)
    }
}

pub open spec fn too_large(what: &'static str, limit: usize) -> CompileError {
    CompileError::TooLarge { what, limit }
}

impl ParamModel {
    pub open spec fn empty() -> ParamModel {
        ParamModel {
            id: NO_NODE,
            next_reg: 0,
            reg_of: Seq::empty(),
            ops: Seq::empty(),
            deferred: Seq::empty(),
            outputs: Seq::empty(),
            lfo_nodes: Seq::empty(),
            latch_nodes: Seq::empty(),
            param_targets: Seq::empty(),
            audio_lanes: Seq::empty(),
            note_gates: Seq::empty(),
            spans: Seq::empty(),
        }
    }

    pub open spec fn begun(self, id: NodeId) -> ParamModel {
        ParamModel { id, ..self }
    }

    /// The register wired into an input.
    pub open spec fn input(self, env: ParamEnv, port: u8) -> Option<Reg> {
        match source(env.links, self.id, port) {
            Some(from) => lookup(self.reg_of, from),
            None => None,
        }
    }

    /// The register wired into an input, or the number that stands in for it.
    pub open spec fn operand(self, env: ParamEnv, port: u8, value: Real) -> Operand {
        match self.input(env, port) {
            Some(reg) => Operand::Reg(reg),
            None => Operand::Value(value),
        }
    }

    /// The note buffer wired into an input.
    pub open spec fn notes(self, env: ParamEnv, port: u8) -> Option<u16> {
        notes_into(env.links, env.note_outputs, self.id, port)
    }

    /// The condition of the note gate that an input's notes came through.
    pub open spec fn gate_above(self, env: ParamEnv, port: u8) -> Option<Reg> {
        match source(env.links, self.id, port) {
            Some(from) => lookup(self.note_gates, from),
            None => None,
        }
    }

    pub open spec fn emitted(self, op: Op) -> ParamModel {
        ParamModel { ops: self.ops.push(op), ..self }
    }

    pub open spec fn held_back(self, op: Op) -> ParamModel {
        ParamModel { deferred: self.deferred.push(op), ..self }
    }

    pub open spec fn bound(self, port: u8, reg: Reg) -> ParamModel {
        ParamModel { reg_of: self.reg_of.push(((self.id, port), reg)), ..self }
    }

    /// One more register.
    pub open spec fn with_reg(self) -> Result<(ParamModel, Reg), CompileError> {
        if self.next_reg >= MAX_REGISTERS {
            Err(too_large("nodes", MAX_REGISTERS))
        } else {
            Ok((ParamModel { next_reg: (self.next_reg + 1) as usize, ..self }, self.next_reg as Reg))
        }
    }

    /// A register that holds nothing, shared by all that want one.
    pub open spec fn with_zero(self) -> Result<(ParamModel, Reg), CompileError> {
        match zero_from(self.ops, 0) {
            Some(reg) => Ok((self, reg)),
            None => match self.with_reg() {
                Ok((next, out)) => Ok(
                    (next.emitted(Op::Const { out, value: Real::zeroed() }), out),
                ),
                Err(error) => Err(error),
            },
        }
    }

    pub open spec fn with_input(self, env: ParamEnv, port: u8) -> Result<
        (ParamModel, Reg),
        CompileError,
    > {
        match self.input(env, port) {
            Some(reg) => Ok((self, reg)),
            None => self.with_zero(),
        }
    }

    pub open spec fn with_lfo(self) -> Result<(ParamModel, u16), CompileError> {
        if self.lfo_nodes.len() >= MAX_LFOS {
            Err(too_large("LFOs", MAX_LFOS))
        } else {
            Ok(
                (
                    ParamModel { lfo_nodes: self.lfo_nodes.push(self.id), ..self },
                    self.lfo_nodes.len() as u16,
                ),
            )
        }
    }

    pub open spec fn with_latch(self) -> Result<(ParamModel, u16), CompileError> {
        if self.latch_nodes.len() >= MAX_LATCHES {
            Err(too_large("key switches", MAX_LATCHES))
        } else {
            Ok(
                (
                    ParamModel { latch_nodes: self.latch_nodes.push(self.id), ..self },
                    self.latch_nodes.len() as u16,
                ),
            )
        }
    }

    /// A parameter of a plugin driven by a register. A parameter driven twice
    /// keeps its lane and hears the later register.
    pub open spec fn driving_param(self, env: ParamEnv, target: ParamTarget, reg: Reg) -> Result<
        ParamModel,
        CompileError,
    > {
        if self.param_targets.len() >= MAX_GRAPH_PARAMS {
            Err(too_large("graph-driven parameters", MAX_GRAPH_PARAMS))
        } else {
            match target_from(self.param_targets, target, 0) {
                Some(at) => {
                    let lane = env.slot_count + at;
                    Ok(
                        ParamModel {
                            outputs: self.outputs.filter(
                                |output: (u16, Reg)| output.0 as int != lane,
                            ).push((lane as u16, reg)),
                            ..self
                        },
                    )
                },
                None => Ok(
                    ParamModel {
                        param_targets: self.param_targets.push(target),
                        outputs: self.outputs.push(
                            ((env.slot_count + self.param_targets.len()) as u16, reg),
                        ),
                        ..self
                    },
                ),
            }
        }
    }

    /// A socket of the audio or note half driven by a register, through the lane
    /// it already has or a new one.
    pub open spec fn driving_audio(self, env: ParamEnv, port: u8, reg: Reg) -> Result<
        ParamModel,
        CompileError,
    > {
        let socket = (self.id, port);
        match lookup(self.audio_lanes, socket) {
            Some(lane) => Ok(ParamModel { outputs: self.outputs.push((lane, reg)), ..self }),
            None => if self.audio_lanes.len() >= MAX_AUDIO_LANES {
                Err(too_large("automated delay times and gains", MAX_AUDIO_LANES))
            } else {
                let lane = (env.slot_count + MAX_GRAPH_PARAMS + self.audio_lanes.len()) as u16;
                Ok(
                    ParamModel {
                        audio_lanes: self.audio_lanes.push((socket, lane)),
                        outputs: self.outputs.push((lane, reg)),
                        ..self
                    },
                )
            },
        }
    }

    /// A note output gated by a register.
    pub open spec fn gating(self, env: ParamEnv, port: u8, reg: Reg) -> Result<
        ParamModel,
        CompileError,
    > {
        ParamModel {
            note_gates: self.note_gates.push(((self.id, port), reg)),
            ..self
        }.driving_audio(env, (OUTPUT_SOCKET + port) as u8, reg)
    }

    /// The end of a stage: what was held back runs last.
    pub open spec fn closed(self) -> ParamModel {
        let ops = self.ops + self.deferred;
        ParamModel {
            ops,
            deferred: Seq::empty(),
            spans: self.spans.push(
                Span {
                    start: if self.spans.len() == 0 {
                        0
                    } else {
                        self.spans.last().end
                    },
                    end: ops.len() as u32,
                },
            ),
            ..self
        }
    }

    pub open spec fn wf(self) -> bool {
        &&& self.next_reg <= MAX_REGISTERS
        &&& self.lfo_nodes.len() <= MAX_LFOS
        &&& self.latch_nodes.len() <= MAX_LATCHES
        &&& self.param_targets.len() <= MAX_GRAPH_PARAMS
        &&& self.audio_lanes.len() <= MAX_AUDIO_LANES
        &&& forall|k: int| 0 <= k < self.ops.len() ==> op_fits(#[trigger] self.ops[k])
        &&& reads_follow_writes(self.ops)
        &&& writes_within(self.ops, self.next_reg)
        &&& forall|k: int|
            0 <= k < self.deferred.len() ==> op_fits(#[trigger] self.deferred[k]) && writes(
                self.deferred[k],
            ) is None
        &&& forall|k: int, reg: Reg|
            0 <= k < self.deferred.len() && #[trigger] reads(self.deferred[k], reg) ==> written(
                self.ops,
                reg,
            )
        &&& forall|k: int|
            0 <= k < self.reg_of.len() ==> written(self.ops, (#[trigger] self.reg_of[k]).1)
        &&& forall|k: int|
            0 <= k < self.note_gates.len() ==> written(self.ops, (#[trigger] self.note_gates[k]).1)
        &&& forall|k: int|
            0 <= k < self.outputs.len() ==> written(self.ops, (#[trigger] self.outputs[k]).1)
        &&& self.ops.len() <= u32::MAX ==> spans_follow(self.spans, self.ops.len())
    }
}

/// Each span starts where the one before it ended, and none ends beyond the
/// list.
pub open spec fn spans_follow(spans: Seq<Span>, len: nat) -> bool {
    &&& forall|s: int| 0 <= s < spans.len() ==> (#[trigger] spans[s]).fits(len)
    &&& forall|s: int|
        0 <= s < spans.len() ==> (#[trigger] spans[s]).start == if s == 0 {
            0
        } else {
            spans[s - 1].end
        }
}

/// A register that is written is one that exists.
pub proof fn lemma_written_fits(ops: Seq<Op>, reg: Reg)
    requires
        forall|k: int| 0 <= k < ops.len() ==> op_fits(#[trigger] ops[k]),
        written(ops, reg),
    ensures
        reg < MAX_REGISTERS,
{
    let j = choose|j: int| 0 <= j < ops.len() && #[trigger] writes(ops[j]) == Some(reg);
    assert(op_fits(ops[j]));
}

pub struct ParamCx<'a> {
    pub graph: &'a Graph,
    pub lines: &'a Vec<Line>,
    pub slot_count: usize,
    pub notes: &'a Notes,
    pub id: NodeId,
    pub next_reg: usize,
    pub reg_of: Vec<((NodeId, u8), Reg)>,
    pub ops: Vec<Op>,
    pub deferred: Vec<Op>,
    pub outputs: Vec<(u16, Reg)>,
    pub lfo_nodes: Vec<NodeId>,
    pub latch_nodes: Vec<NodeId>,
    pub param_targets: Vec<ParamTarget>,
    pub audio_lanes: Vec<((NodeId, u8), u16)>,
    pub note_gates: Vec<((NodeId, u8), Reg)>,
    pub spans: Vec<Span>,
}

impl<'a> View for ParamCx<'a> {
    type V = ParamModel;

    open spec fn view(&self) -> ParamModel {
        ParamModel {
            id: self.id,
            next_reg: self.next_reg,
            reg_of: self.reg_of@,
            ops: self.ops@,
            deferred: self.deferred@,
            outputs: self.outputs@,
            lfo_nodes: self.lfo_nodes@,
            latch_nodes: self.latch_nodes@,
            param_targets: self.param_targets@,
            audio_lanes: self.audio_lanes@,
            note_gates: self.note_gates@,
            spans: self.spans@,
        }
    }
}

/// What came of a step that hands something back: the half as it should be, and
/// nothing changed around it.
pub open spec fn stepped<T>(
    spec: Result<(ParamModel, T), CompileError>,
    before: ParamCx,
    after: ParamCx,
    r: Result<T, CompileError>,
) -> bool {
    &&& after.env() == before.env()
    &&& match spec {
        Ok((model, value)) => r == Ok::<T, CompileError>(value) && after@ == model && model.wf(),
        Err(error) => r == Err::<T, CompileError>(error),
    }
}

/// What came of a step that hands nothing back.
pub open spec fn settled(
    spec: Result<ParamModel, CompileError>,
    before: ParamCx,
    after: ParamCx,
    r: Result<(), CompileError>,
) -> bool {
    &&& after.env() == before.env()
    &&& match spec {
        Ok(model) => r == Ok::<(), CompileError>(()) && after@ == model && model.wf(),
        Err(error) => r == Err::<(), CompileError>(error),
    }
}

impl<'a> ParamCx<'a> {
    pub open spec fn env(&self) -> ParamEnv {
        ParamEnv {
            links: self.graph.links@,
            lines: self.lines@,
            slot_count: self.slot_count,
            note_outputs: self.notes.outputs@,
        }
    }

    /// The lanes have numbers.
    pub open spec fn lanes_fit(&self) -> bool {
        self.slot_count + MAX_GRAPH_PARAMS + MAX_AUDIO_LANES <= usize::MAX
    }

    pub fn new(
        graph: &'a Graph,
        lines: &'a Vec<Line>,
        slot_count: usize,
        notes: &'a Notes,
    ) -> (r: ParamCx<'a>)
        ensures
            r.env() == (ParamEnv {
                links: graph.links@,
                lines: lines@,
                slot_count,
                note_outputs: notes.outputs@,
            }),
            r@ == ParamModel::empty(),
            r@.wf(),
    {
        ParamCx {
            graph,
            lines,
            slot_count,
            notes,
            id: NO_NODE,
            next_reg: 0,
            reg_of: Vec::new(),
            ops: Vec::new(),
            deferred: Vec::new(),
            outputs: Vec::new(),
            lfo_nodes: Vec::new(),
            latch_nodes: Vec::new(),
            param_targets: Vec::new(),
            audio_lanes: Vec::new(),
            note_gates: Vec::new(),
            spans: Vec::new(),
        }
    }

    /// Turns to the next node.
    pub fn begin(&mut self, id: NodeId)
        ensures
            final(self).env() == old(self).env(),
            final(self)@ == old(self)@.begun(id),
            old(self)@.wf() ==> final(self)@.wf(),
    {
        let ghost before = self@;
        self.id = id;
        assert(self@ =~= before.begun(id));
        assert(self@.reg_of == before.reg_of);
        assert(self@.outputs == before.outputs);
        assert(self@.deferred == before.deferred);
    }

    /// The register wired into an input, if something is.
    pub fn input(&self, port: u8) -> (r: Option<Reg>)
        requires
            self@.wf(),
        ensures
            r == self@.input(self.env(), port),
            r matches Some(reg) ==> written(self@.ops, reg),
    {
        match self.graph.source_of(self.id, port) {
            Some(from) => {
                proof {
                    lemma_lookup_from(self@.reg_of, from, 0);
                }
                find_key(&self.reg_of, from)
            },
            None => None,
        }
    }

    /// The register wired into an input, or the number that stands in for it.
    pub fn operand(&self, port: u8, value: Real) -> (r: Operand)
        requires
            self@.wf(),
        ensures
            r == self@.operand(self.env(), port, value),
            r matches Operand::Reg(reg) ==> written(self@.ops, reg),
    {
        match self.input(port) {
            Some(reg) => Operand::Reg(reg),
            None => Operand::Value(value),
        }
    }

    pub fn notes_in(&self, port: u8) -> (r: Option<u16>)
        ensures
            r == self@.notes(self.env(), port),
    {
        self.notes.source_of(self.graph, self.id, port)
    }

    pub fn gate_above(&self, port: u8) -> (r: Option<Reg>)
        requires
            self@.wf(),
        ensures
            r == self@.gate_above(self.env(), port),
            r matches Some(reg) ==> written(self@.ops, reg),
    {
        match self.graph.source_of(self.id, port) {
            Some(from) => {
                proof {
                    lemma_lookup_from(self@.note_gates, from, 0);
                }
                find_key(&self.note_gates, from)
            },
            None => None,
        }
    }

    /// The register wired into an input, or one that holds nothing.
    pub fn input_or_zero(&mut self, port: u8) -> (r: Result<Reg, CompileError>)
        requires
            old(self)@.wf(),
        ensures
            stepped(old(self)@.with_input(old(self).env(), port), *old(self), *final(self), r),
            r matches Ok(reg) ==> written(final(self)@.ops, reg),
    {
        match self.input(port) {
            Some(reg) => Ok(reg),
            None => self.zero(),
        }
    }

    /// Whether anything is wired into an input.
    pub fn has_input(&self, port: u8) -> (r: bool)
        ensures
            r == (source(self.env().links, self@.id, port) is Some),
    {
        self.graph.source_of(self.id, port).is_some()
    }

    pub fn zero(&mut self) -> (r: Result<Reg, CompileError>)
        requires
            old(self)@.wf(),
        ensures
            stepped(old(self)@.with_zero(), *old(self), *final(self), r),
            r matches Ok(reg) ==> written(final(self)@.ops, reg),
    {
        let mut at: usize = 0;
        while at < self.ops.len()
            invariant
                at <= self.ops@.len(),
                *self == *old(self),
                old(self)@.wf(),
                zero_from(self.ops@, 0) == zero_from(self.ops@, at as int),
            decreases self.ops@.len() - at,
        {
            if let Op::Const { out, value } = self.ops[at] {
                if value.is_equal(Real::zero()) {
                    assert(writes(self.ops@[at as int]) == Some(out));
                    return Ok(out);
                }
            }
            at += 1;
        }
        let out: Reg = match self.take_reg() {
            Ok(out) => out,
            Err(error) => {
                return Err(error);
            },
        };
        self.emit(Op::Const { out, value: Real::zero() });
        Ok(out)
    }

    /// Hands out the next register.
    pub fn take_reg(&mut self) -> (r: Result<Reg, CompileError>)
        requires
            old(self)@.wf(),
        ensures
            stepped(old(self)@.with_reg(), *old(self), *final(self), r),
            r matches Ok(reg) ==> reg < MAX_REGISTERS,
    {
        if self.next_reg >= MAX_REGISTERS {
            return Err(CompileError::TooLarge { what: "nodes", limit: MAX_REGISTERS });
        }
        let reg: Reg = self.next_reg as Reg;
        self.next_reg = self.next_reg + 1;
        assert(self@ =~= old(self)@.with_reg()->Ok_0.0);
        assert(self@.ops == old(self)@.ops);
        Ok(reg)
    }

    /// Appends an operation, which may read only what has been written.
    pub fn emit(&mut self, op: Op)
        requires
            old(self)@.wf(),
            op_fits(op),
            writes(op) matches Some(out) ==> out < old(self)@.next_reg,
            forall|reg: Reg| #[trigger] reads(op, reg) ==> written(old(self)@.ops, reg),
        ensures
            final(self).env() == old(self).env(),
            final(self)@ == old(self)@.emitted(op),
            final(self)@.wf(),
            writes(op) matches Some(out) ==> written(final(self)@.ops, out),
            forall|reg: Reg|
                written(old(self)@.ops, reg) ==> #[trigger] written(final(self)@.ops, reg),
    {
        let ghost before = self@;
        self.ops.push(op);
        proof {
            assert(self@ =~= before.emitted(op));
            lemma_emitted_wf(before, op);
        }
    }

    /// Holds an operation back to the end of the stage. Only delay writes are:
    /// within one sub-block every read must see the line as it stood before.
    pub fn emit_deferred(&mut self, op: Op)
        requires
            old(self)@.wf(),
            op_fits(op),
            writes(op) is None,
            forall|reg: Reg| #[trigger] reads(op, reg) ==> written(old(self)@.ops, reg),
        ensures
            final(self).env() == old(self).env(),
            final(self)@ == old(self)@.held_back(op),
            final(self)@.wf(),
    {
        self.deferred.push(op);
        assert(self@ =~= old(self)@.held_back(op));
    }

    /// Says which register an output socket carries.
    pub fn bind_output(&mut self, port: u8, reg: Reg)
        requires
            old(self)@.wf(),
            written(old(self)@.ops, reg),
        ensures
            final(self).env() == old(self).env(),
            final(self)@ == old(self)@.bound(port, reg),
            final(self)@.wf(),
    {
        self.reg_of.push(((self.id, port), reg));
        assert(self@ =~= old(self)@.bound(port, reg));
    }

    pub fn lfo_state(&mut self) -> (r: Result<u16, CompileError>)
        requires
            old(self)@.wf(),
        ensures
            stepped(old(self)@.with_lfo(), *old(self), *final(self), r),
            r matches Ok(state) ==> state < MAX_LFOS,
    {
        if self.lfo_nodes.len() >= MAX_LFOS {
            return Err(CompileError::TooLarge { what: "LFOs", limit: MAX_LFOS });
        }
        let state: u16 = self.lfo_nodes.len() as u16;
        self.lfo_nodes.push(self.id);
        assert(self@ =~= old(self)@.with_lfo()->Ok_0.0);
        Ok(state)
    }

    pub fn latch(&mut self) -> (r: Result<u16, CompileError>)
        requires
            old(self)@.wf(),
        ensures
            stepped(old(self)@.with_latch(), *old(self), *final(self), r),
            r matches Ok(state) ==> state < MAX_LATCHES,
    {
        if self.latch_nodes.len() >= MAX_LATCHES {
            return Err(CompileError::TooLarge { what: "key switches", limit: MAX_LATCHES });
        }
        let state: u16 = self.latch_nodes.len() as u16;
        self.latch_nodes.push(self.id);
        assert(self@ =~= old(self)@.with_latch()->Ok_0.0);
        Ok(state)
    }

    /// The index of a delay line.
    pub fn line_index(&self, line: LineId) -> (r: u16)
        requires
            line_at(self.env().lines, line) is Some,
        ensures
            r == line_at(self.env().lines, line)->0 as u16,
    {
        match find_line(self.lines.as_slice(), line) {
            Some(i) => #[verifier::truncate]
            (i as u16),
            None => 0,
        }
    }

    pub fn check_slot(&self, slot: usize) -> (r: Result<(), CompileError>)
        ensures
            r == if slot >= self.env().slot_count {
                Err::<(), CompileError>(CompileError::BadSlot { node: self@.id, slot })
            } else {
                Ok(())
            },
    {
        if slot >= self.slot_count {
            return Err(CompileError::BadSlot { node: self.id, slot });
        }
        Ok(())
    }

    /// Drives a parameter of a plugin.
    pub fn drive_param(&mut self, target: ParamTarget, reg: Reg) -> (r: Result<(), CompileError>)
        requires
            old(self)@.wf(),
            old(self).lanes_fit(),
            written(old(self)@.ops, reg),
        ensures
            settled(
                old(self)@.driving_param(old(self).env(), target, reg),
                *old(self),
                *final(self),
                r,
            ),
    {
        if self.param_targets.len() >= MAX_GRAPH_PARAMS {
            return Err(
                CompileError::TooLarge { what: "graph-driven parameters", limit: MAX_GRAPH_PARAMS },
            );
        }
        let mut at: usize = 0;
        while at < self.param_targets.len() && self.param_targets[at] != target
            invariant
                at <= self.param_targets@.len(),
                target_from(self.param_targets@, target, 0) == target_from(
                    self.param_targets@,
                    target,
                    at as int,
                ),
            decreases self.param_targets@.len() - at,
        {
            at += 1;
        }
        if at < self.param_targets.len() {
            let lane: usize = self.slot_count + at;
            self.undrive(lane);
        } else {
            self.param_targets.push(target);
        }
        let ghost driven = self.outputs@;
        assert(self@.ops == old(self)@.ops);
        assert(written(self@.ops, reg));
        assert(forall|k: int| 0 <= k < self@.outputs.len() ==> written(self@.ops, (#[trigger] self@.outputs[k]).1));
        let lane: usize = self.slot_count + at;
        self.outputs.push(
            (
                #[verifier::truncate]
                (lane as u16),
                reg,
            ),
        );
        let ghost spec = old(self)@.driving_param(old(self).env(), target, reg);
        assert(spec is Ok);
        assert(self@ =~= spec->Ok_0);
        assert forall|k: int| 0 <= k < self@.outputs.len() implies written(
            self@.ops,
            (#[trigger] self@.outputs[k]).1,
        ) by {
            if k < driven.len() {
                assert(self@.outputs[k] == driven[k]);
            }
        }
        Ok(())
    }

    /// Forgets what drives a lane.
    fn undrive(&mut self, lane: usize)
        requires
            old(self)@.wf(),
        ensures
            final(self).env() == old(self).env(),
            final(self)@ == (ParamModel {
                outputs: old(self)@.outputs.filter(
                    |output: (u16, Reg)| output.0 as int != lane,
                ),
                ..old(self)@
            }),
            final(self)@.wf(),
    {
        let ghost before = self.outputs@;
        let ghost others = |output: (u16, Reg)| output.0 as int != lane;
        let mut kept: Vec<(u16, Reg)> = Vec::new();
        let mut at: usize = 0;
        proof {
            reveal(Seq::filter);
            assert(before.take(0) =~= Seq::<(u16, Reg)>::empty());
        }
        while at < self.outputs.len()
            invariant
                at <= self.outputs@.len(),
                *self == *old(self),
                old(self)@.wf(),
                self.outputs@ == before,
                others == (|output: (u16, Reg)| output.0 as int != lane),
                kept@ == before.take(at as int).filter(others),
                forall|k: int| 0 <= k < kept@.len() ==> written(self@.ops, (#[trigger] kept@[k]).1),
            decreases self.outputs@.len() - at,
        {
            proof {
                reveal(Seq::filter);
                assert(before.take(at + 1).drop_last() =~= before.take(at as int));
                assert(written(self@.ops, self@.outputs[at as int].1));
            }
            let output: (u16, Reg) = self.outputs[at];
            if output.0 as usize != lane {
                kept.push(output);
            }
            at += 1;
        }
        assert(before.take(at as int) =~= before);
        self.outputs = kept;
        assert(self@ =~= (ParamModel { outputs: before.filter(others), ..old(self)@ }));
    }

    /// Drives a socket of the audio or note half.
    pub fn drive_audio(&mut self, port: u8, reg: Reg) -> (r: Result<(), CompileError>)
        requires
            old(self)@.wf(),
            old(self).lanes_fit(),
            written(old(self)@.ops, reg),
        ensures
            settled(
                old(self)@.driving_audio(old(self).env(), port, reg),
                *old(self),
                *final(self),
                r,
            ),
    {
        let socket: (NodeId, u8) = (self.id, port);
        let lane: u16 = match find_key(&self.audio_lanes, socket) {
            Some(lane) => lane,
            None => {
                if self.audio_lanes.len() >= MAX_AUDIO_LANES {
                    return Err(
                        CompileError::TooLarge {
                            what: "automated delay times and gains",
                            limit: MAX_AUDIO_LANES,
                        },
                    );
                }
                let lane: u16 = #[verifier::truncate]
                ((self.slot_count + MAX_GRAPH_PARAMS + self.audio_lanes.len()) as u16);
                self.audio_lanes.push((socket, lane));
                lane
            },
        };
        self.outputs.push((lane, reg));
        assert(self@ =~= old(self)@.driving_audio(old(self).env(), port, reg)->Ok_0);
        Ok(())
    }

    /// Gates one of the node's note outputs.
    pub fn bind_note_gate(&mut self, port: u8, reg: Reg) -> (r: Result<(), CompileError>)
        requires
            old(self)@.wf(),
            old(self).lanes_fit(),
            written(old(self)@.ops, reg),
            port < OUTPUT_SOCKET,
        ensures
            settled(
                old(self)@.gating(old(self).env(), port, reg),
                *old(self),
                *final(self),
                r,
            ),
    {
        self.note_gates.push(((self.id, port), reg));
        assert(self@ =~= (ParamModel {
            note_gates: old(self)@.note_gates.push(((old(self)@.id, port), reg)),
            ..old(self)@
        }));
        self.drive_audio(OUTPUT_SOCKET + port, reg)
    }

    /// Ends a stage.
    pub fn close_stage(&mut self)
        requires
            old(self)@.wf(),
        ensures
            final(self).env() == old(self).env(),
            final(self)@ == old(self)@.closed(),
            final(self)@.wf(),
    {
        let ghost before = self@;
        let start: u32 = if self.spans.len() == 0 {
            0
        } else {
            self.spans[self.spans.len() - 1].end
        };
        let mut held: Vec<Op> = Vec::new();
        std::mem::swap(&mut held, &mut self.deferred);
        self.ops.append(&mut held);
        let end: u32 = #[verifier::truncate]
        (self.ops.len() as u32);
        self.spans.push(Span { start, end });
        proof {
            assert(self@ =~= before.closed());
            lemma_closed_wf(before);
        }
    }
}

proof fn lemma_emitted_wf(before: ParamModel, op: Op)
    requires
        before.wf(),
        op_fits(op),
        writes(op) matches Some(out) ==> out < before.next_reg,
        forall|reg: Reg| #[trigger] reads(op, reg) ==> written(before.ops, reg),
    ensures
        before.emitted(op).wf(),
        writes(op) matches Some(out) ==> written(before.emitted(op).ops, out),
        forall|reg: Reg|
            written(before.ops, reg) ==> #[trigger] written(before.emitted(op).ops, reg),
{
    let after = before.emitted(op);
    assert forall|reg: Reg| written(before.ops, reg) implies #[trigger] written(
        after.ops,
        reg,
    ) by {
        lemma_written_push(before.ops, op, reg);
    }
    if let Some(out) = writes(op) {
        lemma_written_push(before.ops, op, out);
    }
    assert forall|k: int, reg: Reg|
        0 <= k < after.ops.len() && #[trigger] reads(after.ops[k], reg) implies written(
        after.ops.take(k),
        reg,
    ) by {
        if k < before.ops.len() {
            assert(after.ops[k] == before.ops[k]);
            assert(after.ops.take(k) =~= before.ops.take(k));
        } else {
            assert(after.ops.take(k) =~= before.ops);
        }
    }
    if after.ops.len() <= u32::MAX {
        assert forall|k: int| 0 <= k < after.spans.len() implies (#[trigger] after.spans[k]).fits(
            after.ops.len(),
        ) by {
            assert(before.spans[k].fits(before.ops.len()));
        }
    }
}

proof fn lemma_closed_wf(before: ParamModel)
    requires
        before.wf(),
    ensures
        before.closed().wf(),
{
    let after = before.closed();
    assert forall|reg: Reg| written(before.ops, reg) implies #[trigger] written(
        after.ops,
        reg,
    ) by {
        lemma_written_append(before.ops, before.deferred, reg);
    }
    assert forall|k: int| 0 <= k < after.ops.len() implies op_fits(#[trigger] after.ops[k]) by {
        if k < before.ops.len() {
            assert(after.ops[k] == before.ops[k]);
        } else {
            assert(after.ops[k] == before.deferred[k - before.ops.len()]);
        }
    }
    assert forall|k: int, reg: Reg|
        0 <= k < after.ops.len() && #[trigger] reads(after.ops[k], reg) implies written(
        after.ops.take(k),
        reg,
    ) by {
        if k < before.ops.len() {
            assert(after.ops[k] == before.ops[k]);
            assert(after.ops.take(k) =~= before.ops.take(k));
        } else {
            assert(after.ops[k] == before.deferred[k - before.ops.len()]);
            assert(written(before.ops, reg));
            let j = choose|j: int|
                0 <= j < before.ops.len() && #[trigger] writes(before.ops[j]) == Some(reg);
            assert(writes(after.ops.take(k)[j]) == Some(reg));
        }
    }
    if after.ops.len() <= u32::MAX {
        lemma_spans_follow(before.spans, before.ops.len(), after.ops.len());
    }
}

/// One more span, from where the last one ended to the end of a longer list.
pub proof fn lemma_spans_follow(spans: Seq<Span>, len: nat, more: nat)
    requires
        spans_follow(spans, len),
        len <= more <= u32::MAX,
    ensures
        ({
            let start = if spans.len() == 0 {
                0
            } else {
                spans.last().end
            };
            spans_follow(spans.push(Span { start, end: more as u32 }), more)
        }),
{
    let start = if spans.len() == 0 {
        0
    } else {
        spans.last().end
    };
    let after = spans.push(Span { start, end: more as u32 });
    assert forall|k: int| 0 <= k < after.len() implies (#[trigger] after[k]).fits(more)
        && after[k].start == if k == 0 {
        0
    } else {
        after[k - 1].end
    } by {
        if k < spans.len() {
            assert(spans[k].fits(len));
            assert(after[k] == spans[k]);
            if k > 0 {
                assert(after[k - 1] == spans[k - 1]);
            }
        } else if k > 0 {
            assert(spans[k - 1].fits(len));
            assert(after[k - 1] == spans[k - 1]);
        }
    }
}

/// Lanes in ascending order, and within a lane registers.
pub open spec fn output_le(a: (u16, Reg), b: (u16, Reg)) -> bool {
    a.0 < b.0 || a.0 == b.0 && a.1 <= b.1
}

/// A list with one more output, behind everything that does not come after it.
pub open spec fn output_inserted(list: Seq<(u16, Reg)>, output: (u16, Reg)) -> Seq<(u16, Reg)>
    decreases list.len(),
{
    if list.len() == 0 || output_le(list.last(), output) {
        list.push(output)
    } else {
        output_inserted(list.drop_last(), output).push(list.last())
    }
}

/// The outputs in order.
pub open spec fn outputs_sorted(list: Seq<(u16, Reg)>) -> Seq<(u16, Reg)>
    decreases list.len(),
{
    if list.len() == 0 {
        Seq::empty()
    } else {
        output_inserted(outputs_sorted(list.drop_last()), list.last())
    }
}

proof fn lemma_output_inserted(list: Seq<(u16, Reg)>, output: (u16, Reg), at: int)
    requires
        0 <= at <= list.len(),
        forall|j: int| at <= j < list.len() ==> !output_le(#[trigger] list[j], output),
        at > 0 ==> output_le(list[at - 1], output),
    ensures
        output_inserted(list, output) == list.insert(at, output),
    decreases list.len(),
{
    if at == list.len() {
        assert(list.insert(at, output) =~= list.push(output));
    } else {
        lemma_output_inserted(list.drop_last(), output, at);
        assert(list.insert(at, output) =~= list.drop_last().insert(at, output).push(list.last()));
    }
}

proof fn lemma_inserted_members(list: Seq<(u16, Reg)>, output: (u16, Reg))
    requires
        forall|i: int, j: int|
            0 <= i <= j < list.len() ==> output_le(#[trigger] list[i], #[trigger] list[j]),
    ensures
        ({
            let after = output_inserted(list, output);
            &&& after.len() == list.len() + 1
            &&& forall|x: (u16, Reg)| #[trigger] after.contains(x) <==> list.contains(x) || x == output
            &&& forall|i: int, j: int|
                0 <= i <= j < after.len() ==> output_le(#[trigger] after[i], #[trigger] after[j])
        }),
    decreases list.len(),
{
    let after = output_inserted(list, output);
    if list.len() == 0 || output_le(list.last(), output) {
        assert(after[list.len() as int] == output);
        assert forall|x: (u16, Reg)| #[trigger] after.contains(x) <==> list.contains(x) || x
            == output by {
            if list.contains(x) {
                let i = choose|i: int| 0 <= i < list.len() && list[i] == x;
                assert(after[i] == x);
            }
            if after.contains(x) {
                let i = choose|i: int| 0 <= i < after.len() && after[i] == x;
                if i < list.len() {
                    assert(list[i] == x);
                }
            }
        }
    } else {
        let front = list.drop_last();
        assert forall|i: int, j: int| 0 <= i <= j < front.len() implies output_le(
            #[trigger] front[i],
            #[trigger] front[j],
        ) by {
            assert(output_le(list[i], list[j]));
        }
        lemma_inserted_members(front, output);
        let below = output_inserted(front, output);
        assert forall|x: (u16, Reg)| #[trigger] after.contains(x) <==> list.contains(x) || x
            == output by {
            if after.contains(x) {
                let i = choose|i: int| 0 <= i < after.len() && after[i] == x;
                if i < below.len() {
                    assert(below[i] == x);
                    assert(below.contains(x));
                    if front.contains(x) {
                        let k = choose|k: int| 0 <= k < front.len() && front[k] == x;
                        assert(list[k] == x);
                    }
                } else {
                    assert(list[list.len() - 1] == x);
                }
            }
            if list.contains(x) || x == output {
                if x == list.last() {
                    assert(after[below.len() as int] == x);
                } else {
                    if list.contains(x) {
                        let k = choose|k: int| 0 <= k < list.len() && list[k] == x;
                        assert(front[k] == x);
                    }
                    assert(below.contains(x));
                    let k = choose|k: int| 0 <= k < below.len() && below[k] == x;
                    assert(after[k] == x);
                }
            }
        }
        assert forall|i: int, j: int| 0 <= i <= j < after.len() implies output_le(
            #[trigger] after[i],
            #[trigger] after[j],
        ) by {
            if j < below.len() {
                assert(output_le(below[i], below[j]));
            } else if i < below.len() {
                assert(below.contains(below[i]));
                if below[i] != output {
                    let k = choose|k: int| 0 <= k < front.len() && front[k] == below[i];
                    assert(output_le(list[k], list[list.len() - 1]));
                }
            }
        }
    }
}

/// Sorting the outputs loses none, makes none up, and leaves them in ascending
/// order.
pub proof fn law_outputs_sorted(list: Seq<(u16, Reg)>)
    ensures
        ({
            let after = outputs_sorted(list);
            &&& after.len() == list.len()
            &&& forall|x: (u16, Reg)| #[trigger] after.contains(x) <==> list.contains(x)
            &&& forall|i: int, j: int|
                0 <= i <= j < after.len() ==> output_le(#[trigger] after[i], #[trigger] after[j])
        }),
    decreases list.len(),
{
    if list.len() > 0 {
        let front = list.drop_last();
        law_outputs_sorted(front);
        lemma_inserted_members(outputs_sorted(front), list.last());
        assert forall|x: (u16, Reg)| #[trigger] outputs_sorted(list).contains(x) <==> list.contains(
            x,
        ) by {
            if front.contains(x) {
                let k = choose|k: int| 0 <= k < front.len() && front[k] == x;
                assert(list[k] == x);
            }
            if list.contains(x) {
                let k = choose|k: int| 0 <= k < list.len() && list[k] == x;
                if k < front.len() {
                    assert(front[k] == x);
                }
            }
            assert(list[list.len() - 1] == list.last());
        }
    }
}

/// The parameter half of a program.
pub struct ParamHalf {
    pub ops: Vec<Op>,
    pub registers: usize,
    pub outputs: Vec<(u16, Reg)>,
    pub lfo_nodes: Vec<NodeId>,
    pub latch_nodes: Vec<NodeId>,
    pub param_targets: Vec<ParamTarget>,
    pub audio_lanes: Vec<((NodeId, u8), u16)>,
    pub spans: Vec<Span>,
}

/// Sorts the outputs.
fn sort_outputs(outputs: &Vec<(u16, Reg)>) -> (r: Vec<(u16, Reg)>)
    ensures
        r@ == outputs_sorted(outputs@),
{
    let mut list: Vec<(u16, Reg)> = Vec::new();
    let mut at: usize = 0;
    assert(outputs@.take(0) =~= Seq::<(u16, Reg)>::empty());
    while at < outputs.len()
        invariant
            at <= outputs@.len(),
            list@ == outputs_sorted(outputs@.take(at as int)),
        decreases outputs@.len() - at,
    {
        let output: (u16, Reg) = outputs[at];
        proof {
            assert(outputs@.take(at + 1).drop_last() =~= outputs@.take(at as int));
        }
        let mut place: usize = list.len();
        while place > 0 && !(list[place - 1].0 < output.0 || list[place - 1].0 == output.0 && list[place
            - 1].1 <= output.1)
            invariant
                place <= list@.len(),
                forall|j: int| place <= j < list@.len() ==> !output_le(#[trigger] list@[j], output),
            decreases place,
        {
            place -= 1;
        }
        proof {
            lemma_output_inserted(list@, output, place as int);
        }
        list.insert(place, output);
        at += 1;
    }
    assert(outputs@.take(at as int) =~= outputs@);
    list
}

impl<'a> ParamCx<'a> {
    /// Everything compiled, the outputs in order.
    pub fn finish(self) -> (r: ParamHalf)
        requires
            self@.wf(),
        ensures
            r.ops@ == self@.ops,
            r.registers == self@.next_reg,
            r.outputs@ == outputs_sorted(self@.outputs),
            r.lfo_nodes@ == self@.lfo_nodes,
            r.latch_nodes@ == self@.latch_nodes,
            r.param_targets@ == self@.param_targets,
            r.audio_lanes@ == self@.audio_lanes,
            r.spans@ == self@.spans,
            forall|k: int|
                0 <= k < r.outputs@.len() ==> written(r.ops@, (#[trigger] r.outputs@[k]).1),
    {
        let outputs: Vec<(u16, Reg)> = sort_outputs(&self.outputs);
        proof {
            law_outputs_sorted(self@.outputs);
            assert forall|k: int| 0 <= k < outputs@.len() implies written(
                self@.ops,
                (#[trigger] outputs@[k]).1,
            ) by {
                assert(outputs@.contains(outputs@[k]));
                let j = choose|j: int|
                    0 <= j < self@.outputs.len() && self@.outputs[j] == outputs@[k];
                assert(written(self@.ops, self@.outputs[j].1));
            }
        }
        ParamHalf {
            ops: self.ops,
            registers: self.next_reg,
            outputs,
            lfo_nodes: self.lfo_nodes,
            latch_nodes: self.latch_nodes,
            param_targets: self.param_targets,
            audio_lanes: self.audio_lanes,
            spans: self.spans,
        }
    }
}

} // verus!
