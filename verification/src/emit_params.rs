//! What each kind of node contributes to the parameter half.
use vstd::prelude::*;
use crate::declare::line_at;
use crate::error::CompileError;
use crate::ir::{Buf, Follow, MathOp, Op, Operand, ParamTarget, Reg, MAX_LATCHES, MAX_REGISTERS};
use crate::nodes::{
    CcIn, Constant, DelayRead, DelayWrite, EnvelopeFollower, Gate, KeyParam, KeyParamMode,
    KeySwitch, KeySwitchMode, Lfo, Math, Mix, NodeKind, NoteFollow, NoteGate, Plugin, PluginPorts,
    RangeMap, SlotIn, Switch, MAX_KEYS,
};
use crate::number::Real;
use crate::param_cx::{
    lemma_written_fits, settled, stepped, written, ParamCx, ParamEnv, ParamModel,
};
use crate::port::PortType;

verus! {

/// The gain of a shut gate, in decibels: low enough to count as none at all.
pub const SILENT_DB: u64 = 0xc05e_0000_0000_0000;

/// Stands for an audio buffer that has yet to be laid out, and for one that
/// never is.
pub const NO_BUFFER: Buf = 0xffff;

/// How many values, rungs or parameters a node's sockets can be wired to.
pub const MAX_SOCKETS: usize = 253;

pub open spec fn smaller_of(a: nat, b: nat) -> nat {
    if a < b {
        a
    } else {
        b
    }
}

impl Switch {
    /// How many thresholds have a value above them.
    pub open spec fn rungs(self) -> nat {
        if self.values@.len() == 0 {
            0
        } else {
            smaller_of(
                smaller_of(self.thresholds@.len(), (self.values@.len() - 1) as nat),
                MAX_SOCKETS as nat,
            )
        }
    }
}

/// The first of a list of values.
pub open spec fn first_value(values: Seq<Real>) -> Real {
    if values.len() == 0 {
        Real::zeroed()
    } else {
        values[0]
    }
}

impl KeyParam {
    /// How many of its values can be chosen.
    pub open spec fn choices(self) -> nat {
        smaller_of(self.values@.len(), MAX_KEYS as nat)
    }
}

/// What a reading of no notes at all gives.
pub open spec fn unheard(what: Follow) -> Real {
    match what {
        Follow::KeyTrack => Real::halved(),
        _ => Real::zeroed(),
    }
}

pub open spec fn either(swap: bool, below: Real, above: Real) -> (Operand, Operand) {
    if swap {
        (Operand::Value(above), Operand::Value(below))
    } else {
        (Operand::Value(below), Operand::Value(above))
    }
}

impl ParamModel {
    pub open spec fn constant(self, value: Real) -> Result<ParamModel, CompileError> {
        match self.with_reg() {
            Err(error) => Err(error),
            Ok((next, out)) => Ok(next.emitted(Op::Const { out, value }).bound(0, out)),
        }
    }

    /// The first output carries an operand.
    pub open spec fn carrying(self, operand: Operand) -> Result<ParamModel, CompileError> {
        match operand {
            Operand::Reg(reg) => Ok(self.bound(0, reg)),
            Operand::Value(value) => self.constant(value),
        }
    }

    pub open spec fn slot(self, env: ParamEnv, node: SlotIn) -> Result<ParamModel, CompileError> {
        if node.slot >= env.slot_count {
            Err(CompileError::BadSlot { node: self.id, slot: node.slot })
        } else {
            match self.with_reg() {
                Err(error) => Err(error),
                Ok((next, out)) => Ok(
                    next.emitted(Op::Slot { out, slot: node.slot as u16 }).bound(0, out),
                ),
            }
        }
    }

    pub open spec fn lfo(self, node: Lfo) -> Result<ParamModel, CompileError> {
        match self.with_lfo() {
            Err(error) => Err(error),
            Ok((held, state)) => match held.with_reg() {
                Err(error) => Err(error),
                Ok((next, out)) => Ok(
                    next.emitted(
                        Op::Lfo {
                            out,
                            state,
                            waveform: node.waveform,
                            rate: node.rate,
                            offset_phase: node.phase,
                            depth: node.depth,
                            centre: node.offset,
                        },
                    ).bound(0, out),
                ),
            },
        }
    }

    pub open spec fn math(self, env: ParamEnv, node: Math) -> Result<ParamModel, CompileError> {
        match self.with_input(env, 0) {
            Err(error) => Err(error),
            Ok((fed, a)) => match fed.with_reg() {
                Err(error) => Err(error),
                Ok((next, out)) => Ok(
                    next.emitted(
                        Op::Math { out, a, b: next.operand(env, 1, node.b), op: node.op },
                    ).bound(0, out),
                ),
            },
        }
    }

    pub open spec fn range(self, env: ParamEnv, node: RangeMap) -> Result<
        ParamModel,
        CompileError,
    > {
        match self.with_input(env, 0) {
            Err(error) => Err(error),
            Ok((fed, a)) => match fed.with_reg() {
                Err(error) => Err(error),
                Ok((next, out)) => Ok(
                    next.emitted(
                        Op::Range {
                            out,
                            a,
                            in_lo: node.in_lo,
                            in_hi: node.in_hi,
                            out_lo: node.out_lo,
                            out_hi: node.out_hi,
                            clamp: node.clamp,
                        },
                    ).bound(0, out),
                ),
            },
        }
    }

    /// The first `count` rungs of a ladder of thresholds, each giving way to the
    /// one above it.
    pub open spec fn ladder(
        self,
        env: ParamEnv,
        node: Switch,
        control: Reg,
        count: nat,
    ) -> Result<(ParamModel, Operand), CompileError>
        decreases count,
    {
        if count == 0 {
            Ok((self, self.operand(env, 1, first_value(node.values@))))
        } else {
            match self.ladder(env, node, control, (count - 1) as nat) {
                Err(error) => Err(error),
                Ok((below, low)) => match below.with_reg() {
                    Err(error) => Err(error),
                    Ok((next, out)) => Ok(
                        (
                            next.emitted(
                                Op::Select {
                                    out,
                                    control,
                                    threshold: node.thresholds@[count - 1],
                                    low,
                                    high: next.operand(
                                        env,
                                        (count + 1) as u8,
                                        node.values@[count as int],
                                    ),
                                },
                            ),
                            Operand::Reg(out),
                        ),
                    ),
                },
            }
        }
    }

    pub open spec fn switch(self, env: ParamEnv, node: Switch) -> Result<ParamModel, CompileError> {
        match self.with_input(env, 0) {
            Err(error) => Err(error),
            Ok((fed, control)) => match fed.ladder(env, node, control, node.rungs()) {
                Err(error) => Err(error),
                Ok((next, top)) => next.carrying(top),
            },
        }
    }

    /// A gate's condition, and that of an earlier one its notes came through.
    pub open spec fn note_gate(self, env: ParamEnv, node: NoteGate) -> Result<
        ParamModel,
        CompileError,
    > {
        match self.with_input(env, 1) {
            Err(error) => Err(error),
            Ok((fed, control)) => match fed.with_reg() {
                Err(error) => Err(error),
                Ok((next, out)) => {
                    let (low, high) = either(node.invert, Real::zeroed(), Real::unit());
                    let open = next.emitted(
                        Op::Select { out, control, threshold: node.threshold, low, high },
                    );
                    match open.gate_above(env, 0) {
                        None => open.gating(env, 0, out),
                        Some(above) => match open.with_reg() {
                            Err(error) => Err(error),
                            Ok((last, both)) => last.emitted(
                                Op::Math {
                                    out: both,
                                    a: out,
                                    b: Operand::Reg(above),
                                    op: MathOp::Multiply,
                                },
                            ).gating(env, 0, both),
                        },
                    }
                },
            },
        }
    }

    /// The first `count` outputs of a key switch, each open while its key is
    /// held.
    pub open spec fn held_gates(self, env: ParamEnv, keys: Seq<u8>, buf: u16, count: nat) -> Result<
        ParamModel,
        CompileError,
    >
        decreases count,
    {
        if count == 0 {
            Ok(self)
        } else {
            match self.held_gates(env, keys, buf, (count - 1) as nat) {
                Err(error) => Err(error),
                Ok(below) => match below.with_reg() {
                    Err(error) => Err(error),
                    Ok((next, out)) => next.emitted(
                        Op::KeyHeld { out, buf, key: keys[count - 1] },
                    ).gating(env, (count - 1) as u8, out),
                },
            }
        }
    }

    /// The first `count` keys of a bank, each setting a latch to its number.
    pub open spec fn bank(self, keys: Seq<u8>, state: u16, buf: u16, count: nat) -> ParamModel
        decreases count,
    {
        if count == 0 {
            self
        } else {
            self.bank(keys, state, buf, (count - 1) as nat).emitted(
                Op::KeyLatch {
                    state,
                    buf,
                    key: keys[count - 1],
                    value: Real::counted((count - 1) as nat),
                },
            )
        }
    }

    /// The first `count` outputs of a key switch, each open while a latch stands
    /// at its number.
    pub open spec fn latched_gates(self, env: ParamEnv, state: u16, count: nat) -> Result<
        ParamModel,
        CompileError,
    >
        decreases count,
    {
        if count == 0 {
            Ok(self)
        } else {
            match self.latched_gates(env, state, (count - 1) as nat) {
                Err(error) => Err(error),
                Ok(below) => match below.with_reg() {
                    Err(error) => Err(error),
                    Ok((next, out)) => next.emitted(
                        Op::LatchIs {
                            out,
                            state,
                            value: Real::counted((count - 1) as nat),
                            initial: Real::zeroed(),
                        },
                    ).gating(env, (count - 1) as u8, out),
                },
            }
        }
    }

    /// The key that moves a latch on.
    pub open spec fn stepping(self, keys: Seq<u8>, state: u16, buf: u16, count: nat) -> ParamModel {
        if keys.len() == 0 {
            self
        } else {
            self.emitted(Op::KeyStep { state, buf, key: keys[0], count: count as u8 })
        }
    }

    pub open spec fn key_switch(self, env: ParamEnv, node: KeySwitch) -> Result<
        ParamModel,
        CompileError,
    > {
        match self.notes(env, 0) {
            None => Ok(self),
            Some(buf) => match node.mode {
                KeySwitchMode::Hold => self.held_gates(env, node.keys@, buf, node.outputs()),
                KeySwitchMode::Toggle => match self.with_latch() {
                    Err(error) => Err(error),
                    Ok((held, state)) => held.stepping(
                        node.keys@,
                        state,
                        buf,
                        node.outputs(),
                    ).latched_gates(env, state, node.outputs()),
                },
                KeySwitchMode::Select => match self.with_latch() {
                    Err(error) => Err(error),
                    Ok((held, state)) => held.bank(
                        node.keys@,
                        state,
                        buf,
                        node.outputs(),
                    ).latched_gates(env, state, node.outputs()),
                },
            },
        }
    }

    /// The value a latch stands at, out of the first `count`.
    pub open spec fn choice(self, env: ParamEnv, values: Seq<Real>, state: u16, count: nat) -> Result<
        (ParamModel, Operand),
        CompileError,
    >
        decreases count,
    {
        if count <= 1 {
            Ok((self, self.operand(env, 1, first_value(values))))
        } else {
            match self.choice(env, values, state, (count - 1) as nat) {
                Err(error) => Err(error),
                Ok((below, low)) => match below.with_reg() {
                    Err(error) => Err(error),
                    Ok((flagged, flag)) => {
                        let told = flagged.emitted(
                            Op::LatchIs {
                                out: flag,
                                state,
                                value: Real::counted((count - 1) as nat),
                                initial: Real::zeroed(),
                            },
                        );
                        match told.with_reg() {
                            Err(error) => Err(error),
                            Ok((next, out)) => Ok(
                                (
                                    next.emitted(
                                        Op::Select {
                                            out,
                                            control: flag,
                                            threshold: Real::halved(),
                                            low,
                                            high: next.operand(
                                                env,
                                                count as u8,
                                                values[count - 1],
                                            ),
                                        },
                                    ),
                                    Operand::Reg(out),
                                ),
                            ),
                        }
                    },
                },
            }
        }
    }

    pub open spec fn key_param(self, env: ParamEnv, node: KeyParam) -> Result<
        ParamModel,
        CompileError,
    > {
        match self.notes(env, 0) {
            None => self.carrying(self.operand(env, 1, first_value(node.values@))),
            Some(buf) => match self.with_latch() {
                Err(error) => Err(error),
                Ok((held, state)) => {
                    let struck = match node.mode {
                        KeyParamMode::Toggle => held.stepping(
                            node.keys@,
                            state,
                            buf,
                            node.choices(),
                        ),
                        KeyParamMode::Select => held.bank(
                            node.keys@,
                            state,
                            buf,
                            smaller_of(node.keys@.len(), node.choices()),
                        ),
                    };
                    match struck.choice(env, node.values@, state, node.choices()) {
                        Err(error) => Err(error),
                        Ok((next, chosen)) => next.carrying(chosen),
                    }
                },
            },
        }
    }

    pub open spec fn note_follow(self, env: ParamEnv, node: NoteFollow) -> Result<
        ParamModel,
        CompileError,
    > {
        match self.notes(env, 0) {
            None => self.constant(unheard(node.what)),
            Some(buf) => match self.with_latch() {
                Err(error) => Err(error),
                Ok((held, state)) => match held.with_reg() {
                    Err(error) => Err(error),
                    Ok((next, out)) => Ok(
                        next.emitted(
                            Op::NoteFollow { out, buf, state, what: node.what },
                        ).bound(0, out),
                    ),
                },
            },
        }
    }

    pub open spec fn cc_in(self, env: ParamEnv, node: CcIn) -> Result<ParamModel, CompileError> {
        match self.notes(env, 0) {
            None => self.constant(node.initial),
            Some(buf) => match self.with_latch() {
                Err(error) => Err(error),
                Ok((held, state)) => match held.with_reg() {
                    Err(error) => Err(error),
                    Ok((next, out)) => Ok(
                        next.emitted(
                            Op::NoteCc {
                                out,
                                buf,
                                state,
                                channel: node.channel,
                                cc: node.cc,
                                initial: node.initial,
                            },
                        ).bound(0, out),
                    ),
                },
            },
        }
    }

    /// An input of the audio or note half driven by what is wired to it.
    pub open spec fn driven(self, env: ParamEnv, port: u8) -> Result<ParamModel, CompileError> {
        match self.input(env, port) {
            Some(reg) => self.driving_audio(env, port, reg),
            None => Ok(self),
        }
    }

    pub open spec fn follower(self, node: EnvelopeFollower) -> Result<ParamModel, CompileError> {
        match self.with_latch() {
            Err(error) => Err(error),
            Ok((held, state)) => match held.with_reg() {
                Err(error) => Err(error),
                Ok((next, out)) => Ok(
                    next.emitted(
                        Op::Follow {
                            out,
                            buf: NO_BUFFER,
                            state,
                            detect: node.detect,
                            attack: node.attack,
                            release: node.release,
                        },
                    ).bound(0, out),
                ),
            },
        }
    }

    /// The gains of the first `count` inputs of a mix.
    pub open spec fn mix_gains(self, env: ParamEnv, count: nat) -> Result<ParamModel, CompileError>
        decreases count,
    {
        if count == 0 {
            Ok(self)
        } else {
            match self.mix_gains(env, (count - 1) as nat) {
                Err(error) => Err(error),
                Ok(below) => below.driven(env, (2 * count - 1) as u8),
            }
        }
    }

    /// A gate's gain, and the latch its fade stands in.
    pub open spec fn gate(self, env: ParamEnv, node: Gate) -> Result<ParamModel, CompileError> {
        match self.with_input(env, 1) {
            Err(error) => Err(error),
            Ok((fed, control)) => match fed.with_latch() {
                Err(error) => Err(error),
                Ok((held, state)) => match held.with_reg() {
                    Err(error) => Err(error),
                    Ok((next, out)) => {
                        let (low, high) = either(
                            node.invert,
                            Real { bits: SILENT_DB },
                            Real::zeroed(),
                        );
                        next.emitted(
                            Op::Select { out, control, threshold: node.threshold, low, high },
                        ).driving_audio(env, 1, out)
                    },
                },
            },
        }
    }

    /// The first `count` parameters of a plugin, where something is wired.
    pub open spec fn plugin_params(
        self,
        env: ParamEnv,
        instance: usize,
        ports: PluginPorts,
        count: nat,
    ) -> Result<ParamModel, CompileError>
        decreases count,
    {
        if count == 0 {
            Ok(self)
        } else {
            match self.plugin_params(env, instance, ports, (count - 1) as nat) {
                Err(error) => Err(error),
                Ok(below) => match below.input(env, (ports.first_param() + count - 1) as u8) {
                    None => Ok(below),
                    Some(reg) => below.driving_param(
                        env,
                        ParamTarget { instance, param: ports.params@[count - 1].id },
                        reg,
                    ),
                },
            }
        }
    }

    pub open spec fn delay_read(self, env: ParamEnv, node: DelayRead) -> Result<
        ParamModel,
        CompileError,
    > {
        match node.ty {
            PortType::Param => match self.with_reg() {
                Err(error) => Err(error),
                Ok((next, out)) => Ok(
                    next.emitted(
                        Op::DelayRead {
                            out,
                            line: line_at(env.lines, node.line)->0 as u16,
                            time: node.time,
                            time_reg: next.input(env, 0),
                        },
                    ).bound(0, out),
                ),
            },
            PortType::Audio { .. } => self.driven(env, 0),
            PortType::Note => Ok(self),
        }
    }

    pub open spec fn delay_write(self, env: ParamEnv, node: DelayWrite) -> Result<
        ParamModel,
        CompileError,
    > {
        match node.ty {
            PortType::Param => match self.with_input(env, 0) {
                Err(error) => Err(error),
                Ok((next, a)) => Ok(
                    next.held_back(
                        Op::DelayWrite { line: line_at(env.lines, node.line)->0 as u16, a },
                    ),
                ),
            },
            _ => Ok(self),
        }
    }

    /// One node's share of the parameter half.
    pub open spec fn compiled(self, env: ParamEnv, kind: NodeKind) -> Result<
        ParamModel,
        CompileError,
    > {
        match kind {
            NodeKind::Constant(node) => self.constant(node.value),
            NodeKind::SlotIn(node) => self.slot(env, node),
            NodeKind::Lfo(node) => self.lfo(node),
            NodeKind::Math(node) => self.math(env, node),
            NodeKind::RangeMap(node) => self.range(env, node),
            NodeKind::Switch(node) => self.switch(env, node),
            NodeKind::NoteGate(node) => self.note_gate(env, node),
            NodeKind::KeySwitch(node) => self.key_switch(env, node),
            NodeKind::KeyParam(node) => self.key_param(env, node),
            NodeKind::NoteFollow(node) => self.note_follow(env, node),
            NodeKind::CcIn(node) => self.cc_in(env, node),
            NodeKind::ParamToCc(_) => self.driven(env, 0),
            NodeKind::EnvelopeFollower(node) => self.follower(node),
            NodeKind::Mix(node) => self.mix_gains(env, smaller_of(node.inputs as nat, 128)),
            NodeKind::Gate(node) => self.gate(env, node),
            NodeKind::Plugin(node) => self.plugin_params(
                env,
                node.instance,
                node.ports,
                wireable_params(node.ports),
            ),
            NodeKind::DelayRead(node) => self.delay_read(env, node),
            NodeKind::DelayWrite(node) => self.delay_write(env, node),
            _ => Ok(self),
        }
    }
}

/// How many parameters of a plugin have a socket with a number.
pub open spec fn wireable_params(ports: PluginPorts) -> nat {
    if ports.first_param() >= 256 {
        0
    } else {
        smaller_of(ports.params@.len(), (256 - ports.first_param()) as nat)
    }
}

/// A node's delay line is one the compiler knows.
pub open spec fn line_known(env: ParamEnv, kind: NodeKind) -> bool {
    match kind {
        NodeKind::DelayRead(node) => line_at(env.lines, node.line) is Some,
        NodeKind::DelayWrite(node) => line_at(env.lines, node.line) is Some,
        _ => true,
    }
}

impl<'a> ParamCx<'a> {
    fn constant(&mut self, value: Real) -> (r: Result<(), CompileError>)
        requires
            old(self)@.wf(),
        ensures
            settled(old(self)@.constant(value), *old(self), *final(self), r),
    {
        let out: Reg = self.take_reg()?;
        self.emit(Op::Const { out, value });
        self.bind_output(0, out);
        Ok(())
    }

    fn carrying(&mut self, operand: Operand) -> (r: Result<(), CompileError>)
        requires
            old(self)@.wf(),
            operand matches Operand::Reg(reg) ==> written(old(self)@.ops, reg),
        ensures
            settled(old(self)@.carrying(operand), *old(self), *final(self), r),
    {
        match operand {
            Operand::Reg(reg) => {
                self.bind_output(0, reg);
                Ok(())
            },
            Operand::Value(value) => self.constant(value),
        }
    }

    fn slot(&mut self, node: &SlotIn) -> (r: Result<(), CompileError>)
        requires
            old(self)@.wf(),
        ensures
            settled(old(self)@.slot(old(self).env(), *node), *old(self), *final(self), r),
    {
        self.check_slot(node.slot)?;
        let out: Reg = self.take_reg()?;
        let slot: u16 = #[verifier::truncate]
        (node.slot as u16);
        self.emit(Op::Slot { out, slot });
        self.bind_output(0, out);
        Ok(())
    }

    fn lfo(&mut self, node: &Lfo) -> (r: Result<(), CompileError>)
        requires
            old(self)@.wf(),
        ensures
            settled(old(self)@.lfo(*node), *old(self), *final(self), r),
    {
        let state: u16 = self.lfo_state()?;
        let out: Reg = self.take_reg()?;
        self.emit(
            Op::Lfo {
                out,
                state,
                waveform: node.waveform,
                rate: node.rate,
                offset_phase: node.phase,
                depth: node.depth,
                centre: node.offset,
            },
        );
        self.bind_output(0, out);
        Ok(())
    }

    fn math(&mut self, node: &Math) -> (r: Result<(), CompileError>)
        requires
            old(self)@.wf(),
        ensures
            settled(old(self)@.math(old(self).env(), *node), *old(self), *final(self), r),
    {
        let a: Reg = self.input_or_zero(0)?;
        let out: Reg = self.take_reg()?;
        let b: Operand = self.operand(1, node.b);
        proof {
            lemma_operands_fit(self@, a, b);
        }
        self.emit(Op::Math { out, a, b, op: node.op });
        self.bind_output(0, out);
        Ok(())
    }

    fn range(&mut self, node: &RangeMap) -> (r: Result<(), CompileError>)
        requires
            old(self)@.wf(),
        ensures
            settled(old(self)@.range(old(self).env(), *node), *old(self), *final(self), r),
    {
        let a: Reg = self.input_or_zero(0)?;
        let out: Reg = self.take_reg()?;
        proof {
            lemma_operands_fit(self@, a, Operand::Reg(a));
        }
        self.emit(
            Op::Range {
                out,
                a,
                in_lo: node.in_lo,
                in_hi: node.in_hi,
                out_lo: node.out_lo,
                out_hi: node.out_hi,
                clamp: node.clamp,
            },
        );
        self.bind_output(0, out);
        Ok(())
    }

    /// One choice between two operands.
    fn select(&mut self, out: Reg, control: Reg, threshold: Real, low: Operand, high: Operand)
        requires
            old(self)@.wf(),
            out < old(self)@.next_reg,
            written(old(self)@.ops, control),
            low matches Operand::Reg(reg) ==> written(old(self)@.ops, reg),
            high matches Operand::Reg(reg) ==> written(old(self)@.ops, reg),
        ensures
            final(self).env() == old(self).env(),
            final(self)@ == old(self)@.emitted(
                (Op::Select { out, control, threshold, low, high }),
            ),
            final(self)@.wf(),
            written(final(self)@.ops, out),
            forall|reg: Reg|
                written(old(self)@.ops, reg) ==> #[trigger] written(final(self)@.ops, reg),
    {
        proof {
            lemma_operands_fit(self@, control, low);
            lemma_operands_fit(self@, control, high);
        }
        self.emit(Op::Select { out, control, threshold, low, high });
    }

    fn switch(&mut self, node: &Switch) -> (r: Result<(), CompileError>)
        requires
            old(self)@.wf(),
        ensures
            settled(old(self)@.switch(old(self).env(), *node), *old(self), *final(self), r),
    {
        let control: Reg = self.input_or_zero(0)?;
        let first: Real = if node.values.len() == 0 {
            Real::zero()
        } else {
            node.values[0]
        };
        let ghost fed = self@;
        let ghost env = self.env();
        let mut low: Operand = self.operand(1, first);
        let mut at: usize = 0;
        while at < node.thresholds.len() && at < MAX_SOCKETS && at + 1 < node.values.len()
            invariant
                at <= node.rungs(),
                env == old(self).env(),
                self.env() == env,
                self@.wf(),
                written(self@.ops, control),
                low matches Operand::Reg(reg) ==> written(self@.ops, reg),
                fed.ladder(env, *node, control, at as nat) == Ok::<
                    (ParamModel, Operand),
                    CompileError,
                >((self@, low)),
                old(self)@.with_input(env, 0) == Ok::<(ParamModel, Reg), CompileError>(
                    (fed, control),
                ),
            decreases node.thresholds@.len() - at,
        {
            proof {
                if self@.with_reg() is Err {
                    lemma_ladder_fails(fed, env, *node, control, (at + 1) as nat, node.rungs());
                }
            }
            let out: Reg = self.take_reg()?;
            let high: Operand = self.operand((at + 2) as u8, node.values[at + 1]);
            self.select(out, control, node.thresholds[at], low, high);
            low = Operand::Reg(out);
            at += 1;
        }
        assert(at == node.rungs());
        self.carrying(low)
    }

    fn note_gate(&mut self, node: &NoteGate) -> (r: Result<(), CompileError>)
        requires
            old(self)@.wf(),
            old(self).lanes_fit(),
        ensures
            settled(old(self)@.note_gate(old(self).env(), *node), *old(self), *final(self), r),
    {
        let control: Reg = self.input_or_zero(1)?;
        let out: Reg = self.take_reg()?;
        let (low, high): (Operand, Operand) = if node.invert {
            (Operand::Value(Real::one()), Operand::Value(Real::zero()))
        } else {
            (Operand::Value(Real::zero()), Operand::Value(Real::one()))
        };
        self.select(out, control, node.threshold, low, high);
        match self.gate_above(0) {
            None => self.bind_note_gate(0, out),
            Some(above) => {
                let both: Reg = self.take_reg()?;
                proof {
                    lemma_operands_fit(self@, out, Operand::Reg(above));
                }
                self.emit(
                    Op::Math { out: both, a: out, b: Operand::Reg(above), op: MathOp::Multiply },
                );
                self.bind_note_gate(0, both)
            },
        }
    }

    fn held_gates(&mut self, node: &KeySwitch, buf: u16, count: usize) -> (r: Result<
        (),
        CompileError,
    >)
        requires
            old(self)@.wf(),
            old(self).lanes_fit(),
            count <= node.keys@.len(),
            count <= MAX_KEYS,
        ensures
            settled(
                old(self)@.held_gates(old(self).env(), node.keys@, buf, count as nat),
                *old(self),
                *final(self),
                r,
            ),
    {
        let ghost before = self@;
        let ghost env = self.env();
        let mut at: usize = 0;
        while at < count
            invariant
                at <= count <= node.keys@.len(),
                count <= MAX_KEYS,
                env == old(self).env(),
                before == old(self)@,
                self.env() == env,
                self.lanes_fit(),
                self@.wf(),
                before.held_gates(env, node.keys@, buf, at as nat) == Ok::<
                    ParamModel,
                    CompileError,
                >(self@),
            decreases count - at,
        {
            proof {
                if before.held_gates(env, node.keys@, buf, (at + 1) as nat) is Err {
                    lemma_held_fails(before, env, node.keys@, buf, (at + 1) as nat, count as nat);
                }
            }
            let out: Reg = self.take_reg()?;
            self.emit(Op::KeyHeld { out, buf, key: node.keys[at] });
            self.bind_note_gate(at as u8, out)?;
            at += 1;
        }
        Ok(())
    }

    fn bank(&mut self, keys: &Vec<u8>, state: u16, buf: u16, count: usize)
        requires
            old(self)@.wf(),
            state < MAX_LATCHES,
            count <= keys@.len(),
            count <= MAX_KEYS,
        ensures
            final(self).env() == old(self).env(),
            final(self)@ == old(self)@.bank(keys@, state, buf, count as nat),
            final(self)@.wf(),
    {
        let ghost before = self@;
        let mut at: usize = 0;
        while at < count
            invariant
                at <= count <= keys@.len(),
                count <= MAX_KEYS,
                state < MAX_LATCHES,
                self.env() == old(self).env(),
                self@.wf(),
                self@ == before.bank(keys@, state, buf, at as nat),
            decreases count - at,
        {
            self.emit(
                Op::KeyLatch { state, buf, key: keys[at], value: Real::from_count(at as u8) },
            );
            at += 1;
        }
    }

    fn stepping(&mut self, keys: &Vec<u8>, state: u16, buf: u16, count: usize)
        requires
            old(self)@.wf(),
            state < MAX_LATCHES,
            count <= MAX_KEYS,
        ensures
            final(self).env() == old(self).env(),
            final(self)@ == old(self)@.stepping(keys@, state, buf, count as nat),
            final(self)@.wf(),
    {
        if keys.len() > 0 {
            self.emit(Op::KeyStep { state, buf, key: keys[0], count: count as u8 });
        }
    }

    fn latched_gates(&mut self, state: u16, count: usize) -> (r: Result<(), CompileError>)
        requires
            old(self)@.wf(),
            old(self).lanes_fit(),
            state < MAX_LATCHES,
            count <= MAX_KEYS,
        ensures
            settled(
                old(self)@.latched_gates(old(self).env(), state, count as nat),
                *old(self),
                *final(self),
                r,
            ),
    {
        let ghost before = self@;
        let ghost env = self.env();
        let mut at: usize = 0;
        while at < count
            invariant
                at <= count <= MAX_KEYS,
                state < MAX_LATCHES,
                env == old(self).env(),
                before == old(self)@,
                self.env() == env,
                self.lanes_fit(),
                self@.wf(),
                before.latched_gates(env, state, at as nat) == Ok::<ParamModel, CompileError>(
                    self@,
                ),
            decreases count - at,
        {
            proof {
                if before.latched_gates(env, state, (at + 1) as nat) is Err {
                    lemma_latched_fails(before, env, state, (at + 1) as nat, count as nat);
                }
            }
            let out: Reg = self.take_reg()?;
            self.emit(
                Op::LatchIs {
                    out,
                    state,
                    value: Real::from_count(at as u8),
                    initial: Real::zero(),
                },
            );
            self.bind_note_gate(at as u8, out)?;
            at += 1;
        }
        Ok(())
    }

    fn key_switch(&mut self, node: &KeySwitch) -> (r: Result<(), CompileError>)
        requires
            old(self)@.wf(),
            old(self).lanes_fit(),
        ensures
            settled(old(self)@.key_switch(old(self).env(), *node), *old(self), *final(self), r),
    {
        let buf: u16 = match self.notes_in(0) {
            Some(buf) => buf,
            None => {
                return Ok(());
            },
        };
        let count: usize = if node.keys.len() < MAX_KEYS {
            node.keys.len()
        } else {
            MAX_KEYS
        };
        match node.mode {
            KeySwitchMode::Hold => self.held_gates(node, buf, count),
            KeySwitchMode::Toggle => {
                let state: u16 = self.latch()?;
                self.stepping(&node.keys, state, buf, count);
                self.latched_gates(state, count)
            },
            KeySwitchMode::Select => {
                let state: u16 = self.latch()?;
                self.bank(&node.keys, state, buf, count);
                self.latched_gates(state, count)
            },
        }
    }

    fn choice(&mut self, values: &Vec<Real>, state: u16, count: usize) -> (r: Result<
        Operand,
        CompileError,
    >)
        requires
            old(self)@.wf(),
            state < MAX_LATCHES,
            count <= values@.len(),
            count <= MAX_KEYS,
        ensures
            stepped(
                old(self)@.choice(old(self).env(), values@, state, count as nat),
                *old(self),
                *final(self),
                r,
            ),
            r matches Ok(Operand::Reg(reg)) ==> written(final(self)@.ops, reg),
    {
        let first: Real = if values.len() == 0 {
            Real::zero()
        } else {
            values[0]
        };
        let ghost before = self@;
        let ghost env = self.env();
        let mut low: Operand = self.operand(1, first);
        let mut at: usize = 1;
        while at < count
            invariant
                1 <= at,
                at <= count || count <= 1 && at == 1,
                count <= values@.len(),
                count <= MAX_KEYS,
                state < MAX_LATCHES,
                env == old(self).env(),
                before == old(self)@,
                self.env() == env,
                self@.wf(),
                low matches Operand::Reg(reg) ==> written(self@.ops, reg),
                before.choice(env, values@, state, at as nat) == Ok::<
                    (ParamModel, Operand),
                    CompileError,
                >((self@, low)),
            decreases count - at,
        {
            proof {
                if before.choice(env, values@, state, (at + 1) as nat) is Err {
                    lemma_choice_fails(
                        before,
                        env,
                        values@,
                        state,
                        (at + 1) as nat,
                        count as nat,
                    );
                }
            }
            let flag: Reg = self.take_reg()?;
            self.emit(
                Op::LatchIs {
                    out: flag,
                    state,
                    value: Real::from_count(at as u8),
                    initial: Real::zero(),
                },
            );
            let out: Reg = self.take_reg()?;
            let high: Operand = self.operand((at + 1) as u8, values[at]);
            self.select(out, flag, Real::half(), low, high);
            low = Operand::Reg(out);
            at += 1;
        }
        Ok(low)
    }

    fn key_param(&mut self, node: &KeyParam) -> (r: Result<(), CompileError>)
        requires
            old(self)@.wf(),
        ensures
            settled(old(self)@.key_param(old(self).env(), *node), *old(self), *final(self), r),
    {
        let buf: u16 = match self.notes_in(0) {
            Some(buf) => buf,
            None => {
                let first: Real = if node.values.len() == 0 {
                    Real::zero()
                } else {
                    node.values[0]
                };
                let operand: Operand = self.operand(1, first);
                return self.carrying(operand);
            },
        };
        let state: u16 = self.latch()?;
        let count: usize = if node.values.len() < MAX_KEYS {
            node.values.len()
        } else {
            MAX_KEYS
        };
        match node.mode {
            KeyParamMode::Toggle => {
                self.stepping(&node.keys, state, buf, count);
            },
            KeyParamMode::Select => {
                let keys: usize = if node.keys.len() < count {
                    node.keys.len()
                } else {
                    count
                };
                self.bank(&node.keys, state, buf, keys);
            },
        }
        let chosen: Operand = self.choice(&node.values, state, count)?;
        self.carrying(chosen)
    }

    fn note_follow(&mut self, node: &NoteFollow) -> (r: Result<(), CompileError>)
        requires
            old(self)@.wf(),
        ensures
            settled(old(self)@.note_follow(old(self).env(), *node), *old(self), *final(self), r),
    {
        match self.notes_in(0) {
            None => {
                let value: Real = match node.what {
                    Follow::KeyTrack => Real::half(),
                    _ => Real::zero(),
                };
                self.constant(value)
            },
            Some(buf) => {
                let state: u16 = self.latch()?;
                let out: Reg = self.take_reg()?;
                self.emit(Op::NoteFollow { out, buf, state, what: node.what });
                self.bind_output(0, out);
                Ok(())
            },
        }
    }

    fn cc_in(&mut self, node: &CcIn) -> (r: Result<(), CompileError>)
        requires
            old(self)@.wf(),
        ensures
            settled(old(self)@.cc_in(old(self).env(), *node), *old(self), *final(self), r),
    {
        match self.notes_in(0) {
            None => self.constant(node.initial),
            Some(buf) => {
                let state: u16 = self.latch()?;
                let out: Reg = self.take_reg()?;
                self.emit(
                    Op::NoteCc {
                        out,
                        buf,
                        state,
                        channel: node.channel,
                        cc: node.cc,
                        initial: node.initial,
                    },
                );
                self.bind_output(0, out);
                Ok(())
            },
        }
    }

    fn driven(&mut self, port: u8) -> (r: Result<(), CompileError>)
        requires
            old(self)@.wf(),
            old(self).lanes_fit(),
        ensures
            settled(old(self)@.driven(old(self).env(), port), *old(self), *final(self), r),
    {
        match self.input(port) {
            Some(reg) => self.drive_audio(port, reg),
            None => Ok(()),
        }
    }

    fn follower(&mut self, node: &EnvelopeFollower) -> (r: Result<(), CompileError>)
        requires
            old(self)@.wf(),
        ensures
            settled(old(self)@.follower(*node), *old(self), *final(self), r),
    {
        let state: u16 = self.latch()?;
        let out: Reg = self.take_reg()?;
        self.emit(
            Op::Follow {
                out,
                buf: NO_BUFFER,
                state,
                detect: node.detect,
                attack: node.attack,
                release: node.release,
            },
        );
        self.bind_output(0, out);
        Ok(())
    }

    fn mix_gains(&mut self, count: u8) -> (r: Result<(), CompileError>)
        requires
            old(self)@.wf(),
            old(self).lanes_fit(),
            count <= 128,
        ensures
            settled(
                old(self)@.mix_gains(old(self).env(), count as nat),
                *old(self),
                *final(self),
                r,
            ),
    {
        let ghost before = self@;
        let ghost env = self.env();
        let mut at: u8 = 0;
        while at < count
            invariant
                at <= count <= 128,
                env == old(self).env(),
                before == old(self)@,
                self.env() == env,
                self.lanes_fit(),
                self@.wf(),
                before.mix_gains(env, at as nat) == Ok::<ParamModel, CompileError>(self@),
            decreases count - at,
        {
            proof {
                if before.mix_gains(env, (at + 1) as nat) is Err {
                    lemma_mix_fails(before, env, (at + 1) as nat, count as nat);
                }
            }
            self.driven(2 * at + 1)?;
            at += 1;
        }
        Ok(())
    }

    fn gate(&mut self, node: &Gate) -> (r: Result<(), CompileError>)
        requires
            old(self)@.wf(),
            old(self).lanes_fit(),
        ensures
            settled(old(self)@.gate(old(self).env(), *node), *old(self), *final(self), r),
    {
        let control: Reg = self.input_or_zero(1)?;
        let _state: u16 = self.latch()?;
        let out: Reg = self.take_reg()?;
        let shut: Real = Real { bits: SILENT_DB };
        let (low, high): (Operand, Operand) = if node.invert {
            (Operand::Value(Real::zero()), Operand::Value(shut))
        } else {
            (Operand::Value(shut), Operand::Value(Real::zero()))
        };
        self.select(out, control, node.threshold, low, high);
        self.drive_audio(1, out)
    }

    fn plugin_params(&mut self, node: &Plugin) -> (r: Result<(), CompileError>)
        requires
            old(self)@.wf(),
            old(self).lanes_fit(),
        ensures
            settled(
                old(self)@.plugin_params(
                    old(self).env(),
                    node.instance,
                    node.ports,
                    wireable_params(node.ports),
                ),
                *old(self),
                *final(self),
                r,
            ),
    {
        let ghost before = self@;
        let ghost env = self.env();
        if node.ports.audio_in.len() >= 256 {
            return Ok(());
        }
        let first: usize = node.ports.audio_in.len() + if node.ports.accepts_notes {
            1
        } else {
            0
        };
        if first >= 256 {
            return Ok(());
        }
        let mut at: usize = 0;
        while at < node.ports.params.len() && at + first < 256
            invariant
                first == node.ports.first_param(),
                first < 256,
                at <= wireable_params(node.ports),
                env == old(self).env(),
                before == old(self)@,
                self.env() == env,
                self.lanes_fit(),
                self@.wf(),
                before.plugin_params(env, node.instance, node.ports, at as nat) == Ok::<
                    ParamModel,
                    CompileError,
                >(self@),
            decreases node.ports.params@.len() - at,
        {
            proof {
                if before.plugin_params(env, node.instance, node.ports, (at + 1) as nat) is Err {
                    lemma_plugin_fails(
                        before,
                        env,
                        node.instance,
                        node.ports,
                        (at + 1) as nat,
                        wireable_params(node.ports),
                    );
                }
            }
            if let Some(reg) = self.input((first + at) as u8) {
                let target: ParamTarget = ParamTarget {
                    instance: node.instance,
                    param: node.ports.params[at].id,
                };
                self.drive_param(target, reg)?;
            }
            at += 1;
        }
        Ok(())
    }

    fn delay_read(&mut self, node: &DelayRead) -> (r: Result<(), CompileError>)
        requires
            old(self)@.wf(),
            old(self).lanes_fit(),
            line_at(old(self).env().lines, node.line) is Some,
        ensures
            settled(old(self)@.delay_read(old(self).env(), *node), *old(self), *final(self), r),
    {
        match node.ty {
            PortType::Param => {
                let out: Reg = self.take_reg()?;
                let line: u16 = self.line_index(node.line);
                let time_reg: Option<Reg> = self.input(0);
                proof {
                    if let Some(reg) = time_reg {
                        lemma_operands_fit(self@, reg, Operand::Reg(reg));
                    }
                }
                self.emit(Op::DelayRead { out, line, time: node.time, time_reg });
                self.bind_output(0, out);
                Ok(())
            },
            PortType::Audio { .. } => self.driven(0),
            PortType::Note => Ok(()),
        }
    }

    fn delay_write(&mut self, node: &DelayWrite) -> (r: Result<(), CompileError>)
        requires
            old(self)@.wf(),
            line_at(old(self).env().lines, node.line) is Some,
        ensures
            settled(old(self)@.delay_write(old(self).env(), *node), *old(self), *final(self), r),
    {
        match node.ty {
            PortType::Param => {
                let a: Reg = self.input_or_zero(0)?;
                let line: u16 = self.line_index(node.line);
                proof {
                    lemma_operands_fit(self@, a, Operand::Reg(a));
                }
                self.emit_deferred(Op::DelayWrite { line, a });
                Ok(())
            },
            _ => Ok(()),
        }
    }

    /// Compiles one node's share of the parameter half.
    pub fn compile(&mut self, kind: &NodeKind) -> (r: Result<(), CompileError>)
        requires
            old(self)@.wf(),
            old(self).lanes_fit(),
            line_known(old(self).env(), *kind),
        ensures
            settled(old(self)@.compiled(old(self).env(), *kind), *old(self), *final(self), r),
    {
        match kind {
            NodeKind::Constant(node) => self.constant(node.value),
            NodeKind::SlotIn(node) => self.slot(node),
            NodeKind::Lfo(node) => self.lfo(node),
            NodeKind::Math(node) => self.math(node),
            NodeKind::RangeMap(node) => self.range(node),
            NodeKind::Switch(node) => self.switch(node),
            NodeKind::NoteGate(node) => self.note_gate(node),
            NodeKind::KeySwitch(node) => self.key_switch(node),
            NodeKind::KeyParam(node) => self.key_param(node),
            NodeKind::NoteFollow(node) => self.note_follow(node),
            NodeKind::CcIn(node) => self.cc_in(node),
            NodeKind::ParamToCc(_) => self.driven(0),
            NodeKind::EnvelopeFollower(node) => self.follower(node),
            NodeKind::Mix(node) => {
                let count: u8 = if node.inputs < 128 {
                    node.inputs
                } else {
                    128
                };
                self.mix_gains(count)
            },
            NodeKind::Gate(node) => self.gate(node),
            NodeKind::Plugin(node) => self.plugin_params(node),
            NodeKind::DelayRead(node) => self.delay_read(node),
            NodeKind::DelayWrite(node) => self.delay_write(node),
            _ => Ok(()),
        }
    }
}

/// Registers that have been written exist.
proof fn lemma_operands_fit(model: ParamModel, a: Reg, b: Operand)
    requires
        model.wf(),
        written(model.ops, a),
        b matches Operand::Reg(reg) ==> written(model.ops, reg),
    ensures
        a < MAX_REGISTERS,
        b matches Operand::Reg(reg) ==> reg < MAX_REGISTERS,
{
    lemma_written_fits(model.ops, a);
    if let Operand::Reg(reg) = b {
        lemma_written_fits(model.ops, reg);
    }
}

proof fn lemma_ladder_fails(
    model: ParamModel,
    env: ParamEnv,
    node: Switch,
    control: Reg,
    at: nat,
    count: nat,
)
    requires
        at <= count,
        model.ladder(env, node, control, at) is Err,
    ensures
        model.ladder(env, node, control, count) == model.ladder(env, node, control, at),
    decreases count,
{
    if at < count {
        lemma_ladder_fails(model, env, node, control, at, (count - 1) as nat);
    }
}

proof fn lemma_held_fails(
    model: ParamModel,
    env: ParamEnv,
    keys: Seq<u8>,
    buf: u16,
    at: nat,
    count: nat,
)
    requires
        at <= count,
        model.held_gates(env, keys, buf, at) is Err,
    ensures
        model.held_gates(env, keys, buf, count) == model.held_gates(env, keys, buf, at),
    decreases count,
{
    if at < count {
        lemma_held_fails(model, env, keys, buf, at, (count - 1) as nat);
    }
}

proof fn lemma_latched_fails(model: ParamModel, env: ParamEnv, state: u16, at: nat, count: nat)
    requires
        at <= count,
        model.latched_gates(env, state, at) is Err,
    ensures
        model.latched_gates(env, state, count) == model.latched_gates(env, state, at),
    decreases count,
{
    if at < count {
        lemma_latched_fails(model, env, state, at, (count - 1) as nat);
    }
}

proof fn lemma_choice_fails(
    model: ParamModel,
    env: ParamEnv,
    values: Seq<Real>,
    state: u16,
    at: nat,
    count: nat,
)
    requires
        1 < at <= count,
        model.choice(env, values, state, at) is Err,
    ensures
        model.choice(env, values, state, count) == model.choice(env, values, state, at),
    decreases count,
{
    if at < count {
        lemma_choice_fails(model, env, values, state, at, (count - 1) as nat);
    }
}

proof fn lemma_mix_fails(model: ParamModel, env: ParamEnv, at: nat, count: nat)
    requires
        at <= count,
        model.mix_gains(env, at) is Err,
    ensures
        model.mix_gains(env, count) == model.mix_gains(env, at),
    decreases count,
{
    if at < count {
        lemma_mix_fails(model, env, at, (count - 1) as nat);
    }
}

proof fn lemma_plugin_fails(
    model: ParamModel,
    env: ParamEnv,
    instance: usize,
    ports: PluginPorts,
    at: nat,
    count: nat,
)
    requires
        at <= count,
        model.plugin_params(env, instance, ports, at) is Err,
    ensures
        model.plugin_params(env, instance, ports, count) == model.plugin_params(
            env,
            instance,
            ports,
            at,
        ),
    decreases count,
{
    if at < count {
        lemma_plugin_fails(model, env, instance, ports, at, (count - 1) as nat);
    }
}

/// Compiling a node closes no stage, and holds the writes to delay lines back to
/// its end.
impl ParamModel {
    /// Where the operations of the stage at hand start.
    pub open spec fn stage_start(self) -> int {
        if self.spans.len() == 0 {
            0
        } else {
            self.spans.last().end as int
        }
    }

    /// No write to a delay line has run in this stage, and whatever was held back
    /// is one.
    pub open spec fn writes_wait(self) -> bool {
        &&& forall|i: int|
            self.stage_start() <= i < self.ops.len() ==> !(#[trigger] self.ops[i] is DelayWrite)
        &&& forall|i: int|
            0 <= i < self.deferred.len() ==> #[trigger] self.deferred[i] is DelayWrite
    }

    pub open spec fn goes_on_to(self, next: ParamModel) -> bool {
        &&& next.spans == self.spans
        &&& self.ops.len() <= next.ops.len()
        &&& forall|i: int| 0 <= i < self.ops.len() ==> #[trigger] next.ops[i] == self.ops[i]
        &&& self.writes_wait() ==> next.writes_wait()
    }

    proof fn lemma_ladder_goes_on(self, env: ParamEnv, node: Switch, control: Reg, count: nat)
        ensures
            self.ladder(env, node, control, count) matches Ok((next, top)) ==> self.goes_on_to(next),
        decreases count,
    {
        if count > 0 {
            self.lemma_ladder_goes_on(env, node, control, (count - 1) as nat);
        }
    }

    proof fn lemma_held_gates_goes_on(self, env: ParamEnv, keys: Seq<u8>, buf: u16, count: nat)
        ensures
            self.held_gates(env, keys, buf, count) matches Ok(next) ==> self.goes_on_to(next),
        decreases count,
    {
        if count > 0 {
            self.lemma_held_gates_goes_on(env, keys, buf, (count - 1) as nat);
        }
    }

    proof fn lemma_bank_goes_on(self, keys: Seq<u8>, state: u16, buf: u16, count: nat)
        ensures
            self.goes_on_to(self.bank(keys, state, buf, count)),
        decreases count,
    {
        if count > 0 {
            self.lemma_bank_goes_on(keys, state, buf, (count - 1) as nat);
        }
    }

    proof fn lemma_latched_gates_goes_on(self, env: ParamEnv, state: u16, count: nat)
        ensures
            self.latched_gates(env, state, count) matches Ok(next) ==> self.goes_on_to(next),
        decreases count,
    {
        if count > 0 {
            self.lemma_latched_gates_goes_on(env, state, (count - 1) as nat);
        }
    }

    proof fn lemma_choice_goes_on(self, env: ParamEnv, values: Seq<Real>, state: u16, count: nat)
        ensures
            self.choice(env, values, state, count) matches Ok((next, chosen)) ==> self.goes_on_to(next),
        decreases count,
    {
        if count > 1 {
            self.lemma_choice_goes_on(env, values, state, (count - 1) as nat);
        }
    }

    proof fn lemma_mix_gains_goes_on(self, env: ParamEnv, count: nat)
        ensures
            self.mix_gains(env, count) matches Ok(next) ==> self.goes_on_to(next),
        decreases count,
    {
        if count > 0 {
            self.lemma_mix_gains_goes_on(env, (count - 1) as nat);
        }
    }

    proof fn lemma_plugin_params_goes_on(
        self,
        env: ParamEnv,
        instance: usize,
        ports: PluginPorts,
        count: nat,
    )
        ensures
            self.plugin_params(env, instance, ports, count) matches Ok(next) ==> self.goes_on_to(next),
        decreases count,
    {
        if count > 0 {
            self.lemma_plugin_params_goes_on(env, instance, ports, (count - 1) as nat);
        }
    }

    proof fn lemma_key_switch_goes_on(self, env: ParamEnv, node: KeySwitch)
        ensures
            self.key_switch(env, node) matches Ok(next) ==> self.goes_on_to(next),
    {
        if let Some(buf) = self.notes(env, 0) {
            self.lemma_held_gates_goes_on(env, node.keys@, buf, node.outputs());
            if let Ok((held, state)) = self.with_latch() {
                held.lemma_bank_goes_on(node.keys@, state, buf, node.outputs());
                held.stepping(node.keys@, state, buf, node.outputs()).lemma_latched_gates_goes_on(
                    env,
                    state,
                    node.outputs(),
                );
                held.bank(node.keys@, state, buf, node.outputs()).lemma_latched_gates_goes_on(
                    env,
                    state,
                    node.outputs(),
                );
            }
        }
    }

    proof fn lemma_key_param_goes_on(self, env: ParamEnv, node: KeyParam)
        ensures
            self.key_param(env, node) matches Ok(next) ==> self.goes_on_to(next),
    {
        if let Some(buf) = self.notes(env, 0) {
            if let Ok((held, state)) = self.with_latch() {
                let count = smaller_of(node.keys@.len(), node.choices());
                held.lemma_bank_goes_on(node.keys@, state, buf, count);
                held.stepping(node.keys@, state, buf, node.choices()).lemma_choice_goes_on(
                    env,
                    node.values@,
                    state,
                    node.choices(),
                );
                held.bank(node.keys@, state, buf, count).lemma_choice_goes_on(
                    env,
                    node.values@,
                    state,
                    node.choices(),
                );
            }
        }
    }

    proof fn lemma_math_goes_on(self, env: ParamEnv, node: Math)
        ensures
            self.math(env, node) matches Ok(next) ==> self.goes_on_to(next),
    {
    }

    proof fn lemma_range_goes_on(self, env: ParamEnv, node: RangeMap)
        ensures
            self.range(env, node) matches Ok(next) ==> self.goes_on_to(next),
    {
    }

    proof fn lemma_note_gate_goes_on(self, env: ParamEnv, node: NoteGate)
        ensures
            self.note_gate(env, node) matches Ok(next) ==> self.goes_on_to(next),
    {
    }

    proof fn lemma_note_follow_goes_on(self, env: ParamEnv, node: NoteFollow)
        ensures
            self.note_follow(env, node) matches Ok(next) ==> self.goes_on_to(next),
    {
    }

    proof fn lemma_cc_in_goes_on(self, env: ParamEnv, node: CcIn)
        ensures
            self.cc_in(env, node) matches Ok(next) ==> self.goes_on_to(next),
    {
    }

    proof fn lemma_gate_goes_on(self, env: ParamEnv, node: Gate)
        ensures
            self.gate(env, node) matches Ok(next) ==> self.goes_on_to(next),
    {
    }

    proof fn lemma_delay_read_goes_on(self, env: ParamEnv, node: DelayRead)
        ensures
            self.delay_read(env, node) matches Ok(next) ==> self.goes_on_to(next),
    {
    }

    proof fn lemma_delay_write_goes_on(self, env: ParamEnv, node: DelayWrite)
        ensures
            self.delay_write(env, node) matches Ok(next) ==> self.goes_on_to(next),
    {
    }

    proof fn lemma_lfo_goes_on(self, node: Lfo)
        ensures
            self.lfo(node) matches Ok(next) ==> self.goes_on_to(next),
    {
    }

    proof fn lemma_follower_goes_on(self, node: EnvelopeFollower)
        ensures
            self.follower(node) matches Ok(next) ==> self.goes_on_to(next),
    {
    }

    pub proof fn lemma_compiled_goes_on(self, env: ParamEnv, kind: NodeKind)
        ensures
            self.compiled(env, kind) matches Ok(next) ==> self.goes_on_to(next),
    {
        match kind {
            NodeKind::Switch(node) => {
                if let Ok((fed, control)) = self.with_input(env, 0) {
                    fed.lemma_ladder_goes_on(env, node, control, node.rungs());
                }
            },
            NodeKind::KeySwitch(node) => {
                self.lemma_key_switch_goes_on(env, node);
            },
            NodeKind::KeyParam(node) => {
                self.lemma_key_param_goes_on(env, node);
            },
            NodeKind::Mix(node) => {
                self.lemma_mix_gains_goes_on(env, smaller_of(node.inputs as nat, 128));
            },
            NodeKind::Plugin(node) => {
                self.lemma_plugin_params_goes_on(
                    env,
                    node.instance,
                    node.ports,
                    wireable_params(node.ports),
                );
            },
            NodeKind::Math(node) => {
                self.lemma_math_goes_on(env, node);
            },
            NodeKind::RangeMap(node) => {
                self.lemma_range_goes_on(env, node);
            },
            NodeKind::NoteGate(node) => {
                self.lemma_note_gate_goes_on(env, node);
            },
            NodeKind::NoteFollow(node) => {
                self.lemma_note_follow_goes_on(env, node);
            },
            NodeKind::CcIn(node) => {
                self.lemma_cc_in_goes_on(env, node);
            },
            NodeKind::Gate(node) => {
                self.lemma_gate_goes_on(env, node);
            },
            NodeKind::DelayRead(node) => {
                self.lemma_delay_read_goes_on(env, node);
            },
            NodeKind::DelayWrite(node) => {
                self.lemma_delay_write_goes_on(env, node);
            },
            NodeKind::Lfo(node) => {
                self.lemma_lfo_goes_on(node);
            },
            NodeKind::EnvelopeFollower(node) => {
                self.lemma_follower_goes_on(node);
            },
            _ => {},
        }
    }
}

} // verus!
