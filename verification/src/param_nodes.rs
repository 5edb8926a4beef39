//! What the nodes of the parameter half are for: what each leaves on its sockets, what it
//! reads, and what it drives.
use vstd::prelude::*;
use crate::emit_params::{smaller_of, wireable_params, SILENT_DB};
use crate::error::CompileError;
use crate::graph::source;
use crate::ir::{
    Follow, NodeId, Op, Operand, ParamTarget, Reg, MAX_AUDIO_LANES, MAX_GRAPH_PARAMS, MAX_LATCHES,
    MAX_REGISTERS,
};
use crate::nodes::{
    CcIn, Gate, KeyParam, KeyParamMode, KeySwitch, KeySwitchMode, Math, NodeKind, NoteFollow,
    NoteGate, Plugin, RangeMap, Switch,
};
use crate::note_state::NotesModel;
use crate::number::{law_counts_are_in_order, Real};
use crate::param_cx::{writes, ParamEnv, ParamModel};
use crate::params::{law_latch_opens_one, ParamsModel};
use crate::settings::set_by;
use crate::tables::lookup;

verus! {

/// A node whose value comes of one operation leaves it on its first output: in a register
/// that nothing wrote before, by an operation that carries its settings.
pub proof fn law_a_node_leaves_its_value_on_its_socket(
    model: ParamModel,
    env: ParamEnv,
    kind: NodeKind,
    next: ParamModel,
)
    requires
        kind is Constant || kind is SlotIn || kind is Lfo || kind is Math || kind is RangeMap
            || kind is EnvelopeFollower || (kind is NoteFollow && model.notes(env, 0) is Some) || (
        kind is CcIn && model.notes(env, 0) is Some) || (kind matches NodeKind::DelayRead(node)
            && node.ty is Param),
        model.compiled(env, kind) == Ok::<ParamModel, CompileError>(next),
    ensures
        model.ops.len() < next.ops.len(),
        forall|i: int| 0 <= i < model.ops.len() ==> #[trigger] next.ops[i] == model.ops[i],
        ({
            let op = next.ops[next.ops.len() - 1];
            &&& set_by(op, model.id, kind, next.latch_nodes, next.lfo_nodes)
            &&& writes(op) matches Some(out) && out >= model.next_reg && out < next.next_reg
                && next.reg_of == model.reg_of.push(((model.id, 0u8), out))
            &&& kind matches NodeKind::Constant(node) ==> (op matches Op::Const { value, .. }
                && value == node.value)
            &&& kind is SlotIn ==> op is Slot
            &&& kind is Lfo ==> op is Lfo
            &&& kind is Math ==> op is Math
            &&& kind is RangeMap ==> op is Range
            &&& kind is EnvelopeFollower ==> op is Follow
            &&& kind is NoteFollow ==> op is NoteFollow
            &&& kind is CcIn ==> op is NoteCc
            &&& kind is DelayRead ==> op is DelayRead
        }),
{
}

/// An automation slot that the host does not have is refused, and no other.
pub proof fn law_a_slot_is_one_the_host_has(model: ParamModel, env: ParamEnv, kind: NodeKind)
    requires
        kind is SlotIn,
        model.next_reg < MAX_REGISTERS,
    ensures
        kind matches NodeKind::SlotIn(node) ==> {
            &&& node.slot >= env.slot_count ==> model.compiled(env, kind) == Err::<
                ParamModel,
                CompileError,
            >(CompileError::BadSlot { node: model.id, slot: node.slot })
            &&& node.slot < env.slot_count ==> model.compiled(env, kind) is Ok
        },
{
}

/// Whether some operation of a list leaves nothing in a register.
pub open spec fn holds_nothing(ops: Seq<Op>, reg: Reg) -> bool {
    exists|i: int|
        0 <= i < ops.len() && (#[trigger] ops[i] matches Op::Const { out, value } && out == reg
            && !value.nan() && value.rank() == 0)
}

proof fn lemma_zero_from(ops: Seq<Op>, at: int)
    requires
        0 <= at,
    ensures
        crate::param_cx::zero_from(ops, at) matches Some(reg) ==> holds_nothing(ops, reg),
    decreases ops.len() - at,
{
    if at < ops.len() {
        if let Some(reg) = crate::param_cx::zero_from(ops, at) {
            match ops[at] {
                Op::Const { out, value } if value.equal(Real::zeroed()) => {
                    assert(ops[at] matches Op::Const { out, value } && out == reg);
                },
                _ => {
                    lemma_zero_from(ops, at + 1);
                },
            }
        }
    }
}

proof fn lemma_with_input(model: ParamModel, env: ParamEnv, port: u8)
    ensures
        model.with_input(env, port) matches Ok((fed, reg)) ==> {
            &&& model.input(env, port) matches Some(wired) ==> reg == wired && fed == model
            &&& model.input(env, port) is None ==> holds_nothing(fed.ops, reg)
            &&& fed.id == model.id
            &&& fed.reg_of == model.reg_of
        },
{
    lemma_zero_from(model.ops, 0);
    if model.input(env, port) is None && crate::param_cx::zero_from(model.ops, 0) is None {
        if let Ok((fed, reg)) = model.with_zero() {
            assert(fed.ops[fed.ops.len() - 1] matches Op::Const { out, value } && out == reg);
        }
    }
}

/// Arithmetic reads its first socket on the left and its second on the right. Nothing
/// wired to the first is nought; nothing wired to the second is the number the node was set
/// to.
pub proof fn law_arithmetic_reads_its_sockets(
    model: ParamModel,
    env: ParamEnv,
    node: Math,
    next: ParamModel,
)
    requires
        model.compiled(env, NodeKind::Math(node)) == Ok::<ParamModel, CompileError>(next),
    ensures
        next.ops.last() matches Op::Math { a, b, op, .. } && {
            &&& op == node.op
            &&& model.input(env, 0) matches Some(wired) ==> a == wired
            &&& model.input(env, 0) is None ==> holds_nothing(next.ops.drop_last(), a)
            &&& model.input(env, 1) matches Some(wired) ==> b == Operand::Reg(wired)
            &&& model.input(env, 1) is None ==> b == Operand::Value(node.b)
        },
{
    lemma_with_input(model, env, 0);
    if let Ok((fed, a)) = model.with_input(env, 0) {
        assert(next.ops.drop_last() =~= fed.ops);
    }
}

/// A range maps what is wired to its socket, or nought.
pub proof fn law_a_range_reads_its_socket(
    model: ParamModel,
    env: ParamEnv,
    node: RangeMap,
    next: ParamModel,
)
    requires
        model.compiled(env, NodeKind::RangeMap(node)) == Ok::<ParamModel, CompileError>(next),
    ensures
        next.ops.last() matches Op::Range { a, .. } && {
            &&& model.input(env, 0) matches Some(wired) ==> a == wired
            &&& model.input(env, 0) is None ==> holds_nothing(next.ops.drop_last(), a)
        },
{
    lemma_with_input(model, env, 0);
    if let Ok((fed, a)) = model.with_input(env, 0) {
        assert(next.ops.drop_last() =~= fed.ops);
    }
}

/// What is wired to a socket is what the node at the other end of the link has left on its
/// own: where just one register stands behind that output, it is the one that is read.
pub proof fn law_an_input_reads_what_is_wired(
    model: ParamModel,
    env: ParamEnv,
    port: u8,
    from: (NodeId, u8),
    i: int,
)
    requires
        source(env.links, model.id, port) == Some(from),
        0 <= i < model.reg_of.len(),
        model.reg_of[i].0 == from,
        forall|j: int| 0 <= j < i ==> (#[trigger] model.reg_of[j]).0 != from,
    ensures
        model.input(env, port) == Some(model.reg_of[i].1),
{
    lemma_lookup_first(model.reg_of, from, 0, i);
}

proof fn lemma_lookup_first<V>(table: Seq<((u32, u8), V)>, key: (u32, u8), at: int, i: int)
    requires
        0 <= at <= i < table.len(),
        table[i].0 == key,
        forall|j: int| at <= j < i ==> (#[trigger] table[j]).0 != key,
    ensures
        crate::tables::lookup_from(table, key, at) == Some(table[i].1),
    decreases i - at,
{
    if at < i {
        lemma_lookup_first(table, key, at + 1, i);
    }
}

/// With no notes wired in, a reading of the notes gives the middle of the keyboard for a
/// key and nought for anything else, and a controller stands where it starts.
pub proof fn law_readings_without_notes(model: ParamModel, env: ParamEnv, kind: NodeKind, next: ParamModel)
    requires
        kind is NoteFollow || kind is CcIn,
        model.notes(env, 0) is None,
        model.compiled(env, kind) == Ok::<ParamModel, CompileError>(next),
    ensures
        next.ops.last() matches Op::Const { out, value } && {
            &&& next.reg_of == model.reg_of.push(((model.id, 0u8), out))
            &&& kind matches NodeKind::CcIn(node) ==> value == node.initial
            &&& kind matches NodeKind::NoteFollow(node) ==> if node.what is KeyTrack {
                value == Real::halved()
            } else {
                value.rank() == 0 && !value.nan()
            }
        },
{
}

/// Where some operations leave the parameters, one after the other.
pub open spec fn worked(
    state: ParamsModel,
    ops: Seq<Op>,
    slots: Seq<Real>,
    notes: NotesModel,
) -> ParamsModel
    decreases ops.len(),
{
    if ops.len() == 0 {
        state
    } else {
        worked(state, ops.drop_last(), slots, notes).did(ops.last(), slots, notes)
    }
}

/// What stands for an operand.
pub open spec fn operand_value(state: ParamsModel, operand: Operand) -> Real {
    match operand {
        Operand::Reg(reg) => state.registers[reg as int],
        Operand::Value(value) => value,
    }
}

/// What a node's value socket stands for: the register wired to it as it was before the
/// node ran, or the number the node was set to.
pub open spec fn socket_value(
    model: ParamModel,
    env: ParamEnv,
    state: ParamsModel,
    port: int,
    value: Real,
) -> Real {
    match model.input(env, port as u8) {
        Some(reg) => state.registers[reg as int],
        None => value,
    }
}

/// Every register that stands behind a socket has been handed out.
pub open spec fn regs_handed_out(model: ParamModel) -> bool {
    &&& model.next_reg <= MAX_REGISTERS
    &&& forall|i: int|
        0 <= i < model.reg_of.len() ==> (#[trigger] model.reg_of[i]).1 < model.next_reg
}

proof fn lemma_input_handed_out(model: ParamModel, env: ParamEnv, port: u8)
    requires
        regs_handed_out(model),
    ensures
        model.input(env, port) matches Some(reg) ==> reg < model.next_reg,
{
    if let Some(from) = source(env.links, model.id, port) {
        crate::tables::lemma_lookup_from(model.reg_of, from, 0);
    }
}

proof fn lemma_worked_push(
    state: ParamsModel,
    ops: Seq<Op>,
    op: Op,
    slots: Seq<Real>,
    notes: NotesModel,
)
    ensures
        worked(state, ops.push(op), slots, notes) == worked(state, ops, slots, notes).did(
            op,
            slots,
            notes,
        ),
{
    assert(ops.push(op).drop_last() =~= ops);
}

/// Whether a control lies at a threshold or above it.
pub open spec fn reaches(at: Real, threshold: Real) -> bool {
    !at.nan() && !threshold.nan() && at.rank() >= threshold.rank()
}

/// The thresholds that a control has reached, of the first `count`: `last` is the last of
/// them, or none is.
pub open spec fn last_reached(
    thresholds: Seq<Real>,
    at: Real,
    count: nat,
    last: Option<int>,
) -> bool {
    match last {
        Some(k) => 0 <= k < count && reaches(at, thresholds[k]) && forall|j: int|
            k < j < count ==> !reaches(at, #[trigger] thresholds[j]),
        None => forall|j: int| 0 <= j < count ==> !reaches(at, #[trigger] thresholds[j]),
    }
}

proof fn lemma_ladder_gives(
    model: ParamModel,
    env: ParamEnv,
    node: Switch,
    control: Reg,
    count: nat,
    state: ParamsModel,
    slots: Seq<Real>,
    notes: NotesModel,
    last: Option<int>,
)
    requires
        state.wf(),
        regs_handed_out(model),
        control < model.next_reg,
        count < node.values@.len(),
        count <= node.thresholds@.len(),
        count <= 253,
        last_reached(node.thresholds@, state.registers[control as int], count, last),
    ensures
        model.ladder(env, node, control, count) matches Ok((next, top)) ==> {
            let added = next.ops.skip(model.ops.len() as int);
            let after = worked(state, added, slots, notes);
            &&& next.id == model.id
            &&& next.reg_of == model.reg_of
            &&& model.next_reg <= next.next_reg <= MAX_REGISTERS
            &&& model.ops.len() <= next.ops.len()
            &&& after.wf()
            &&& after.registers.take(model.next_reg as int) == state.registers.take(
                model.next_reg as int,
            )
            &&& top matches Operand::Reg(reg) ==> reg < next.next_reg
            &&& operand_value(after, top) == match last {
                Some(k) => socket_value(model, env, state, k + 2, node.values@[k + 1]),
                None => socket_value(model, env, state, 1, node.values@[0]),
            }
        },
    decreases count,
{
    if let Ok((next, top)) = model.ladder(env, node, control, count) {
        if count == 0 {
            assert(next.ops.skip(model.ops.len() as int) =~= Seq::<Op>::empty());
            lemma_input_handed_out(model, env, 1);
        } else {
            let at = state.registers[control as int];
            let threshold = node.thresholds@[count - 1];
            let reached = reaches(at, threshold);
            let before = if reached {
                lemma_some_last(node.thresholds@, at, (count - 1) as nat)
            } else {
                last
            };
            if let Some(k) = last {
                assert(reaches(at, node.thresholds@[k]));
            }
            assert(reaches(at, node.thresholds@[count - 1]) == reached);
            lemma_ladder_gives(
                model,
                env,
                node,
                control,
                (count - 1) as nat,
                state,
                slots,
                notes,
                before,
            );
            let (below, low) = model.ladder(env, node, control, (count - 1) as nat)->Ok_0;
            let added = below.ops.skip(model.ops.len() as int);
            let op = next.ops.last();
            assert(next.ops.skip(model.ops.len() as int) =~= added.push(op));
            lemma_worked_push(state, added, op, slots, notes);
            let was = worked(state, added, slots, notes);
            let after = was.did(op, slots, notes);
            assert(was.registers.take(model.next_reg as int)[control as int]
                == was.registers[control as int]);
            assert(state.registers.take(model.next_reg as int)[control as int]
                == state.registers[control as int]);
            assert(was.registers[control as int] == at);
            assert(below.input(env, (count + 1) as u8) == model.input(env, (count + 1) as u8));
            lemma_input_handed_out(model, env, (count + 1) as u8);
            if let Some(reg) = model.input(env, (count + 1) as u8) {
                assert(was.registers.take(model.next_reg as int)[reg as int]
                    == was.registers[reg as int]);
                assert(state.registers.take(model.next_reg as int)[reg as int]
                    == state.registers[reg as int]);
            }
            assert(after.registers.take(model.next_reg as int) =~= state.registers.take(
                model.next_reg as int,
            )) by {
                assert forall|i: int| 0 <= i < model.next_reg implies #[trigger] after.registers[i]
                    == state.registers[i] by {
                    assert(was.registers.take(model.next_reg as int)[i] == was.registers[i]);
                    assert(state.registers.take(model.next_reg as int)[i] == state.registers[i]);
                }
            }
        }
    }
}

/// Some threshold is the last to be reached, or none is.
proof fn lemma_some_last(thresholds: Seq<Real>, at: Real, count: nat) -> (last: Option<int>)
    ensures
        last_reached(thresholds, at, count, last),
    decreases count,
{
    if count == 0 {
        None
    } else if reaches(at, thresholds[count - 1]) {
        Some(count - 1)
    } else {
        lemma_some_last(thresholds, at, (count - 1) as nat)
    }
}

/// A switch gives the value that belongs to the last threshold its control has reached, and
/// its first value where it has reached none.
pub proof fn law_a_switch_gives_the_value_of_the_last_threshold_reached(
    model: ParamModel,
    env: ParamEnv,
    node: Switch,
    next: ParamModel,
    state: ParamsModel,
    slots: Seq<Real>,
    notes: NotesModel,
    control: Reg,
    last: Option<int>,
)
    requires
        state.wf(),
        regs_handed_out(model),
        model.input(env, 0) == Some(control),
        0 < node.thresholds@.len() < node.values@.len(),
        node.values@.len() <= 254,
        model.compiled(env, NodeKind::Switch(node)) == Ok::<ParamModel, CompileError>(next),
        last_reached(
            node.thresholds@,
            state.registers[control as int],
            node.thresholds@.len(),
            last,
        ),
    ensures
        ({
            let after = worked(state, next.ops.skip(model.ops.len() as int), slots, notes);
            let given = match last {
                Some(k) => socket_value(model, env, state, k + 2, node.values@[k + 1]),
                None => socket_value(model, env, state, 1, node.values@[0]),
            };
            exists|out: Reg|
                next.reg_of == #[trigger] model.reg_of.push(((model.id, 0u8), out))
                    && after.registers[out as int] == given
        }),
{
    let count = node.thresholds@.len();
    assert(node.rungs() == count);
    lemma_input_handed_out(model, env, 0);
    lemma_ladder_gives(model, env, node, control, count, state, slots, notes, last);
    let (laid, top) = model.ladder(env, node, control, count)->Ok_0;
    match top {
        Operand::Reg(reg) => {
            assert(next.ops == laid.ops);
            assert(next.reg_of == model.reg_of.push(((model.id, 0u8), reg)));
        },
        Operand::Value(_) => {
            assert(false);
        },
    }
}

/// A note gate is open from its threshold on, or below it when it is inverted. Where its
/// notes have come through another gate, it is open while both are: the two are multiplied.
pub proof fn law_a_note_gate_opens_at_its_threshold(
    model: ParamModel,
    env: ParamEnv,
    node: NoteGate,
    next: ParamModel,
)
    requires
        model.compiled(env, NodeKind::NoteGate(node)) == Ok::<ParamModel, CompileError>(next),
    ensures
        ({
            let above = model.gate_above(env, 0);
            let at = if above is Some {
                next.ops.len() - 2
            } else {
                next.ops.len() - 1
            };
            &&& next.ops[at] matches Op::Select { out, control, threshold, low, high } && {
                &&& threshold == node.threshold
                &&& model.input(env, 1) matches Some(wired) ==> control == wired
                &&& !node.invert ==> low == Operand::Value(Real::zeroed()) && high
                    == Operand::Value(Real::unit())
                &&& node.invert ==> low == Operand::Value(Real::unit()) && high
                    == Operand::Value(Real::zeroed())
                &&& above is None ==> next.note_gates.last() == ((model.id, 0u8), out)
                &&& above matches Some(gate) ==> (next.ops.last() matches Op::Math {
                    out: both,
                    a,
                    b,
                    op,
                } && a == out && b == Operand::Reg(gate) && op is Multiply
                    && next.note_gates.last() == ((model.id, 0u8), both))
            }
        }),
{
}

/// An audio gate lets its signal through at full level from its threshold on, or below it
/// when it is inverted, and is silent otherwise. Its gain drives the lane of its control
/// socket.
pub proof fn law_an_audio_gate_opens_at_its_threshold(
    model: ParamModel,
    env: ParamEnv,
    node: Gate,
    next: ParamModel,
)
    requires
        model.compiled(env, NodeKind::Gate(node)) == Ok::<ParamModel, CompileError>(next),
        lookup(model.audio_lanes, (model.id, 1u8)) is None,
    ensures
        next.ops.last() matches Op::Select { out, control, threshold, low, high } && {
            &&& threshold == node.threshold
            &&& model.input(env, 1) matches Some(wired) ==> control == wired
            &&& !node.invert ==> low == Operand::Value(Real { bits: SILENT_DB }) && high
                == Operand::Value(Real::zeroed())
            &&& node.invert ==> low == Operand::Value(Real::zeroed()) && high == Operand::Value(
                Real { bits: SILENT_DB },
            )
            &&& next.audio_lanes.last().0 == (model.id, 1u8)
            &&& next.outputs == model.outputs.push((next.audio_lanes.last().1, out))
            &&& next.latch_nodes == model.latch_nodes.push(model.id)
        },
{
}

/// A socket of the audio or the note half that something is wired to gets a lane of its
/// own, after those of the host and those for the parameters of plugins, and that lane is
/// driven by the register that is wired.
pub proof fn law_a_driven_socket_gets_a_lane(
    model: ParamModel,
    env: ParamEnv,
    kind: NodeKind,
    next: ParamModel,
)
    requires
        kind is ParamToCc || (kind matches NodeKind::DelayRead(node) && node.ty is Audio),
        model.compiled(env, kind) == Ok::<ParamModel, CompileError>(next),
        lookup(model.audio_lanes, (model.id, 0u8)) is None,
        env.slot_count + MAX_GRAPH_PARAMS + MAX_AUDIO_LANES <= u16::MAX,
    ensures
        model.input(env, 0) is None ==> next == model,
        model.input(env, 0) matches Some(wired) ==> {
            let lane = next.audio_lanes.last().1;
            &&& lane == env.slot_count + 64 + model.audio_lanes.len()
            &&& next.audio_lanes == model.audio_lanes.push(((model.id, 0u8), lane))
            &&& next.outputs == model.outputs.push((lane, wired))
        },
{
}

proof fn lemma_mix_gains_drive(model: ParamModel, env: ParamEnv, count: nat)
    requires
        count <= 128,
    ensures
        model.mix_gains(env, count) matches Ok(next) ==> {
            &&& next.id == model.id
            &&& next.reg_of == model.reg_of
            &&& next.ops == model.ops
            &&& forall|i: int|
                0 <= i < model.outputs.len() ==> #[trigger] next.outputs[i] == model.outputs[i]
            &&& model.outputs.len() <= next.outputs.len()
            &&& forall|k: int|
                0 <= k < count ==> (model.input(env, #[trigger] gain_socket(k)) matches Some(wired)
                    ==> driven_by(next, model.outputs.len() as int, gain_socket(k), wired))
        },
    decreases count,
{
    if count > 0 {
        lemma_mix_gains_drive(model, env, (count - 1) as nat);
        if let Ok(below) = model.mix_gains(env, (count - 1) as nat) {
            if let Ok(next) = model.mix_gains(env, count) {
                assert(gain_socket(count - 1) == (2 * count - 1) as u8);
                assert(below.input(env, (2 * count - 1) as u8) == model.input(
                    env,
                    (2 * count - 1) as u8,
                ));
                let key = (model.id, gain_socket(count - 1));
                if below.input(env, (2 * count - 1) as u8) is Some {
                    lemma_lookup_after(below.audio_lanes, next.audio_lanes, key);
                }
                assert forall|k: int| 0 <= k < count implies (model.input(
                    env,
                    #[trigger] gain_socket(k),
                ) matches Some(wired) ==> driven_by(
                    next,
                    model.outputs.len() as int,
                    gain_socket(k),
                    wired,
                )) by {
                    if let Some(wired) = model.input(env, gain_socket(k)) {
                        if k < count - 1 {
                            assert(driven_by(
                                below,
                                model.outputs.len() as int,
                                gain_socket(k),
                                wired,
                            ));
                            let i = choose|i: int|
                                model.outputs.len() <= i < below.outputs.len()
                                    && #[trigger] below.outputs[i] == (
                                lookup(below.audio_lanes, (below.id, gain_socket(k)))->0, wired);
                            lemma_lookup_after(
                                below.audio_lanes,
                                next.audio_lanes,
                                (model.id, gain_socket(k)),
                            );
                            assert(next.outputs[i] == below.outputs[i]);
                        } else {
                            assert(next.outputs[next.outputs.len() - 1] == (
                                lookup(next.audio_lanes, key)->0,
                                wired,
                            ));
                        }
                    }
                }
            }
        }
    }
}

/// A table that grows gives what it gave.
proof fn lemma_lookup_after<V>(
    table: Seq<((u32, u8), V)>,
    more: Seq<((u32, u8), V)>,
    key: (u32, u8),
)
    requires
        table.len() <= more.len() <= table.len() + 1,
        forall|i: int| 0 <= i < table.len() ==> #[trigger] more[i] == table[i],
    ensures
        lookup(table, key) is Some ==> lookup(more, key) == lookup(table, key),
        lookup(table, key) is None && more.len() > table.len() && more.last().0 == key ==> lookup(
            more,
            key,
        ) == Some(more.last().1),
{
    lemma_lookup_grows(table, more, key, 0);
}

proof fn lemma_lookup_grows<V>(
    table: Seq<((u32, u8), V)>,
    more: Seq<((u32, u8), V)>,
    key: (u32, u8),
    at: int,
)
    requires
        0 <= at <= table.len() <= more.len() <= table.len() + 1,
        forall|i: int| 0 <= i < table.len() ==> #[trigger] more[i] == table[i],
    ensures
        crate::tables::lookup_from(table, key, at) matches Some(value)
            ==> crate::tables::lookup_from(more, key, at) == Some(value),
        crate::tables::lookup_from(table, key, at) is None && more.len() > table.len()
            && more.last().0 == key ==> crate::tables::lookup_from(more, key, at) == Some(
            more.last().1,
        ),
    decreases table.len() - at,
{
    if at < table.len() {
        assert(more[at] == table[at]);
        lemma_lookup_grows(table, more, key, at + 1);
    }
}

/// A socket has a lane, and one of the outputs from `from` on drives that lane with a
/// register.
pub open spec fn driven_by(model: ParamModel, from: int, socket: u8, reg: Reg) -> bool {
    &&& lookup(model.audio_lanes, (model.id, socket)) is Some
    &&& exists|i: int|
        from <= i < model.outputs.len() && #[trigger] model.outputs[i] == (
        lookup(model.audio_lanes, (model.id, socket))->0, reg)
}

/// The socket of the gain of an input of a mix: each input has two, its signal and its
/// gain.
pub open spec fn gain_socket(input: int) -> u8 {
    (2 * input + 1) as u8
}

/// Every gain of a mix that something is wired to has a lane, which the register that is
/// wired drives.
pub proof fn law_wired_gains_drive_lanes(
    model: ParamModel,
    env: ParamEnv,
    kind: NodeKind,
    next: ParamModel,
    k: int,
)
    requires
        kind matches NodeKind::Mix(node) && 0 <= k < node.inputs,
        k < 128,
        model.compiled(env, kind) == Ok::<ParamModel, CompileError>(next),
    ensures
        model.input(env, (2 * k + 1) as u8) matches Some(wired) ==> driven_by(
            next,
            model.outputs.len() as int,
            (2 * k + 1) as u8,
            wired,
        ),
{
    if let NodeKind::Mix(node) = kind {
        lemma_mix_gains_drive(model, env, smaller_of(node.inputs as nat, 128));
        assert(gain_socket(k) == (2 * k + 1) as u8);
    }
}

/// A parameter of a plugin that something is wired to is driven through a lane: the lane
/// of the parameter's own id on the plugin's own instance carries the register wired to the
/// parameter's own socket.
pub proof fn law_a_wired_parameter_is_driven(
    model: ParamModel,
    env: ParamEnv,
    target: ParamTarget,
    reg: Reg,
    next: ParamModel,
)
    requires
        model.driving_param(env, target, reg) == Ok::<ParamModel, CompileError>(next),
        env.slot_count + MAX_GRAPH_PARAMS <= u16::MAX,
    ensures
        exists|at: int|
            0 <= at < next.param_targets.len() && #[trigger] next.param_targets[at] == target
                && next.outputs.last() == ((env.slot_count + at) as u16, reg) && (forall|i: int|
                0 <= i < next.outputs.len() - 1 ==> ((#[trigger] next.outputs[i]).0
                    == env.slot_count + at ==> model.param_targets.len() < next.param_targets.len())),
        forall|i: int|
            0 <= i < model.param_targets.len() ==> #[trigger] next.param_targets[i]
                == model.param_targets[i],
{
    lemma_target_from(model.param_targets, target, 0);
    match crate::param_cx::target_from(model.param_targets, target, 0) {
        Some(at) => {
            let lane = env.slot_count + at;
            let keep = |output: (u16, Reg)| output.0 as int != lane;
            assert(next.param_targets[at] == target);
            assert forall|i: int| 0 <= i < next.outputs.len() - 1 implies (
            #[trigger] next.outputs[i]).0 as int != lane by {
                model.outputs.lemma_filter_pred(keep, i);
            }
        },
        None => {
            assert(next.param_targets[model.param_targets.len() as int] == target);
        },
    }
}

proof fn lemma_target_from(targets: Seq<ParamTarget>, target: ParamTarget, at: int)
    requires
        0 <= at,
    ensures
        crate::param_cx::target_from(targets, target, at) matches Some(i) ==> at <= i
            < targets.len() && targets[i] == target,
    decreases targets.len() - at,
{
    if at < targets.len() && targets[at] != target {
        lemma_target_from(targets, target, at + 1);
    }
}

proof fn lemma_plugin_params_drive(
    model: ParamModel,
    env: ParamEnv,
    node: Plugin,
    count: nat,
    k: int,
)
    requires
        0 <= k < count <= wireable_params(node.ports),
    ensures
        model.plugin_params(env, node.instance, node.ports, count) matches Ok(next) ==> {
            &&& next.id == model.id
            &&& next.reg_of == model.reg_of
            &&& model.input(env, (node.ports.first_param() + k) as u8) is Some
                ==> next.param_targets.contains(
                ParamTarget { instance: node.instance, param: node.ports.params@[k].id },
            )
        },
    decreases count,
{
    if let Ok(next) = model.plugin_params(env, node.instance, node.ports, count) {
        let below = model.plugin_params(
            env,
            node.instance,
            node.ports,
            (count - 1) as nat,
        )->Ok_0;
        if count > 1 {
            lemma_plugin_params_drive(
                model,
                env,
                node,
                (count - 1) as nat,
                if k < count - 1 {
                    k
                } else {
                    0
                },
            );
        }
        let port = (node.ports.first_param() + count - 1) as u8;
        assert(below.input(env, port) == model.input(env, port));
        if let Some(reg) = below.input(env, port) {
            let last = ParamTarget {
                instance: node.instance,
                param: node.ports.params@[count - 1].id,
            };
            lemma_target_from(below.param_targets, last, 0);
            let aim = ParamTarget { instance: node.instance, param: node.ports.params@[k].id };
            if k == count - 1 {
                match crate::param_cx::target_from(below.param_targets, last, 0) {
                    Some(at) => {
                        assert(next.param_targets[at] == last);
                    },
                    None => {
                        assert(next.param_targets[below.param_targets.len() as int] == last);
                    },
                }
            } else if below.param_targets.contains(aim) {
                let i = choose|i: int|
                    0 <= i < below.param_targets.len() && below.param_targets[i] == aim;
                assert(next.param_targets[i] == aim);
            }
        }
    }
}

/// Each parameter of a plugin whose socket is wired has a lane. The sockets of the
/// parameters follow those of the input buses and of the notes.
pub proof fn law_wired_parameters_have_lanes(
    model: ParamModel,
    env: ParamEnv,
    node: Plugin,
    next: ParamModel,
    k: int,
)
    requires
        model.compiled(env, NodeKind::Plugin(node)) == Ok::<ParamModel, CompileError>(next),
        0 <= k < node.ports.params@.len(),
        node.ports.audio_in@.len() + k + 1 < 256,
    ensures
        ({
            let notes = if node.ports.accepts_notes {
                1int
            } else {
                0
            };
            let socket = node.ports.audio_in@.len() + notes + k;
            model.input(env, socket as u8) is Some ==> next.param_targets.contains(
                ParamTarget { instance: node.instance, param: node.ports.params@[k].id },
            )
        }),
{
    lemma_plugin_params_drive(model, env, node, wireable_params(node.ports), k);
}

/// An operation of a model opens one of a node's note outputs: the register it writes is
/// filed as the condition of that output.
pub open spec fn opens(model: ParamModel, op: Op, port: int) -> bool {
    &&& model.ops.contains(op)
    &&& writes(op) matches Some(reg) && model.note_gates.contains(((model.id, port as u8), reg))
}

proof fn lemma_still_opens(model: ParamModel, next: ParamModel, op: Op, port: int)
    requires
        opens(model, op, port),
        next.id == model.id,
        model.ops.len() <= next.ops.len(),
        model.note_gates.len() <= next.note_gates.len(),
        forall|i: int| 0 <= i < model.ops.len() ==> #[trigger] next.ops[i] == model.ops[i],
        forall|i: int|
            0 <= i < model.note_gates.len() ==> #[trigger] next.note_gates[i]
                == model.note_gates[i],
    ensures
        opens(next, op, port),
{
    let i = choose|i: int| 0 <= i < model.ops.len() && model.ops[i] == op;
    assert(next.ops[i] == op);
    let reg = writes(op)->0;
    let key = ((model.id, port as u8), reg);
    let j = choose|j: int| 0 <= j < model.note_gates.len() && model.note_gates[j] == key;
    assert(next.note_gates[j] == key);
}

proof fn lemma_held_gates_open(
    model: ParamModel,
    env: ParamEnv,
    keys: Seq<u8>,
    buf: u16,
    count: nat,
    k: int,
)
    requires
        0 <= k < count <= keys.len(),
    ensures
        model.held_gates(env, keys, buf, count) matches Ok(next) ==> next.id == model.id
            && exists|out: Reg| #[trigger] opens(next, Op::KeyHeld { out, buf, key: keys[k] }, k),
    decreases count,
{
    if let Ok(next) = model.held_gates(env, keys, buf, count) {
        let below = model.held_gates(env, keys, buf, (count - 1) as nat)->Ok_0;
        if count > 1 {
            lemma_held_gates_open(model, env, keys, buf, (count - 1) as nat, if k < count - 1 {
                k
            } else {
                0
            });
        }
        if k < count - 1 {
            let out = choose|out: Reg| #[trigger]
                opens(below, Op::KeyHeld { out, buf, key: keys[k] }, k);
            lemma_still_opens(below, next, Op::KeyHeld { out, buf, key: keys[k] }, k);
        } else {
            let op = next.ops[next.ops.len() - 1];
            let out = writes(op)->0;
            assert(next.note_gates[next.note_gates.len() - 1] == (
                (model.id, (count - 1) as u8),
                out,
            ));
            assert(opens(next, Op::KeyHeld { out, buf, key: keys[k] }, k));
        }
    }
}

/// A key switch that holds has one output for each key, open while that key is held.
pub proof fn law_a_held_key_opens_its_own_output(
    model: ParamModel,
    env: ParamEnv,
    node: KeySwitch,
    next: ParamModel,
    buf: u16,
    k: int,
)
    requires
        node.mode is Hold,
        model.notes(env, 0) == Some(buf),
        model.compiled(env, NodeKind::KeySwitch(node)) == Ok::<ParamModel, CompileError>(next),
        0 <= k < node.keys@.len(),
        k < 128,
    ensures
        exists|out: Reg| #[trigger]
            opens(next, Op::KeyHeld { out, buf, key: node.keys@[k] }, k),
{
    lemma_held_gates_open(model, env, node.keys@, buf, node.outputs(), k);
}

proof fn lemma_latched_gates_open(model: ParamModel, env: ParamEnv, state: u16, count: nat, k: int)
    requires
        0 <= k < count,
    ensures
        model.latched_gates(env, state, count) matches Ok(next) ==> {
            &&& next.id == model.id
            &&& model.ops.len() <= next.ops.len()
            &&& forall|i: int| 0 <= i < model.ops.len() ==> #[trigger] next.ops[i] == model.ops[i]
            &&& next.latch_nodes == model.latch_nodes
            &&& exists|out: Reg, initial: Real| #[trigger]
                opens(
                    next,
                    Op::LatchIs { out, state, value: Real::counted(k as nat), initial },
                    k,
                ) && initial.rank() == 0 && !initial.nan()
        },
    decreases count,
{
    if let Ok(next) = model.latched_gates(env, state, count) {
        let below = model.latched_gates(env, state, (count - 1) as nat)->Ok_0;
        if count > 1 {
            lemma_latched_gates_open(model, env, state, (count - 1) as nat, if k < count - 1 {
                k
            } else {
                0
            });
        }
        let value = Real::counted(k as nat);
        if k < count - 1 {
            let (out, initial) = choose|out: Reg, initial: Real| #[trigger]
                opens(below, Op::LatchIs { out, state, value, initial }, k) && initial.rank()
                    == 0 && !initial.nan();
            lemma_still_opens(below, next, Op::LatchIs { out, state, value, initial }, k);
        } else {
            let op = next.ops[next.ops.len() - 1];
            let out = writes(op)->0;
            assert(next.note_gates[next.note_gates.len() - 1] == (
                (model.id, (count - 1) as u8),
                out,
            ));
            assert(opens(next, Op::LatchIs { out, state, value, initial: Real::zeroed() }, k));
        }
    }
}

proof fn lemma_bank_sets(
    model: ParamModel,
    keys: Seq<u8>,
    state: u16,
    buf: u16,
    count: nat,
    k: int,
)
    requires
        0 <= k < count <= keys.len(),
    ensures
        model.bank(keys, state, buf, count).ops.contains(
            Op::KeyLatch { state, buf, key: keys[k], value: Real::counted(k as nat) },
        ),
        model.bank(keys, state, buf, count).id == model.id,
        model.bank(keys, state, buf, count).latch_nodes == model.latch_nodes,
    decreases count,
{
    if count > 1 {
        lemma_bank_sets(model, keys, state, buf, (count - 1) as nat, if k < count - 1 {
            k
        } else {
            0
        });
    }
    let below = model.bank(keys, state, buf, (count - 1) as nat);
    let next = model.bank(keys, state, buf, count);
    let op = Op::KeyLatch { state, buf, key: keys[k], value: Real::counted(k as nat) };
    if k < count - 1 {
        let i = choose|i: int| 0 <= i < below.ops.len() && below.ops[i] == op;
        assert(next.ops[i] == op);
    } else {
        assert(next.ops[next.ops.len() - 1] == op);
    }
}

/// The outputs of a key switch that latches hang on one latch of its own: the output of
/// each key is open while the latch stands at the key's place in the list. A selecting one
/// is put there by that key, a toggling one is moved round all the places by the first.
pub proof fn law_a_key_switch_opens_the_output_it_stands_at(
    model: ParamModel,
    env: ParamEnv,
    node: KeySwitch,
    next: ParamModel,
    buf: u16,
    k: int,
)
    requires
        !(node.mode is Hold),
        model.notes(env, 0) == Some(buf),
        model.compiled(env, NodeKind::KeySwitch(node)) == Ok::<ParamModel, CompileError>(next),
        0 <= k < node.keys@.len(),
        node.keys@.len() <= 128,
    ensures
        ({
            let state = model.latch_nodes.len() as u16;
            &&& next.latch_nodes == model.latch_nodes.push(model.id)
            &&& exists|out: Reg, initial: Real| #[trigger]
                opens(
                    next,
                    Op::LatchIs { out, state, value: Real::counted(k as nat), initial },
                    k,
                ) && initial.rank() == 0 && !initial.nan()
            &&& node.mode is Select ==> next.ops.contains(
                Op::KeyLatch { state, buf, key: node.keys@[k], value: Real::counted(k as nat) },
            )
            &&& node.mode is Toggle ==> next.ops.contains(
                Op::KeyStep { state, buf, key: node.keys@[0], count: node.keys@.len() as u8 },
            )
        }),
{
    let (held, state) = model.with_latch()->Ok_0;
    let count = node.outputs();
    let struck = match node.mode {
        KeySwitchMode::Toggle => held.stepping(node.keys@, state, buf, count),
        _ => held.bank(node.keys@, state, buf, count),
    };
    if node.mode is Select {
        lemma_bank_sets(held, node.keys@, state, buf, count, k);
        let op = Op::KeyLatch {
            state,
            buf,
            key: node.keys@[k],
            value: Real::counted(k as nat),
        };
        lemma_latched_gates_open(struck, env, state, count, k);
        let i = choose|i: int| 0 <= i < struck.ops.len() && struck.ops[i] == op;
        assert(next.ops[i] == op);
    } else {
        lemma_latched_gates_open(struck, env, state, count, k);
        let i = struck.ops.len() - 1;
        assert(next.ops[i] == struck.ops[i]);
    }
}

proof fn lemma_choice_gives(
    model: ParamModel,
    env: ParamEnv,
    values: Seq<Real>,
    latch: u16,
    count: nat,
    state: ParamsModel,
    slots: Seq<Real>,
    notes: NotesModel,
    at: nat,
)
    requires
        state.wf(),
        latch < MAX_LATCHES,
        regs_handed_out(model),
        1 <= count <= values.len(),
        count <= 128,
        at < 128,
        state.standing(latch, Real::zeroed()) == Real::counted(at),
    ensures
        model.choice(env, values, latch, count) matches Ok((next, chosen)) ==> {
            let added = next.ops.skip(model.ops.len() as int);
            let after = worked(state, added, slots, notes);
            let place = if at < count {
                at as int
            } else {
                0
            };
            &&& next.id == model.id
            &&& next.reg_of == model.reg_of
            &&& model.next_reg <= next.next_reg <= MAX_REGISTERS
            &&& model.ops.len() <= next.ops.len()
            &&& after.wf()
            &&& after.latches == state.latches
            &&& after.registers.take(model.next_reg as int) == state.registers.take(
                model.next_reg as int,
            )
            &&& chosen matches Operand::Reg(reg) ==> reg < next.next_reg
            &&& operand_value(after, chosen) == socket_value(
                model,
                env,
                state,
                place + 1,
                values[place],
            )
        },
    decreases count,
{
    if let Ok((next, chosen)) = model.choice(env, values, latch, count) {
        if count == 1 {
            assert(next.ops.skip(model.ops.len() as int) =~= Seq::<Op>::empty());
            lemma_input_handed_out(model, env, 1);
        } else {
            lemma_choice_gives(
                model,
                env,
                values,
                latch,
                (count - 1) as nat,
                state,
                slots,
                notes,
                at,
            );
            let (below, low) = model.choice(env, values, latch, (count - 1) as nat)->Ok_0;
            let added = below.ops.skip(model.ops.len() as int);
            let flagging = next.ops[next.ops.len() - 2];
            let op = next.ops.last();
            assert(next.ops.skip(model.ops.len() as int) =~= added.push(flagging).push(op));
            lemma_worked_push(state, added, flagging, slots, notes);
            lemma_worked_push(state, added.push(flagging), op, slots, notes);
            let was = worked(state, added, slots, notes);
            let flagged = was.did(flagging, slots, notes);
            let after = flagged.did(op, slots, notes);
            let flag = below.next_reg as Reg;
            assert(was.standing(latch, Real::zeroed()) == Real::counted(at));
            law_latch_opens_one(was, latch, flag, at, (count - 1) as nat, slots, notes);
            lemma_input_handed_out(model, env, count as u8);
            assert(below.input(env, count as u8) == model.input(env, count as u8));
            if let Some(reg) = model.input(env, count as u8) {
                assert(was.registers.take(model.next_reg as int)[reg as int]
                    == was.registers[reg as int]);
                assert(state.registers.take(model.next_reg as int)[reg as int]
                    == state.registers[reg as int]);
            }
            assert(Real::unit().ge(Real::halved()));
            assert(!Real::zeroed().ge(Real::halved()));
            assert(after.registers.take(model.next_reg as int) =~= state.registers.take(
                model.next_reg as int,
            )) by {
                assert forall|i: int| 0 <= i < model.next_reg implies #[trigger] after.registers[i]
                    == state.registers[i] by {
                    assert(was.registers.take(model.next_reg as int)[i] == was.registers[i]);
                    assert(state.registers.take(model.next_reg as int)[i] == state.registers[i]);
                }
            }
        }
    }
}

/// A value chosen by keys is the one at the place where its latch stands: what is wired to
/// the socket of that value, or the number it was set to. A latch at no such place chooses
/// the first.
pub proof fn law_the_latch_chooses_the_value(
    model: ParamModel,
    env: ParamEnv,
    values: Seq<Real>,
    latch: u16,
    count: nat,
    state: ParamsModel,
    slots: Seq<Real>,
    notes: NotesModel,
    at: nat,
    next: ParamModel,
    chosen: Operand,
)
    requires
        state.wf(),
        latch < MAX_LATCHES,
        regs_handed_out(model),
        1 <= count <= values.len(),
        count <= 128,
        at < 128,
        state.latches[latch as int].value == Real::counted(at) || (
        state.latches[latch as int].value.nan() && at == 0),
        model.choice(env, values, latch, count) == Ok::<(ParamModel, Operand), CompileError>(
            (next, chosen),
        ),
    ensures
        ({
            let after = worked(state, next.ops.skip(model.ops.len() as int), slots, notes);
            let place = if at < count {
                at as int
            } else {
                0
            };
            operand_value(after, chosen) == socket_value(
                model,
                env,
                state,
                place + 1,
                values[place],
            )
        }),
{
    if at > 0 {
        law_counts_are_in_order(0, at);
    } else {
        law_counts_are_in_order(0, 1);
    }
    lemma_choice_gives(model, env, values, latch, count, state, slots, notes, at);
}

/// A choice by keys is compiled with a latch of its own. Each key of a selecting one puts
/// the latch at the key's place in the list, and the first key of a toggling one moves it
/// round all the values.
pub proof fn law_keys_move_the_latch_of_their_choice(
    model: ParamModel,
    env: ParamEnv,
    node: KeyParam,
    next: ParamModel,
    buf: u16,
    k: int,
)
    requires
        model.notes(env, 0) == Some(buf),
        model.compiled(env, NodeKind::KeyParam(node)) == Ok::<ParamModel, CompileError>(next),
        0 <= k < node.keys@.len(),
        k < node.values@.len() <= 128,
    ensures
        ({
            let state = model.latch_nodes.len() as u16;
            &&& model.latch_nodes.len() < next.latch_nodes.len()
            &&& next.latch_nodes[state as int] == model.id
            &&& node.mode is Select ==> next.ops.contains(
                Op::KeyLatch { state, buf, key: node.keys@[k], value: Real::counted(k as nat) },
            )
            &&& node.mode is Toggle ==> next.ops.contains(
                Op::KeyStep { state, buf, key: node.keys@[0], count: node.values@.len() as u8 },
            )
        }),
{
    let (held, state) = model.with_latch()->Ok_0;
    let count = smaller_of(node.keys@.len(), node.choices());
    let struck = match node.mode {
        KeyParamMode::Toggle => held.stepping(node.keys@, state, buf, node.choices()),
        KeyParamMode::Select => held.bank(node.keys@, state, buf, count),
    };
    let op = match node.mode {
        KeyParamMode::Toggle => Op::KeyStep {
            state,
            buf,
            key: node.keys@[0],
            count: node.choices() as u8,
        },
        KeyParamMode::Select => Op::KeyLatch {
            state,
            buf,
            key: node.keys@[k],
            value: Real::counted(k as nat),
        },
    };
    if node.mode is Select {
        lemma_bank_sets(held, node.keys@, state, buf, count, k);
    } else {
        assert(struck.ops[struck.ops.len() - 1] == op);
    }
    let i = choose|i: int| 0 <= i < struck.ops.len() && struck.ops[i] == op;
    lemma_choice_keeps(struck, env, node.values@, state, node.choices());
    let (told, chosen) = struck.choice(env, node.values@, state, node.choices())->Ok_0;
    assert(told.ops[i] == op);
    assert(next.ops[i] == op);
}

proof fn lemma_choice_keeps(
    model: ParamModel,
    env: ParamEnv,
    values: Seq<Real>,
    state: u16,
    count: nat,
)
    ensures
        model.choice(env, values, state, count) matches Ok((next, chosen)) ==> {
            &&& model.ops.len() <= next.ops.len()
            &&& forall|i: int| 0 <= i < model.ops.len() ==> #[trigger] next.ops[i] == model.ops[i]
            &&& next.latch_nodes == model.latch_nodes
        },
    decreases count,
{
    if count > 1 {
        lemma_choice_keeps(model, env, values, state, (count - 1) as nat);
    }
}

} // verus!
