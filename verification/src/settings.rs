//! The operations of a compiled program carry the settings of the nodes they were made for.
use vstd::prelude::*;
use crate::compile::{
    assembled, audio_env, audio_in_stages, compiles_to, kind_of, lines_of, outcome, param_env,
    params_in_stage, params_in_stages, told,
};
use crate::emit_params::{first_value, smaller_of, wireable_params};
use crate::graph::{find, Graph};
use crate::ir::{Follow, NodeId, Op, Operand, Reg};
use crate::nodes::{
    CcIn, DelayRead, DelayWrite, EnvelopeFollower, Gate, KeyParam, KeyParamMode, KeySwitch,
    KeySwitchMode, Lfo, Math, NodeKind, NoteFollow, NoteGate, PluginPorts, RangeMap, Switch,
};
use crate::note_half::notes_in_stages;
use crate::number::Real;
use crate::order::depth_first;
use crate::param_cx::{ParamEnv, ParamModel};
use crate::program::ProgramModel;
use crate::stages::Plan;

verus! {

/// Whether a slot of state belongs to a node.
pub open spec fn owned(nodes: Seq<NodeId>, state: u16, id: NodeId) -> bool {
    state < nodes.len() && nodes[state as int] == id
}

/// Whether an operation is one that a node of that kind is compiled to, with the settings
/// of the node, and keeps its state where the node's is kept.
pub open spec fn set_by(
    op: Op,
    id: NodeId,
    kind: NodeKind,
    latches: Seq<NodeId>,
    lfos: Seq<NodeId>,
) -> bool {
    match op {
        Op::Const { .. } => true,
        Op::Slot { slot, .. } => kind matches NodeKind::SlotIn(node) && slot == node.slot as u16,
        Op::Lfo { state, waveform, rate, offset_phase, depth, centre, .. } => {
            &&& owned(lfos, state, id)
            &&& kind matches NodeKind::Lfo(node) && waveform == node.waveform && rate == node.rate
                && offset_phase == node.phase && depth == node.depth && centre == node.offset
        },
        Op::Math { b, op: by, .. } => match kind {
            NodeKind::Math(node) => by == node.op && (b matches Operand::Value(value) ==> value
                == node.b),
            NodeKind::NoteGate(_) => by is Multiply,
            _ => false,
        },
        Op::Range { in_lo, in_hi, out_lo, out_hi, clamp, .. } => kind matches NodeKind::RangeMap(
            node,
        ) && in_lo == node.in_lo && in_hi == node.in_hi && out_lo == node.out_lo && out_hi
            == node.out_hi && clamp == node.clamp,
        Op::Select { threshold, .. } => match kind {
            NodeKind::Switch(node) => node.thresholds@.contains(threshold),
            NodeKind::NoteGate(node) => threshold == node.threshold,
            NodeKind::Gate(node) => threshold == node.threshold,
            NodeKind::KeyParam(_) => threshold == Real::halved(),
            _ => false,
        },
        Op::DelayRead { time, .. } => kind matches NodeKind::DelayRead(node) && time == node.time,
        Op::DelayWrite { .. } => kind is DelayWrite,
        Op::KeyHeld { key, .. } => kind matches NodeKind::KeySwitch(node)
            && node.keys@.contains(key),
        Op::Follow { state, detect, attack, release, .. } => {
            &&& owned(latches, state, id)
            &&& kind matches NodeKind::EnvelopeFollower(node) && detect == node.detect && attack
                == node.attack && release == node.release
        },
        Op::NoteFollow { state, what, .. } => {
            &&& owned(latches, state, id)
            &&& kind matches NodeKind::NoteFollow(node) && what == node.what
        },
        Op::KeyStep { state, key, .. } => {
            &&& owned(latches, state, id)
            &&& match kind {
                NodeKind::KeySwitch(node) => node.keys@.len() > 0 && key == node.keys@[0],
                NodeKind::KeyParam(node) => node.keys@.len() > 0 && key == node.keys@[0],
                _ => false,
            }
        },
        Op::KeyLatch { state, key, .. } => {
            &&& owned(latches, state, id)
            &&& match kind {
                NodeKind::KeySwitch(node) => node.keys@.contains(key),
                NodeKind::KeyParam(node) => node.keys@.contains(key),
                _ => false,
            }
        },
        Op::LatchIs { state, .. } => owned(latches, state, id) && (kind is KeySwitch
            || kind is KeyParam),
        Op::NoteCc { state, channel, cc, initial, .. } => {
            &&& owned(latches, state, id)
            &&& kind matches NodeKind::CcIn(node) && channel == node.channel && cc == node.cc
                && initial == node.initial
        },
        Op::Latch { .. } => false,
    }
}

/// From one model to a later one a node has added operations of its own, and nothing was
/// taken away.
spec fn adds(model: ParamModel, next: ParamModel, id: NodeId, kind: NodeKind) -> bool {
    &&& next.id == model.id
    &&& model.ops.len() <= next.ops.len()
    &&& model.deferred.len() <= next.deferred.len()
    &&& model.latch_nodes.len() <= next.latch_nodes.len()
    &&& model.lfo_nodes.len() <= next.lfo_nodes.len()
    &&& forall|i: int| 0 <= i < model.ops.len() ==> #[trigger] next.ops[i] == model.ops[i]
    &&& forall|i: int|
        0 <= i < model.deferred.len() ==> #[trigger] next.deferred[i] == model.deferred[i]
    &&& forall|i: int|
        0 <= i < model.latch_nodes.len() ==> #[trigger] next.latch_nodes[i]
            == model.latch_nodes[i]
    &&& forall|i: int|
        0 <= i < model.lfo_nodes.len() ==> #[trigger] next.lfo_nodes[i] == model.lfo_nodes[i]
    &&& forall|i: int|
        model.ops.len() <= i < next.ops.len() ==> set_by(
            #[trigger] next.ops[i],
            id,
            kind,
            next.latch_nodes,
            next.lfo_nodes,
        )
    &&& forall|i: int|
        model.deferred.len() <= i < next.deferred.len() ==> set_by(
            #[trigger] next.deferred[i],
            id,
            kind,
            next.latch_nodes,
            next.lfo_nodes,
        )
}

proof fn lemma_adds_on(a: ParamModel, b: ParamModel, c: ParamModel, id: NodeId, kind: NodeKind)
    requires
        adds(a, b, id, kind),
        adds(b, c, id, kind),
    ensures
        adds(a, c, id, kind),
{
    assert forall|i: int| 0 <= i < a.ops.len() implies #[trigger] c.ops[i] == a.ops[i] by {
        assert(b.ops[i] == a.ops[i]);
    }
    assert forall|i: int| 0 <= i < a.deferred.len() implies #[trigger] c.deferred[i]
        == a.deferred[i] by {
        assert(b.deferred[i] == a.deferred[i]);
    }
    assert forall|i: int| 0 <= i < a.latch_nodes.len() implies #[trigger] c.latch_nodes[i]
        == a.latch_nodes[i] by {
        assert(b.latch_nodes[i] == a.latch_nodes[i]);
    }
    assert forall|i: int| 0 <= i < a.lfo_nodes.len() implies #[trigger] c.lfo_nodes[i]
        == a.lfo_nodes[i] by {
        assert(b.lfo_nodes[i] == a.lfo_nodes[i]);
    }
    assert forall|i: int| a.ops.len() <= i < c.ops.len() implies set_by(
        #[trigger] c.ops[i],
        id,
        kind,
        c.latch_nodes,
        c.lfo_nodes,
    ) by {
        if i < b.ops.len() {
            assert(c.ops[i] == b.ops[i]);
            assert(set_by(b.ops[i], id, kind, b.latch_nodes, b.lfo_nodes));
            lemma_still_set(b, c, b.ops[i], id, kind);
        }
    }
    assert forall|i: int| a.deferred.len() <= i < c.deferred.len() implies set_by(
        #[trigger] c.deferred[i],
        id,
        kind,
        c.latch_nodes,
        c.lfo_nodes,
    ) by {
        if i < b.deferred.len() {
            assert(c.deferred[i] == b.deferred[i]);
            assert(set_by(b.deferred[i], id, kind, b.latch_nodes, b.lfo_nodes));
            lemma_still_set(b, c, b.deferred[i], id, kind);
        }
    }
}

/// State is only ever added, so an operation's stays where it was.
proof fn lemma_still_set(model: ParamModel, next: ParamModel, op: Op, id: NodeId, kind: NodeKind)
    requires
        model.latch_nodes.len() <= next.latch_nodes.len(),
        model.lfo_nodes.len() <= next.lfo_nodes.len(),
        forall|i: int|
            0 <= i < model.latch_nodes.len() ==> #[trigger] next.latch_nodes[i]
                == model.latch_nodes[i],
        forall|i: int|
            0 <= i < model.lfo_nodes.len() ==> #[trigger] next.lfo_nodes[i] == model.lfo_nodes[i],
        set_by(op, id, kind, model.latch_nodes, model.lfo_nodes),
    ensures
        set_by(op, id, kind, next.latch_nodes, next.lfo_nodes),
{
}

impl ParamModel {
    proof fn lemma_ladder_adds(self, env: ParamEnv, node: Switch, control: Reg, count: nat)
        requires
            count <= node.thresholds@.len(),
        ensures
            self.ladder(env, node, control, count) matches Ok((next, top)) ==> adds(
                self,
                next,
                self.id,
                NodeKind::Switch(node),
            ),
        decreases count,
    {
        if count > 0 {
            self.lemma_ladder_adds(env, node, control, (count - 1) as nat);
            if let Ok((below, low)) = self.ladder(env, node, control, (count - 1) as nat) {
                if let Ok((next, top)) = self.ladder(env, node, control, count) {
                    assert(node.thresholds@.contains(node.thresholds@[count - 1]));
                    assert(adds(below, next, self.id, NodeKind::Switch(node)));
                    lemma_adds_on(self, below, next, self.id, NodeKind::Switch(node));
                }
            }
        }
    }

    proof fn lemma_held_gates_adds(self, env: ParamEnv, node: KeySwitch, buf: u16, count: nat)
        requires
            count <= node.keys@.len(),
        ensures
            self.held_gates(env, node.keys@, buf, count) matches Ok(next) ==> adds(
                self,
                next,
                self.id,
                NodeKind::KeySwitch(node),
            ),
        decreases count,
    {
        if count > 0 {
            self.lemma_held_gates_adds(env, node, buf, (count - 1) as nat);
            if let Ok(below) = self.held_gates(env, node.keys@, buf, (count - 1) as nat) {
                if let Ok(next) = self.held_gates(env, node.keys@, buf, count) {
                    assert(node.keys@.contains(node.keys@[count - 1]));
                    assert(adds(below, next, self.id, NodeKind::KeySwitch(node)));
                    lemma_adds_on(self, below, next, self.id, NodeKind::KeySwitch(node));
                }
            }
        }
    }

    proof fn lemma_bank_adds(
        self,
        kind: NodeKind,
        keys: Seq<u8>,
        state: u16,
        buf: u16,
        count: nat,
    )
        requires
            count <= keys.len(),
            owned(self.latch_nodes, state, self.id),
            (kind matches NodeKind::KeySwitch(node) && node.keys@ == keys) || (kind matches NodeKind::KeyParam(
                node,
            ) && node.keys@ == keys),
        ensures
            adds(self, self.bank(keys, state, buf, count), self.id, kind),
            self.bank(keys, state, buf, count).latch_nodes == self.latch_nodes,
        decreases count,
    {
        if count > 0 {
            self.lemma_bank_adds(kind, keys, state, buf, (count - 1) as nat);
            let below = self.bank(keys, state, buf, (count - 1) as nat);
            let next = self.bank(keys, state, buf, count);
            assert(keys.contains(keys[count - 1]));
            assert(adds(below, next, self.id, kind));
            lemma_adds_on(self, below, next, self.id, kind);
        }
    }

    proof fn lemma_latched_gates_adds(
        self,
        env: ParamEnv,
        node: KeySwitch,
        state: u16,
        count: nat,
    )
        requires
            owned(self.latch_nodes, state, self.id),
        ensures
            self.latched_gates(env, state, count) matches Ok(next) ==> adds(
                self,
                next,
                self.id,
                NodeKind::KeySwitch(node),
            ),
        decreases count,
    {
        if count > 0 {
            self.lemma_latched_gates_adds(env, node, state, (count - 1) as nat);
            if let Ok(below) = self.latched_gates(env, state, (count - 1) as nat) {
                if let Ok(next) = self.latched_gates(env, state, count) {
                    assert(owned(below.latch_nodes, state, self.id));
                    assert(adds(below, next, self.id, NodeKind::KeySwitch(node)));
                    lemma_adds_on(self, below, next, self.id, NodeKind::KeySwitch(node));
                }
            }
        }
    }

    proof fn lemma_choice_adds(
        self,
        env: ParamEnv,
        node: KeyParam,
        values: Seq<Real>,
        state: u16,
        count: nat,
    )
        requires
            owned(self.latch_nodes, state, self.id),
        ensures
            self.choice(env, values, state, count) matches Ok((next, chosen)) ==> adds(
                self,
                next,
                self.id,
                NodeKind::KeyParam(node),
            ),
        decreases count,
    {
        if count > 1 {
            self.lemma_choice_adds(env, node, values, state, (count - 1) as nat);
            if let Ok((below, low)) = self.choice(env, values, state, (count - 1) as nat) {
                if let Ok((next, chosen)) = self.choice(env, values, state, count) {
                    assert(owned(below.latch_nodes, state, self.id));
                    assert(adds(below, next, self.id, NodeKind::KeyParam(node)));
                    lemma_adds_on(self, below, next, self.id, NodeKind::KeyParam(node));
                }
            }
        }
    }

    proof fn lemma_mix_gains_adds(self, env: ParamEnv, kind: NodeKind, count: nat)
        ensures
            self.mix_gains(env, count) matches Ok(next) ==> adds(self, next, self.id, kind),
        decreases count,
    {
        if count > 0 {
            self.lemma_mix_gains_adds(env, kind, (count - 1) as nat);
            if let Ok(below) = self.mix_gains(env, (count - 1) as nat) {
                if let Ok(next) = self.mix_gains(env, count) {
                    assert(adds(below, next, self.id, kind));
                    lemma_adds_on(self, below, next, self.id, kind);
                }
            }
        }
    }

    proof fn lemma_plugin_params_adds(
        self,
        env: ParamEnv,
        kind: NodeKind,
        instance: usize,
        ports: PluginPorts,
        count: nat,
    )
        ensures
            self.plugin_params(env, instance, ports, count) matches Ok(next) ==> adds(
                self,
                next,
                self.id,
                kind,
            ),
        decreases count,
    {
        if count > 0 {
            self.lemma_plugin_params_adds(env, kind, instance, ports, (count - 1) as nat);
            if let Ok(below) = self.plugin_params(env, instance, ports, (count - 1) as nat) {
                if let Ok(next) = self.plugin_params(env, instance, ports, count) {
                    assert(adds(below, next, self.id, kind));
                    lemma_adds_on(self, below, next, self.id, kind);
                }
            }
        }
    }

    proof fn lemma_carrying_adds(self, operand: Operand, kind: NodeKind)
        ensures
            self.carrying(operand) matches Ok(next) ==> adds(self, next, self.id, kind),
    {
    }

    proof fn lemma_switch_adds(self, env: ParamEnv, node: Switch)
        ensures
            self.switch(env, node) matches Ok(next) ==> adds(
                self,
                next,
                self.id,
                NodeKind::Switch(node),
            ),
    {
        let kind = NodeKind::Switch(node);
        if let Ok((fed, control)) = self.with_input(env, 0) {
            assert(adds(self, fed, self.id, kind));
            fed.lemma_ladder_adds(env, node, control, node.rungs());
            if let Ok((next, top)) = fed.ladder(env, node, control, node.rungs()) {
                lemma_adds_on(self, fed, next, self.id, kind);
                next.lemma_carrying_adds(top, kind);
                if let Ok(last) = next.carrying(top) {
                    lemma_adds_on(self, next, last, self.id, kind);
                }
            }
        }
    }

    proof fn lemma_key_switch_adds(self, env: ParamEnv, node: KeySwitch)
        ensures
            self.key_switch(env, node) matches Ok(next) ==> adds(
                self,
                next,
                self.id,
                NodeKind::KeySwitch(node),
            ),
    {
        let kind = NodeKind::KeySwitch(node);
        if let Some(buf) = self.notes(env, 0) {
            self.lemma_held_gates_adds(env, node, buf, node.outputs());
            if let Ok((held, state)) = self.with_latch() {
                assert(adds(self, held, self.id, kind));
                assert(owned(held.latch_nodes, state, self.id));
                let struck = match node.mode {
                    KeySwitchMode::Toggle => held.stepping(
                        node.keys@,
                        state,
                        buf,
                        node.outputs(),
                    ),
                    _ => held.bank(node.keys@, state, buf, node.outputs()),
                };
                held.lemma_bank_adds(kind, node.keys@, state, buf, node.outputs());
                assert(adds(held, struck, self.id, kind));
                lemma_adds_on(self, held, struck, self.id, kind);
                struck.lemma_latched_gates_adds(env, node, state, node.outputs());
                if let Ok(last) = struck.latched_gates(env, state, node.outputs()) {
                    lemma_adds_on(self, struck, last, self.id, kind);
                }
            }
        }
    }

    proof fn lemma_key_param_adds(self, env: ParamEnv, node: KeyParam)
        ensures
            self.key_param(env, node) matches Ok(next) ==> adds(
                self,
                next,
                self.id,
                NodeKind::KeyParam(node),
            ),
    {
        let kind = NodeKind::KeyParam(node);
        match self.notes(env, 0) {
            None => {
                self.lemma_carrying_adds(
                    self.operand(env, 1, first_value(node.values@)),
                    kind,
                );
            },
            Some(buf) => {
                if let Ok((held, state)) = self.with_latch() {
                    let count = smaller_of(node.keys@.len(), node.choices());
                    assert(adds(self, held, self.id, kind));
                    assert(owned(held.latch_nodes, state, self.id));
                    held.lemma_bank_adds(kind, node.keys@, state, buf, count);
                    let struck = match node.mode {
                        KeyParamMode::Toggle => held.stepping(
                            node.keys@,
                            state,
                            buf,
                            node.choices(),
                        ),
                        KeyParamMode::Select => held.bank(node.keys@, state, buf, count),
                    };
                    assert(adds(held, struck, self.id, kind));
                    lemma_adds_on(self, held, struck, self.id, kind);
                    struck.lemma_choice_adds(env, node, node.values@, state, node.choices());
                    if let Ok((next, chosen)) = struck.choice(
                        env,
                        node.values@,
                        state,
                        node.choices(),
                    ) {
                        lemma_adds_on(self, struck, next, self.id, kind);
                        next.lemma_carrying_adds(chosen, kind);
                        if let Ok(last) = next.carrying(chosen) {
                            lemma_adds_on(self, next, last, self.id, kind);
                        }
                    }
                }
            },
        }
    }

    proof fn lemma_note_gate_adds(self, env: ParamEnv, node: NoteGate)
        ensures
            self.note_gate(env, node) matches Ok(next) ==> adds(
                self,
                next,
                self.id,
                NodeKind::NoteGate(node),
            ),
    {
    }

    proof fn lemma_gate_adds(self, env: ParamEnv, node: Gate)
        ensures
            self.gate(env, node) matches Ok(next) ==> adds(
                self,
                next,
                self.id,
                NodeKind::Gate(node),
            ),
    {
    }

    proof fn lemma_small_adds(self, env: ParamEnv, kind: NodeKind)
        requires
            !(kind is Switch),
            !(kind is KeySwitch),
            !(kind is KeyParam),
            !(kind is Mix),
            !(kind is Plugin),
            !(kind is NoteGate),
            !(kind is Gate),
        ensures
            self.compiled(env, kind) matches Ok(next) ==> adds(self, next, self.id, kind),
    {
    }

    proof fn lemma_compiled_adds(self, env: ParamEnv, kind: NodeKind)
        ensures
            self.compiled(env, kind) matches Ok(next) ==> adds(self, next, self.id, kind),
    {
        match kind {
            NodeKind::Switch(node) => {
                self.lemma_switch_adds(env, node);
            },
            NodeKind::KeySwitch(node) => {
                self.lemma_key_switch_adds(env, node);
            },
            NodeKind::KeyParam(node) => {
                self.lemma_key_param_adds(env, node);
            },
            NodeKind::Mix(node) => {
                self.lemma_mix_gains_adds(env, kind, smaller_of(node.inputs as nat, 128));
            },
            NodeKind::Plugin(node) => {
                self.lemma_plugin_params_adds(
                    env,
                    kind,
                    node.instance,
                    node.ports,
                    wireable_params(node.ports),
                );
            },
            NodeKind::NoteGate(node) => {
                self.lemma_note_gate_adds(env, node);
            },
            NodeKind::Gate(node) => {
                self.lemma_gate_adds(env, node);
            },
            _ => {
                self.lemma_small_adds(env, kind);
            },
        }
    }
}

/// An operation was made for some node that runs.
pub open spec fn made_for(
    op: Op,
    graph: Graph,
    order: Seq<NodeId>,
    latches: Seq<NodeId>,
    lfos: Seq<NodeId>,
) -> bool {
    exists|id: NodeId| #[trigger]
        order.contains(id) && set_by(op, id, kind_of(graph, id), latches, lfos)
}

spec fn all_made(model: ParamModel, graph: Graph, order: Seq<NodeId>) -> bool {
    &&& forall|i: int|
        0 <= i < model.ops.len() ==> made_for(
            #[trigger] model.ops[i],
            graph,
            order,
            model.latch_nodes,
            model.lfo_nodes,
        )
    &&& forall|i: int|
        0 <= i < model.deferred.len() ==> made_for(
            #[trigger] model.deferred[i],
            graph,
            order,
            model.latch_nodes,
            model.lfo_nodes,
        )
}

proof fn lemma_made_on(
    model: ParamModel,
    next: ParamModel,
    graph: Graph,
    order: Seq<NodeId>,
    id: NodeId,
)
    requires
        all_made(model, graph, order),
        order.contains(id),
        adds(model, next, id, kind_of(graph, id)),
    ensures
        all_made(next, graph, order),
{
    assert forall|i: int| 0 <= i < next.ops.len() implies made_for(
        #[trigger] next.ops[i],
        graph,
        order,
        next.latch_nodes,
        next.lfo_nodes,
    ) by {
        if i < model.ops.len() {
            assert(next.ops[i] == model.ops[i]);
            assert(made_for(
                model.ops[i],
                graph,
                order,
                model.latch_nodes,
                model.lfo_nodes,
            ));
            let of = choose|of: NodeId| #[trigger]
                order.contains(of) && set_by(
                    model.ops[i],
                    of,
                    kind_of(graph, of),
                    model.latch_nodes,
                    model.lfo_nodes,
                );
            lemma_still_set(model, next, model.ops[i], of, kind_of(graph, of));
            assert(order.contains(of));
        } else {
            assert(order.contains(id));
        }
    }
    assert forall|i: int| 0 <= i < next.deferred.len() implies made_for(
        #[trigger] next.deferred[i],
        graph,
        order,
        next.latch_nodes,
        next.lfo_nodes,
    ) by {
        if i < model.deferred.len() {
            assert(next.deferred[i] == model.deferred[i]);
            assert(made_for(
                model.deferred[i],
                graph,
                order,
                model.latch_nodes,
                model.lfo_nodes,
            ));
            let of = choose|of: NodeId| #[trigger]
                order.contains(of) && set_by(
                    model.deferred[i],
                    of,
                    kind_of(graph, of),
                    model.latch_nodes,
                    model.lfo_nodes,
                );
            lemma_still_set(model, next, model.deferred[i], of, kind_of(graph, of));
            assert(order.contains(of));
        } else {
            assert(order.contains(id));
        }
    }
}

proof fn lemma_stage_made(
    model: ParamModel,
    env: ParamEnv,
    graph: Graph,
    order: Seq<NodeId>,
    of: Seq<usize>,
    stage: int,
    count: nat,
)
    requires
        all_made(model, graph, order),
        count <= order.len(),
    ensures
        params_in_stage(model, env, graph, order, of, stage, count) matches Ok(next) ==> all_made(
            next,
            graph,
            order,
        ),
    decreases count,
{
    if count > 0 {
        lemma_stage_made(model, env, graph, order, of, stage, (count - 1) as nat);
        if let Ok(before) = params_in_stage(
            model,
            env,
            graph,
            order,
            of,
            stage,
            (count - 1) as nat,
        ) {
            if of[count - 1] == stage {
                let id = order[count - 1];
                let kind = kind_of(graph, id);
                let begun = before.begun(id);
                assert(all_made(begun, graph, order));
                begun.lemma_compiled_adds(env, kind);
                if let Ok(next) = begun.compiled(env, kind) {
                    lemma_made_on(begun, next, graph, order, id);
                }
            }
        }
    }
}

proof fn lemma_stages_made(
    env: ParamEnv,
    graph: Graph,
    order: Seq<NodeId>,
    of: Seq<usize>,
    stages: nat,
)
    ensures
        params_in_stages(env, graph, order, of, stages) matches Ok(next) ==> all_made(
            next,
            graph,
            order,
        ),
    decreases stages,
{
    if stages > 0 {
        lemma_stages_made(env, graph, order, of, (stages - 1) as nat);
        if let Ok(model) = params_in_stages(env, graph, order, of, (stages - 1) as nat) {
            lemma_stage_made(model, env, graph, order, of, stages - 1, order.len());
            if let Ok(open) = params_in_stage(
                model,
                env,
                graph,
                order,
                of,
                stages - 1,
                order.len(),
            ) {
                let next = open.closed();
                assert forall|i: int| 0 <= i < next.ops.len() implies made_for(
                    #[trigger] next.ops[i],
                    graph,
                    order,
                    next.latch_nodes,
                    next.lfo_nodes,
                ) by {
                    if i < open.ops.len() {
                        assert(next.ops[i] == open.ops[i]);
                    } else {
                        assert(next.ops[i] == open.deferred[i - open.ops.len()]);
                    }
                }
            }
        }
    }
}

/// Every operation of a compiled program was made for a node of the graph and carries the
/// settings of that node: an oscillator its shape, rate, phase, depth and centre; a
/// follower its way of measuring, its attack and its release; a range its four ends; and so
/// on. One that keeps state keeps it where the node's is kept.
pub proof fn law_operations_carry_the_settings_of_their_nodes(
    graph: Graph,
    slot_count: usize,
    program: ProgramModel,
    k: int,
)
    requires
        compiles_to(graph, slot_count, Ok(program)),
        0 <= k < program.ops.len(),
    ensures
        exists|i: int|
            0 <= i < graph.nodes@.len() && set_by(
                program.ops[k],
                (#[trigger] graph.nodes@[i]).id,
                graph.nodes@[i].kind,
                program.latch_nodes,
                program.lfo_nodes,
            ),
{
    let lines = lines_of(graph.nodes@, graph.nodes@.len())->Ok_0;
    let order = depth_first(graph)->Ok_0;
    let plan = choose|plan: Plan| #[trigger]
        outcome(graph, slot_count, lines, order, plan, Ok(program));
    let of = plan.of@;
    let stages = plan.stages@.len();
    let notes = notes_in_stages(graph, order, of, stages)->Ok_0;
    let env = param_env(graph, slot_count, lines, notes);
    let param = params_in_stages(env, graph, order, of, stages)->Ok_0;
    let sounds = audio_env(graph, lines, order, notes, param);
    let audio = audio_in_stages(sounds, graph, order, of, stages)->Ok_0;
    assert(program == assembled(notes, param, audio, slot_count, lines, plan.stages@));
    lemma_stages_made(env, graph, order, of, stages);
    assert(made_for(param.ops[k], graph, order, param.latch_nodes, param.lfo_nodes));
    let id = choose|id: NodeId| #[trigger]
        order.contains(id) && set_by(
            param.ops[k],
            id,
            kind_of(graph, id),
            param.latch_nodes,
            param.lfo_nodes,
        );
    let at = choose|at: int| 0 <= at < order.len() && order[at] == id;
    assert(find(graph.nodes@, order[at]) is Some);
    crate::graph::lemma_find_from(graph.nodes@, id, 0);
    let i = find(graph.nodes@, id)->0;
    assert(program.ops[k] == told(param.ops[k], param.latch_nodes, audio.follows));
    assert(graph.nodes@[i].id == id);
}

/// A follower of a compiled program is given the attack and the release that its node was
/// set to, whichever node that is.
pub proof fn law_a_compiled_follower_keeps_its_times(
    graph: Graph,
    slot_count: usize,
    program: ProgramModel,
    k: int,
)
    requires
        compiles_to(graph, slot_count, Ok(program)),
        0 <= k < program.ops.len(),
        program.ops[k] is Follow,
    ensures
        program.ops[k] matches Op::Follow { state, detect, attack, release, .. } && state
            < program.latch_nodes.len() && exists|i: int|
            0 <= i < graph.nodes@.len() && (#[trigger] graph.nodes@[i]).id
                == program.latch_nodes[state as int] && (
            graph.nodes@[i].kind matches NodeKind::EnvelopeFollower(node) && detect == node.detect
                && attack == node.attack && release == node.release),
{
    law_operations_carry_the_settings_of_their_nodes(graph, slot_count, program, k);
}

} // verus!
