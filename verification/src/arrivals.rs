//! How late a signal is where it arrives, and how long the delay lines of a compiled
//! program have to be.
use vstd::prelude::*;
use crate::audio_cx::{
    draining, lemma_line_number_from, total_width, AudioEnv, AudioModel, Produced,
};
use crate::compile::{
    assembled, audio_env, audio_in_stage, audio_in_stages, compiles_to, kind_of, lines_of, outcome,
    param_env, params_in_stages,
};
use crate::emit_audio::{
    added, buses_fed, buses_read, latest, latest_source, lemma_buses_read, lemma_buses_read_bound,
    mix_bufs, paired, socket_count, MixSource,
};
use crate::error::CompileError;
use crate::graph::Graph;
use crate::ir::{AudioStep, Buf, Folding, InstanceModel, MixInput, NodeId};
use crate::nodes::{
    AudioIn, AudioOut, DelayRead, DelayWrite, Gate, Mix, NodeKind, Plugin, PluginPorts,
};
use crate::note_half::{notes_in_stages, reader_count};
use crate::number::Real;
use crate::order::depth_first;
use crate::program::ProgramModel;
use crate::stages::Plan;

verus! {

/// From one model to a later one operations were added, none of them a read of a delay
/// line, and nothing was left on a socket.
pub open spec fn keeps(model: AudioModel, next: AudioModel) -> bool {
    &&& next.id == model.id
    &&& next.sources == model.sources
    &&& next.source_widths == model.source_widths
    &&& next.readers == model.readers
    &&& next.produced == model.produced
    &&& next.latency == model.latency
    &&& next.audio_lines == model.audio_lines
    &&& next.ring_seconds == model.ring_seconds
    &&& next.deferred == model.deferred
    &&& next.follows == model.follows
    &&& adds_no_read(model, next)
}

pub open spec fn adds_no_read(model: AudioModel, next: AudioModel) -> bool {
    &&& model.ops.len() <= next.ops.len()
    &&& forall|i: int| 0 <= i < model.ops.len() ==> #[trigger] next.ops[i] == model.ops[i]
    &&& forall|i: int|
        model.ops.len() <= i < next.ops.len() ==> !(#[trigger] next.ops[i] is DelayRead)
}

proof fn lemma_keeps_on(a: AudioModel, b: AudioModel, c: AudioModel)
    requires
        keeps(a, b),
        keeps(b, c),
    ensures
        keeps(a, c),
{
    assert forall|i: int| 0 <= i < a.ops.len() implies #[trigger] c.ops[i] == a.ops[i] by {
        assert(b.ops[i] == a.ops[i]);
    }
    assert forall|i: int| a.ops.len() <= i < c.ops.len() implies !(
    #[trigger] c.ops[i] is DelayRead) by {
        if i < b.ops.len() {
            assert(c.ops[i] == b.ops[i]);
        }
    }
}

/// The same, but for what the node has left on its sockets, all of it so late.
pub open spec fn leaves(model: AudioModel, next: AudioModel, late: u32) -> bool {
    &&& next.id == model.id
    &&& next.latency == model.latency
    &&& next.audio_lines == model.audio_lines
    &&& next.ring_seconds == model.ring_seconds
    &&& next.deferred == model.deferred
    &&& next.follows == model.follows
    &&& adds_no_read(model, next)
    &&& model.produced.len() <= next.produced.len()
    &&& forall|i: int|
        0 <= i < model.produced.len() ==> #[trigger] next.produced[i] == model.produced[i]
    &&& forall|i: int|
        model.produced.len() <= i < next.produced.len() ==> (#[trigger] next.produced[i]).node
            == model.id && next.produced[i].latency == late
}

proof fn lemma_leaves_on(a: AudioModel, b: AudioModel, c: AudioModel, late: u32)
    requires
        leaves(a, b, late),
        leaves(b, c, late),
    ensures
        leaves(a, c, late),
{
    assert forall|i: int| 0 <= i < a.ops.len() implies #[trigger] c.ops[i] == a.ops[i] by {
        assert(b.ops[i] == a.ops[i]);
    }
    assert forall|i: int| a.ops.len() <= i < c.ops.len() implies !(
    #[trigger] c.ops[i] is DelayRead) by {
        if i < b.ops.len() {
            assert(c.ops[i] == b.ops[i]);
        }
    }
    assert forall|i: int| 0 <= i < a.produced.len() implies #[trigger] c.produced[i]
        == a.produced[i] by {
        assert(b.produced[i] == a.produced[i]);
    }
    assert forall|i: int| a.produced.len() <= i < c.produced.len() implies (
    #[trigger] c.produced[i]).node == a.id && c.produced[i].latency == late by {
        if i < b.produced.len() {
            assert(c.produced[i] == b.produced[i]);
        }
    }
}

impl AudioModel {
    pub proof fn lemma_with_source_keeps(self, index: int)
        ensures
            self.with_source(index) matches Ok((next, from)) ==> {
                &&& keeps(self, next)
                &&& from is Some <==> self.source(index) is Some
                &&& from matches Some((buf, late)) ==> late == (self.source(index)->0).1
            },
    {
    }

    proof fn lemma_lined_up_keeps(self, buf: Buf, late: u32, until: u32)
        ensures
            self.lined_up(buf, late, until) matches Ok((next, lined)) ==> keeps(self, next),
    {
    }

    proof fn lemma_consumed_all_keeps(self, bufs: Seq<Buf>, count: nat)
        ensures
            keeps(self, self.consumed_all(bufs, count)),
            self.consumed_all(bufs, count).ops == self.ops,
        decreases count,
    {
        if count > 0 {
            self.lemma_consumed_all_keeps(bufs, (count - 1) as nat);
        }
    }

    proof fn lemma_mix_sources_keeps(self, count: nat)
        requires
            count <= 128,
        ensures
            self.mix_sources(count) matches Ok((next, list)) ==> {
                &&& keeps(self, next)
                &&& forall|k: int|
                    0 <= k < list.len() ==> (#[trigger] list[k]).index < count && (self.source(
                        list[k].index as int,
                    ) matches Some((buf, late)) && late == list[k].late)
                &&& forall|j: int|
                    0 <= j < count && #[trigger] self.source(j) is Some ==> exists|k: int|
                        0 <= k < list.len() && (#[trigger] list[k]).index == j
            },
        decreases count,
    {
        if count > 0 {
            self.lemma_mix_sources_keeps((count - 1) as nat);
            if let Ok((below, list)) = self.mix_sources((count - 1) as nat) {
                below.lemma_with_source_keeps(count - 1);
                assert(below.source(count - 1) == self.source(count - 1));
                if let Ok((next, from)) = below.with_source(count - 1) {
                    lemma_keeps_on(self, below, next);
                    if let Some((buf, late)) = from {
                        let more = list.push(
                            MixSource { index: (count - 1) as u8, buf, late },
                        );
                        assert forall|j: int|
                            0 <= j < count && #[trigger] self.source(j) is Some implies exists|
                            k: int,
                        |
                            0 <= k < more.len() && (#[trigger] more[k]).index == j by {
                            if j < count - 1 {
                                let k = choose|k: int|
                                    0 <= k < list.len() && (#[trigger] list[k]).index == j;
                                assert(more[k] == list[k]);
                            } else {
                                assert(more[list.len() as int].index == j);
                            }
                        }
                    }
                }
            }
        }
    }

    proof fn lemma_mix_inputs_keeps(
        self,
        env: AudioEnv,
        node: Mix,
        sources: Seq<MixSource>,
        count: nat,
    )
        requires
            count <= sources.len(),
            forall|k: int| 0 <= k < sources.len() ==> (#[trigger] sources[k]).index < 128,
        ensures
            self.mix_inputs(env, node, sources, count) matches Ok((next, list)) ==> {
                &&& keeps(self, next)
                &&& list.len() == count
                &&& forall|k: int|
                    0 <= k < count ==> (#[trigger] list[k]).lane == self.lane(
                        env,
                        (2 * sources[k].index + 1) as u8,
                    ) && (if sources[k].index < node.gains@.len() {
                        list[k].gain == node.gains@[sources[k].index as int]
                    } else {
                        list[k].gain.rank() == 0 && !list[k].gain.nan()
                    })
            },
        decreases count,
    {
        if count > 0 {
            self.lemma_mix_inputs_keeps(env, node, sources, (count - 1) as nat);
            if let Ok((below, list)) = self.mix_inputs(env, node, sources, (count - 1) as nat) {
                let from = sources[count - 1];
                below.lemma_lined_up_keeps(from.buf, from.late, latest(sources));
                if let Ok((next, more)) = self.mix_inputs(env, node, sources, count) {
                    lemma_keeps_on(self, below, next);
                    assert forall|k: int| 0 <= k < count implies (#[trigger] more[k]).lane
                        == self.lane(env, (2 * sources[k].index + 1) as u8) && (if sources[k].index
                        < node.gains@.len() {
                        more[k].gain == node.gains@[sources[k].index as int]
                    } else {
                        more[k].gain.rank() == 0 && !more[k].gain.nan()
                    }) by {
                        if k < count - 1 {
                            assert(more[k] == list[k]);
                        }
                    }
                }
            }
        }
    }

    proof fn lemma_bus_buffers_keeps(self, until: u32, count: nat)
        ensures
            self.bus_buffers(until, count) matches Ok((next, list)) ==> keeps(self, next),
        decreases count,
    {
        if count > 0 {
            self.lemma_bus_buffers_keeps(until, (count - 1) as nat);
            if let Ok((below, list)) = self.bus_buffers(until, (count - 1) as nat) {
                if let Some((buf, late)) = below.source(count - 1) {
                    below.lemma_lined_up_keeps(buf, late, until);
                }
                if let Ok((next, more)) = self.bus_buffers(until, count) {
                    lemma_keeps_on(self, below, next);
                }
            }
        }
    }

    proof fn lemma_input_region_keeps(self, bufs: Seq<Buf>, widths: Seq<u16>)
        ensures
            self.input_region(bufs, widths) matches Ok((next, input)) ==> keeps(self, next),
    {
        if let Ok((next, out)) = self.with_buffer_beside(total_width(widths) as u16, 1, bufs) {
            let gathered = next.emitted(
                AudioStep::Gather { out, buses: paired(bufs, widths), folding: Folding::Sum },
            );
            gathered.lemma_consumed_all_keeps(bufs, bufs.len());
            lemma_keeps_on(self, gathered, gathered.consumed_all(bufs, bufs.len()));
        }
    }

    proof fn lemma_main_outputs_leaves(self, shown: Seq<u16>, out: Buf, late: u32, count: nat)
        requires
            count <= 256,
        ensures
            ({
                let next = self.main_outputs(shown, out, late, count);
                &&& leaves(self, next, late)
                &&& forall|p: int|
                    0 <= p < count && #[trigger] shown[p] == 0 ==> left_on(
                        next,
                        self.produced.len() as int,
                        p,
                    )
            }),
        decreases count,
    {
        if count > 0 {
            self.lemma_main_outputs_leaves(shown, out, late, (count - 1) as nat);
            let below = self.main_outputs(shown, out, late, (count - 1) as nat);
            let next = self.main_outputs(shown, out, late, count);
            assert(leaves(below, next, late));
            lemma_leaves_on(self, below, next, late);
            assert forall|p: int| 0 <= p < count && #[trigger] shown[p] == 0 implies left_on(
                next,
                self.produced.len() as int,
                p,
            ) by {
                if p < count - 1 {
                    lemma_still_left(below, next, self.produced.len() as int, p);
                } else {
                    assert(next.produced[next.produced.len() - 1].port == p);
                }
            }
        }
    }

    proof fn lemma_split_outputs_leaves(
        self,
        env: AudioEnv,
        ports: PluginPorts,
        region: Buf,
        late: u32,
        count: nat,
    )
        requires
            count <= 256,
        ensures
            self.split_outputs(env, ports, region, late, count) matches Ok(next) ==> {
                &&& leaves(self, next, late)
                &&& forall|p: int|
                    0 <= p < count && reader_count(env.links, env.order, self.id, #[trigger] (
                    p as u8)) > 0 ==> left_on(next, self.produced.len() as int, p)
            },
        decreases count,
    {
        if count > 0 {
            self.lemma_split_outputs_leaves(env, ports, region, late, (count - 1) as nat);
            if let Ok(below) = self.split_outputs(env, ports, region, late, (count - 1) as nat) {
                if let Ok(next) = self.split_outputs(env, ports, region, late, count) {
                    assert(leaves(below, next, late));
                    lemma_leaves_on(self, below, next, late);
                    assert forall|p: int|
                        0 <= p < count && reader_count(
                            env.links,
                            env.order,
                            self.id,
                            #[trigger] (p as u8),
                        ) > 0 implies left_on(next, self.produced.len() as int, p) by {
                        if p < count - 1 {
                            lemma_still_left(below, next, self.produced.len() as int, p);
                        } else {
                            assert(next.produced[next.produced.len() - 1].port == p);
                        }
                    }
                }
            }
        }
    }
}

/// Something has been left on an output socket since there were `from` things.
pub open spec fn left_on(model: AudioModel, from: int, port: int) -> bool {
    exists|i: int|
        from <= i < model.produced.len() && (#[trigger] model.produced[i]).port == port
}

proof fn lemma_still_left(model: AudioModel, next: AudioModel, from: int, port: int)
    requires
        left_on(model, from, port),
        0 <= from,
        model.produced.len() <= next.produced.len(),
        forall|i: int|
            0 <= i < model.produced.len() ==> #[trigger] next.produced[i] == model.produced[i],
    ensures
        left_on(next, from, port),
{
    let i = choose|i: int|
        from <= i < model.produced.len() && (#[trigger] model.produced[i]).port == port;
    assert(next.produced[i] == model.produced[i]);
}

pub proof fn lemma_latest_source(sources: Seq<Option<(Buf, u32)>>, count: nat)
    requires
        count <= sources.len(),
    ensures
        forall|j: int|
            0 <= j < count ==> (#[trigger] sources[j] matches Some((buf, late)) ==> late
                <= latest_source(sources, count)),
        latest_source(sources, count) == 0 || exists|j: int|
            0 <= j < count && (#[trigger] sources[j] matches Some((buf, late)) && late
                == latest_source(sources, count)),
    decreases count,
{
    if count > 0 {
        lemma_latest_source(sources, (count - 1) as nat);
        assert(sources[count - 1] == sources[count - 1]);
        let before = latest_source(sources, (count - 1) as nat);
        if latest_source(sources, count) == before && before != 0 {
            let j = choose|j: int|
                0 <= j < count - 1 && (#[trigger] sources[j] matches Some((buf, late)) && late
                    == before);
            assert(sources[j] is Some);
        }
    }
}

pub proof fn lemma_buses_fed(sources: Seq<Option<(Buf, u32)>>, count: nat, j: int)
    requires
        0 <= j < count,
        j < sources.len(),
        sources[j] is Some,
    ensures
        j < buses_fed(sources, count) <= count,
    decreases count,
{
    if count > 1 && j < count - 1 {
        lemma_buses_fed(sources, (count - 1) as nat, j);
    }
}

pub proof fn lemma_buses_fed_bound(sources: Seq<Option<(Buf, u32)>>, count: nat)
    ensures
        buses_fed(sources, count) <= count,
    decreases count,
{
    if count > 1 {
        lemma_buses_fed_bound(sources, (count - 1) as nat);
    }
}

/// How late a sum is: as much as it comes to, as far as a count goes.
pub open spec fn counts_to(late: u32, sum: int) -> bool {
    &&& sum <= u32::MAX ==> late == sum
    &&& sum > u32::MAX ==> late == u32::MAX
}

pub proof fn lemma_plugin_leaves(model: AudioModel, env: AudioEnv, node: Plugin)
    requires
        node.ports.audio_out@.len() > 0,
    ensures
        model.plugin(env, node) matches Ok(next) ==> {
            let fed = buses_fed(model.sources, node.ports.audio_in@.len());
            let late = added(latest_source(model.sources, fed), node.ports.latency);
            &&& leaves(model, next, late)
            &&& forall|p: int|
                0 <= p < socket_count(node.ports.shown()) && reader_count(
                    env.links,
                    env.order,
                    model.id,
                    #[trigger] (p as u8),
                ) > 0 ==> left_on(next, model.produced.len() as int, p)
        },
{
    let ports = node.ports;
    let shown = ports.shown();
    let fed = buses_fed(model.sources, ports.audio_in@.len());
    let until = latest_source(model.sources, fed);
    let late = added(until, ports.latency);
    let ins = ports.audio_in@.take(fed as int);
    let read = buses_read(env, model.id, shown, socket_count(shown));
    let outs = ports.audio_out@.take(read as int);
    if let Ok(last) = model.plugin(env, node) {
        model.lemma_bus_buffers_keeps(until, fed);
        let (lined, bufs) = model.bus_buffers(until, fed)->Ok_0;
        lined.lemma_input_region_keeps(bufs, ins);
        let (ready, input) = lined.input_region(bufs, ins)->Ok_0;
        lemma_keeps_on(model, lined, ready);
        let readers = if outs.len() == 1 {
            ready.readers
        } else {
            1
        };
        let (next, output) = ready.with_buffer_beside(
            total_width(outs) as u16,
            readers,
            seq![input],
        )->Ok_0;
        let called = next.emitted(
            AudioStep::Plugin {
                instance: node.instance,
                input,
                input_buses: ins,
                output,
                output_buses: outs,
                notes: next.plugin_notes(env, node.ports),
            },
        ).consumed(input);
        let told = AudioModel {
            instances: called.instances.push(
                InstanceModel {
                    instance: node.instance,
                    input_channels: if ins.len() == 0 {
                        0
                    } else {
                        ins[0]
                    },
                    aux_inputs: if ins.len() == 0 {
                        ins
                    } else {
                        ins.skip(1)
                    },
                    output_channels: outs[0],
                    aux_outputs: outs.skip(1),
                },
            ),
            ..called
        };
        assert(keeps(ready, told));
        lemma_keeps_on(model, ready, told);
        assert(leaves(model, told, late));
        lemma_shown(ports);
        lemma_buses_read_bound(
            env,
            model.id,
            shown,
            socket_count(shown),
            ports.audio_out@.len(),
        );
        if outs.len() == 1 {
            told.lemma_main_outputs_leaves(shown, output, late, socket_count(shown));
            lemma_leaves_on(model, told, last, late);
            assert forall|p: int|
                0 <= p < socket_count(shown) && reader_count(
                    env.links,
                    env.order,
                    model.id,
                    #[trigger] (p as u8),
                ) > 0 implies left_on(last, model.produced.len() as int, p) by {
                lemma_buses_read(env, model.id, shown, (p + 1) as nat, socket_count(shown));
                assert(shown[p] == 0);
            }
        } else {
            told.lemma_split_outputs_leaves(env, ports, output, late, socket_count(shown));
            let split = told.split_outputs(
                env,
                ports,
                output,
                late,
                socket_count(shown),
            )->Ok_0;
            assert(leaves(split, last, late));
            lemma_leaves_on(model, told, split, late);
            lemma_leaves_on(model, split, last, late);
            assert(split.produced == last.produced);
            assert forall|p: int|
                0 <= p < socket_count(shown) && reader_count(
                    env.links,
                    env.order,
                    model.id,
                    #[trigger] (p as u8),
                ) > 0 implies left_on(last, model.produced.len() as int, p) by {
                assert(left_on(split, model.produced.len() as int, p));
            }
        }
    }
}

/// Every bus that has a socket is one of the plugin's.
pub proof fn lemma_shown(ports: PluginPorts)
    requires
        ports.audio_out@.len() > 0,
    ensures
        forall|i: int|
            0 <= i < ports.shown().len() ==> #[trigger] ports.shown()[i] < ports.audio_out@.len(),
{
    let has = |bus: u16| bus < ports.audio_out@.len();
    if ports.audio_out_shown@.len() > 0 {
        assert forall|i: int| 0 <= i < ports.shown().len() implies #[trigger] ports.shown()[i]
            < ports.audio_out@.len() by {
            ports.audio_out_shown@.lemma_filter_pred(has, i);
        }
    }
}

/// What leaves a plugin is late by what its latest input was late by and the plugin's own
/// latency on top, as far as a count goes. A plugin that nothing late is wired to is late
/// by its own latency.
pub proof fn law_a_plugin_adds_its_latency(
    model: AudioModel,
    env: AudioEnv,
    node: Plugin,
    next: AudioModel,
    i: int,
)
    requires
        node.ports.audio_out@.len() > 0,
        model.sources.len() == node.ports.audio_in@.len(),
        model.compiled(env, NodeKind::Plugin(node)) == Ok::<AudioModel, CompileError>(next),
        model.produced.len() <= i < next.produced.len(),
    ensures
        next.produced[i].node == model.id,
        forall|j: int|
            0 <= j < model.sources.len() ==> (#[trigger] model.sources[j] matches Some((buf, late))
                ==> next.produced[i].latency >= late + node.ports.latency
                || next.produced[i].latency == u32::MAX),
        next.produced[i].latency == node.ports.latency || exists|j: int|
            0 <= j < model.sources.len() && (#[trigger] model.sources[j] matches Some((buf, late))
                && counts_to(next.produced[i].latency, late + node.ports.latency)),
{
    lemma_plugin_leaves(model, env, node);
    let count = node.ports.audio_in@.len();
    let fed = buses_fed(model.sources, count);
    lemma_buses_fed_bound(model.sources, count);
    lemma_latest_source(model.sources, fed);
    assert forall|j: int| 0 <= j < model.sources.len() implies (
    #[trigger] model.sources[j] matches Some((buf, late)) ==> next.produced[i].latency >= late
        + node.ports.latency || next.produced[i].latency == u32::MAX) by {
        if model.sources[j] is Some {
            lemma_buses_fed(model.sources, count, j);
        }
    }
}

proof fn lemma_latest_mix(sources: Seq<MixSource>)
    ensures
        forall|k: int| 0 <= k < sources.len() ==> (#[trigger] sources[k]).late <= latest(sources),
        latest(sources) == 0 || exists|k: int|
            0 <= k < sources.len() && (#[trigger] sources[k]).late == latest(sources),
    decreases sources.len(),
{
    if sources.len() > 0 {
        let front = sources.drop_last();
        lemma_latest_mix(front);
        assert forall|k: int| 0 <= k < sources.len() implies (#[trigger] sources[k]).late
            <= latest(sources) by {
            if k < front.len() {
                assert(front[k] == sources[k]);
            }
        }
        if latest(sources) != 0 {
            if latest(sources) == sources.last().late {
                assert(sources[sources.len() - 1].late == latest(sources));
            } else {
                let k = choose|k: int|
                    0 <= k < front.len() && (#[trigger] front[k]).late == latest(front);
                assert(sources[k].late == latest(sources));
            }
        }
    }
}

/// What a mix is made of: the signals that are wired to it, and as many inputs.
proof fn lemma_mix_parts(model: AudioModel, env: AudioEnv, node: Mix, next: AudioModel) -> (parts: (
    Seq<MixSource>,
    Seq<MixInput>,
))
    requires
        model.mix(env, node) == Ok::<AudioModel, CompileError>(next),
    ensures
        ({
            let (sources, inputs) = parts;
            &&& leaves(model, next, latest(sources))
            &&& next.produced.len() == model.produced.len() + 1
            &&& next.produced.last().port == 0
            &&& next.ops.last() == (AudioStep::Mix { out: next.produced.last().buf, inputs })
            &&& inputs.len() == sources.len()
            &&& forall|k: int|
                0 <= k < sources.len() ==> (#[trigger] sources[k]).index < node.inputs
                    && sources[k].index < 128 && (model.source(sources[k].index as int) matches Some(
                    (buf, late),
                ) && late == sources[k].late) && mixes(
                    model,
                    env,
                    node,
                    inputs[k],
                    sources[k].index as int,
                )
            &&& forall|j: int|
                0 <= j < node.inputs && j < 128 && #[trigger] model.source(j) is Some ==> exists|
                    k: int,
                |
                    0 <= k < sources.len() && (#[trigger] sources[k]).index == j
        }),
{
    let count = if node.inputs < 128 {
        node.inputs as nat
    } else {
        128
    };
    model.lemma_mix_sources_keeps(count);
    let (fed, sources) = model.mix_sources(count)->Ok_0;
    fed.lemma_mix_inputs_keeps(env, node, sources, sources.len());
    let (lined, inputs) = fed.mix_inputs(env, node, sources, sources.len())->Ok_0;
    lemma_keeps_on(model, fed, lined);
    let (given, out) = lined.with_buffer_beside(
        node.channels,
        lined.readers,
        mix_bufs(inputs),
    )->Ok_0;
    let mixed = given.emitted(AudioStep::Mix { out, inputs });
    lemma_mix_ends(model, lined, mixed, node, inputs, out, latest(sources));
    assert forall|k: int| 0 <= k < sources.len() implies (#[trigger] sources[k]).index
        < node.inputs && sources[k].index < 128 && (model.source(
        sources[k].index as int,
    ) matches Some((buf, late)) && late == sources[k].late) && mixes(
        model,
        env,
        node,
        inputs[k],
        sources[k].index as int,
    ) by {
        assert(inputs[k].lane == fed.lane(env, (2 * sources[k].index + 1) as u8));
    }
    (sources, inputs)
}

proof fn lemma_mix_ends(
    model: AudioModel,
    lined: AudioModel,
    mixed: AudioModel,
    node: Mix,
    inputs: Seq<MixInput>,
    out: Buf,
    until: u32,
)
    requires
        keeps(model, lined),
        lined.with_buffer_beside(node.channels, lined.readers, mix_bufs(inputs)) matches Ok(
            (given, to),
        ) && to == out && mixed == given.emitted(AudioStep::Mix { out, inputs }),
    ensures
        ({
            let next = mixed.consumed_all(mix_bufs(inputs), inputs.len()).producing(0, out, until);
            &&& leaves(model, next, until)
            &&& next.produced == model.produced.push(
                Produced { node: model.id, port: 0, buf: out, latency: until },
            )
            &&& next.ops.last() == (AudioStep::Mix { out, inputs })
        }),
{
    assert(keeps(lined, mixed));
    lemma_keeps_on(model, lined, mixed);
    mixed.lemma_consumed_all_keeps(mix_bufs(inputs), inputs.len());
    let done = mixed.consumed_all(mix_bufs(inputs), inputs.len());
    lemma_keeps_on(model, mixed, done);
    assert(done.ops == mixed.ops);
}

pub proof fn lemma_mix_leaves(model: AudioModel, env: AudioEnv, node: Mix, next: AudioModel) -> (until:
    u32)
    requires
        model.mix(env, node) == Ok::<AudioModel, CompileError>(next),
    ensures
        leaves(model, next, until),
        next.produced.len() == model.produced.len() + 1,
        next.produced.last().port == 0,
        forall|j: int|
            0 <= j < node.inputs && j < 128 ==> (#[trigger] model.source(j) matches Some((buf, late))
                ==> late <= until),
        until == 0 || exists|j: int|
            0 <= j < node.inputs && j < 128 && (#[trigger] model.source(j) matches Some((buf, late))
                && late == until),
        next.ops.last() matches AudioStep::Mix { out, inputs } && next.produced.last().buf == out
            && (forall|k: int|
            0 <= k < inputs.len() ==> is_wired_input(model, env, node, #[trigger] inputs[k])) && (
        forall|j: int|
            0 <= j < node.inputs && j < 128 && #[trigger] model.source(j) is Some ==> is_mixed(
                model,
                env,
                node,
                inputs,
                j,
            )),
{
    let (sources, inputs) = lemma_mix_parts(model, env, node, next);
    let until = latest(sources);
    lemma_latest_mix(sources);
    assert forall|j: int| 0 <= j < node.inputs && j < 128 implies (
    #[trigger] model.source(j) matches Some((buf, late)) ==> late <= until) by {
        if model.source(j) is Some {
            let k = choose|k: int| 0 <= k < sources.len() && (#[trigger] sources[k]).index == j;
            assert(sources[k].late <= until);
        }
    }
    if until != 0 {
        let k = choose|k: int| 0 <= k < sources.len() && (#[trigger] sources[k]).late == until;
        let j = sources[k].index as int;
        assert(model.source(j) is Some);
    }
    assert forall|k: int| 0 <= k < inputs.len() implies is_wired_input(
        model,
        env,
        node,
        #[trigger] inputs[k],
    ) by {
        let j = sources[k].index as int;
        assert(mixes(model, env, node, inputs[k], j));
    }
    assert forall|j: int|
        0 <= j < node.inputs && j < 128 && #[trigger] model.source(j) is Some implies is_mixed(
        model,
        env,
        node,
        inputs,
        j,
    ) by {
        let k = choose|k: int| 0 <= k < sources.len() && (#[trigger] sources[k]).index == j;
        assert(mixes(model, env, node, inputs[k], j));
    }
    until
}

/// A signal goes into a mix with the gain of its own input: the lane of that input's gain
/// socket, and the number it was set to, or unity where none was.
pub open spec fn mixes(
    model: AudioModel,
    env: AudioEnv,
    node: Mix,
    input: MixInput,
    j: int,
) -> bool {
    &&& input.lane == model.lane(env, (2 * j + 1) as u8)
    &&& j < node.gains@.len() ==> input.gain == node.gains@[j]
    &&& j >= node.gains@.len() ==> input.gain.rank() == 0 && !input.gain.nan()
}

/// What goes into a mix is one of the signals that are wired to it.
pub open spec fn is_wired_input(
    model: AudioModel,
    env: AudioEnv,
    node: Mix,
    input: MixInput,
) -> bool {
    exists|j: int|
        0 <= j < node.inputs && j < 128 && model.source(j) is Some && #[trigger] mixes(
            model,
            env,
            node,
            input,
            j,
        )
}

/// A signal that is wired to a mix goes into it.
pub open spec fn is_mixed(
    model: AudioModel,
    env: AudioEnv,
    node: Mix,
    inputs: Seq<MixInput>,
    j: int,
) -> bool {
    exists|k: int| 0 <= k < inputs.len() && mixes(model, env, node, #[trigger] inputs[k], j)
}

/// A mix is as late as the latest of what is wired to it, and takes in every input that is
/// wired, with that input's own gain and nothing else.
pub proof fn law_a_mix_is_as_late_as_its_latest_input(
    model: AudioModel,
    env: AudioEnv,
    node: Mix,
    next: AudioModel,
)
    requires
        model.compiled(env, NodeKind::Mix(node)) == Ok::<AudioModel, CompileError>(next),
    ensures
        next.produced.len() == model.produced.len() + 1,
        ({
            let made = next.produced.last();
            &&& made.node == model.id
            &&& made.port == 0
            &&& forall|j: int|
                0 <= j < node.inputs && j < 128 ==> (#[trigger] model.source(j) matches Some(
                    (buf, late),
                ) ==> late <= made.latency)
            &&& made.latency == 0 || exists|j: int|
                0 <= j < node.inputs && j < 128 && (#[trigger] model.source(j) matches Some(
                    (buf, late),
                ) && late == made.latency)
            &&& next.ops.last() matches AudioStep::Mix { out, inputs } && made.buf == out && (
            forall|k: int|
                0 <= k < inputs.len() ==> is_wired_input(model, env, node, #[trigger] inputs[k]))
                && (forall|j: int|
                0 <= j < node.inputs && j < 128 && #[trigger] model.source(j) is Some ==> is_mixed(
                    model,
                    env,
                    node,
                    inputs,
                    j,
                ))
        }),
{
    let until = lemma_mix_leaves(model, env, node, next);
}

/// An audio gate is as late as what it lets through, and fades with its own times: in as it
/// opens and out as it shuts. Its gain is the lane of its control socket.
pub proof fn law_a_gate_fades_with_its_own_times(
    model: AudioModel,
    env: AudioEnv,
    node: Gate,
    next: AudioModel,
)
    requires
        model.compiled(env, NodeKind::Gate(node)) == Ok::<AudioModel, CompileError>(next),
    ensures
        next.produced.len() == model.produced.len() + 1,
        ({
            let made = next.produced.last();
            &&& made.node == model.id
            &&& made.port == 0
            &&& model.source(0) matches Some((buf, late)) ==> {
                &&& made.latency == late
                &&& next.ops.last() matches AudioStep::Fade { out, lane, rise, fall, state, .. } && {
                    &&& out == made.buf
                    &&& rise == node.fade_in_ms
                    &&& fall == node.fade_out_ms
                    &&& lane == model.lane(env, 1)
                    &&& env.latch_nodes.contains(model.id) && env.latch_nodes.len() <= u16::MAX
                        ==> state < env.latch_nodes.len() && env.latch_nodes[state as int]
                        == model.id
                }
            }
            &&& model.source(0) is None ==> made.latency == 0 && next.ops.last() == (
            AudioStep::Silence { out: made.buf })
        }),
{
    crate::stages::lemma_index_from(env.latch_nodes, model.id, 0);
}

/// What comes in from the host is not late, and is read off the bus the node was set to. So
/// is what comes off a delay line: the time it has been there is wanted.
pub proof fn law_inputs_and_delays_are_not_late(
    model: AudioModel,
    env: AudioEnv,
    kind: NodeKind,
    next: AudioModel,
)
    requires
        kind is AudioIn || (kind matches NodeKind::DelayRead(node) && node.ty is Audio),
        model.compiled(env, kind) == Ok::<AudioModel, CompileError>(next),
    ensures
        next.produced.len() == model.produced.len() + 1,
        next.produced.last().node == model.id,
        next.produced.last().port == 0,
        next.produced.last().latency == 0,
        kind matches NodeKind::AudioIn(node) ==> next.ops.last() == (AudioStep::Input {
            out: next.produced.last().buf,
            bus: node.bus,
        }),
        kind matches NodeKind::DelayRead(node) ==> (next.ops.last() matches AudioStep::DelayRead {
            out,
            line,
            lane,
            time,
            max_time,
        } && out == next.produced.last().buf && lane == model.lane(env, 0) && time == node.time
            && max_time == node.max_time && (model.audio_lines.len() < u16::MAX ==> line
            < next.audio_lines.len() && next.audio_lines[line as int] == node.line)),
{
    if let NodeKind::DelayRead(node) = kind {
        lemma_line_number_from(model.audio_lines, node.line, 0);
    }
}

/// What goes out to the host is what is wired to the node, on the bus it was set to, and the
/// program is at least as late as that: exactly as late as the latest of what goes out.
pub proof fn law_the_program_is_as_late_as_its_outputs(
    model: AudioModel,
    env: AudioEnv,
    node: AudioOut,
    next: AudioModel,
)
    requires
        model.compiled(env, NodeKind::AudioOut(node)) == Ok::<AudioModel, CompileError>(next),
    ensures
        model.source(0) is None ==> next == model,
        model.source(0) matches Some((buf, late)) ==> {
            &&& next.latency >= late
            &&& next.latency >= model.latency
            &&& next.latency == late || next.latency == model.latency
            &&& next.ops.last() matches AudioStep::Output { a, bus } && bus == node.bus && (
            next.ops.len() == model.ops.len() + 1 ==> a == buf)
        },
        next.produced == model.produced,
{
}

/// A line is asked to be as long as a read: as long as the read's greatest time, or as long
/// as a line can be, which is ten seconds.
pub open spec fn long_enough(ring: Real, max_time: Real) -> bool {
    let most = Real { bits: 0x4024_0000_0000_0000 };
    &&& !ring.nan()
    &&& 0 <= ring.rank() <= most.rank()
    &&& !max_time.nan() ==> ring.rank() >= max_time.rank() || ring.rank() == most.rank()
}

/// Every read so far has a line that is long enough for it, and no line is asked to be
/// longer than the longest read of it.
spec fn rings_fit(model: AudioModel) -> bool {
    &&& model.ring_seconds.len() == model.audio_lines.len()
    &&& model.audio_lines.len() <= 16
    &&& forall|i: int|
        0 <= i < model.ops.len() ==> read_fits(#[trigger] model.ops[i], model.ring_seconds)
    &&& forall|i: int| 0 <= i < model.deferred.len() ==> !(#[trigger] model.deferred[i] is DelayRead)
    &&& forall|l: int|
        0 <= l < model.ring_seconds.len() ==> ring_wanted(
            #[trigger] model.ring_seconds[l],
            l,
            model.ops,
        )
}

/// A read of a line that exists and is long enough.
pub open spec fn read_fits(op: AudioStep, rings: Seq<Real>) -> bool {
    op matches AudioStep::DelayRead { line, max_time, .. } ==> line < rings.len() && long_enough(
        rings[line as int],
        max_time,
    )
}

/// The length of a line is nought, or what one of its reads asks for.
pub open spec fn ring_wanted(ring: Real, line: int, ops: Seq<AudioStep>) -> bool {
    let most = Real { bits: 0x4024_0000_0000_0000 };
    &&& !ring.nan()
    &&& 0 <= ring.rank() <= most.rank()
    &&& ring.rank() == 0 || exists|i: int|
        0 <= i < ops.len() && (#[trigger] ops[i] matches AudioStep::DelayRead { line: of, max_time, .. }
            && of == line && !max_time.nan() && (ring == max_time || (ring == most
            && max_time.rank() >= most.rank())))
}

proof fn lemma_rings_still_fit(model: AudioModel, next: AudioModel)
    requires
        rings_fit(model),
        adds_no_read(model, next),
        next.audio_lines.len() == next.ring_seconds.len(),
        next.audio_lines.len() <= 16,
        model.ring_seconds.len() <= next.ring_seconds.len(),
        forall|l: int|
            0 <= l < model.ring_seconds.len() ==> #[trigger] next.ring_seconds[l]
                == model.ring_seconds[l],
        forall|l: int|
            model.ring_seconds.len() <= l < next.ring_seconds.len() ==> #[trigger] next.ring_seconds[l]
                == Real::zeroed(),
        forall|i: int|
            0 <= i < next.deferred.len() ==> !(#[trigger] next.deferred[i] is DelayRead),
    ensures
        rings_fit(next),
{
    assert forall|i: int| 0 <= i < next.ops.len() implies read_fits(
        #[trigger] next.ops[i],
        next.ring_seconds,
    ) by {
        if i < model.ops.len() {
            assert(next.ops[i] == model.ops[i]);
            assert(read_fits(model.ops[i], model.ring_seconds));
        }
    }
    assert forall|l: int| 0 <= l < next.ring_seconds.len() implies ring_wanted(
        #[trigger] next.ring_seconds[l],
        l,
        next.ops,
    ) by {
        if l < model.ring_seconds.len() {
            lemma_still_wanted(model.ring_seconds[l], l, model.ops, next.ops);
        }
    }
}

proof fn lemma_still_wanted(ring: Real, line: int, ops: Seq<AudioStep>, more: Seq<AudioStep>)
    requires
        ring_wanted(ring, line, ops),
        ops.len() <= more.len(),
        forall|i: int| 0 <= i < ops.len() ==> #[trigger] more[i] == ops[i],
    ensures
        ring_wanted(ring, line, more),
{
    let most = Real { bits: 0x4024_0000_0000_0000 };
    if ring.rank() != 0 {
        let i = choose|i: int|
            0 <= i < ops.len() && (#[trigger] ops[i] matches AudioStep::DelayRead {
                line: of,
                max_time,
                ..
            } && of == line && !max_time.nan() && (ring == max_time || (ring == most
                && max_time.rank() >= most.rank())));
        assert(more[i] == ops[i]);
    }
}

proof fn lemma_read_rings(model: AudioModel, env: AudioEnv, node: DelayRead)
    requires
        rings_fit(model),
    ensures
        model.audio_read(env, node) matches Ok(next) ==> rings_fit(next),
{
    if let Ok(next) = model.audio_read(env, node) {
        if node.ty is Audio {
            lemma_line_number_from(model.audio_lines, node.line, 0);
            let (lined, line) = model.with_line(env, node.line)->Ok_0;
            lemma_rings_still_fit(model, lined);
            let was = lined.ring_seconds[line as int];
            let now = next.ring_seconds[line as int];
            let most = Real { bits: 0x4024_0000_0000_0000 };
            assert(ring_wanted(was, line as int, lined.ops));
            assert(long_enough(now, node.max_time));
            assert(now.rank() >= was.rank());
            let op = next.ops.last();
            assert(next.ops =~= lined.ops.push(op));
            assert forall|i: int| 0 <= i < next.ops.len() implies read_fits(
                #[trigger] next.ops[i],
                next.ring_seconds,
            ) by {
                if i < lined.ops.len() {
                    assert(next.ops[i] == lined.ops[i]);
                    assert(read_fits(lined.ops[i], lined.ring_seconds));
                }
            }
            assert forall|l: int| 0 <= l < next.ring_seconds.len() implies ring_wanted(
                #[trigger] next.ring_seconds[l],
                l,
                next.ops,
            ) by {
                if l != line || now == was {
                    assert(next.ring_seconds[l] == lined.ring_seconds[l]);
                    lemma_still_wanted(lined.ring_seconds[l], l, lined.ops, next.ops);
                } else {
                    assert(next.ops[next.ops.len() - 1] == op);
                }
            }
        }
    }
}

proof fn lemma_write_rings(model: AudioModel, env: AudioEnv, node: DelayWrite)
    requires
        rings_fit(model),
    ensures
        model.audio_write(env, node) matches Ok(next) ==> rings_fit(next),
{
    if let Ok(next) = model.audio_write(env, node) {
        if node.ty is Audio {
            model.lemma_with_source_keeps(0);
            let (fed, from) = model.with_source(0)->Ok_0;
            lemma_rings_still_fit(model, fed);
            lemma_line_number_from(fed.audio_lines, node.line, 0);
            let (lined, line) = fed.with_line(env, node.line)->Ok_0;
            lemma_rings_still_fit(fed, lined);
            lemma_rings_still_fit(lined, next);
        }
    }
}

proof fn lemma_compiled_rings(model: AudioModel, env: AudioEnv, kind: NodeKind)
    requires
        rings_fit(model),
    ensures
        model.compiled(env, kind) matches Ok(next) ==> rings_fit(next),
{
    if let Ok(next) = model.compiled(env, kind) {
        match kind {
            NodeKind::DelayRead(node) => {
                lemma_read_rings(model, env, node);
            },
            NodeKind::DelayWrite(node) => {
                lemma_write_rings(model, env, node);
            },
            NodeKind::Mix(node) => {
                let until = lemma_mix_leaves(model, env, node, next);
                lemma_rings_still_fit(model, next);
            },
            NodeKind::Plugin(node) => {
                if node.ports.audio_out@.len() > 0 {
                    lemma_plugin_leaves(model, env, node);
                    lemma_rings_still_fit(model, next);
                }
            },
            NodeKind::AudioOut(node) => {
                model.lemma_with_source_keeps(0);
                lemma_rings_still_fit(model, next);
            },
            NodeKind::Gate(node) => {
                model.lemma_with_source_keeps(0);
                lemma_rings_still_fit(model, next);
            },
            NodeKind::AudioIn(node) => {
                lemma_rings_still_fit(model, next);
            },
            NodeKind::EnvelopeFollower(node) => {
                lemma_rings_still_fit(model, next);
            },
            _ => {},
        }
    }
}

proof fn lemma_draining_reads_nothing(ops: Seq<AudioStep>, from: int, to: int)
    ensures
        forall|i: int|
            0 <= i < draining(ops, from, to).len() ==> !(#[trigger] draining(
                ops,
                from,
                to,
            )[i] is DelayRead),
    decreases to - from,
{
    if from < to {
        lemma_draining_reads_nothing(ops, from, to - 1);
        let before = draining(ops, from, to - 1);
        let list = draining(ops, from, to);
        assert forall|i: int| 0 <= i < list.len() implies !(#[trigger] list[i] is DelayRead) by {
            if i < before.len() {
                assert(list[i] == before[i]);
            } else {
                assert(list[i] is DelaySilence);
            }
        }
    }
}

proof fn lemma_stage_rings(
    model: AudioModel,
    env: AudioEnv,
    graph: Graph,
    order: Seq<NodeId>,
    of: Seq<usize>,
    stage: int,
    count: nat,
)
    requires
        rings_fit(model),
    ensures
        audio_in_stage(model, env, graph, order, of, stage, count) matches Ok(next) ==> rings_fit(
            next,
        ),
    decreases count,
{
    if count > 0 {
        lemma_stage_rings(model, env, graph, order, of, stage, (count - 1) as nat);
        if let Ok(before) = audio_in_stage(
            model,
            env,
            graph,
            order,
            of,
            stage,
            (count - 1) as nat,
        ) {
            if of[count - 1] == stage {
                let id = order[count - 1];
                let kind = kind_of(graph, id);
                let begun = before.begun(env, id, kind);
                lemma_rings_still_fit(before, begun);
                lemma_compiled_rings(begun, env, kind);
            }
        }
    }
}

proof fn lemma_stages_rings(
    env: AudioEnv,
    graph: Graph,
    order: Seq<NodeId>,
    of: Seq<usize>,
    stages: nat,
)
    ensures
        audio_in_stages(env, graph, order, of, stages) matches Ok(next) ==> rings_fit(next),
    decreases stages,
{
    if stages > 0 {
        lemma_stages_rings(env, graph, order, of, (stages - 1) as nat);
        if let Ok(model) = audio_in_stages(env, graph, order, of, (stages - 1) as nat) {
            lemma_stage_rings(model, env, graph, order, of, stages - 1, order.len());
            if let Ok(open) = audio_in_stage(
                model,
                env,
                graph,
                order,
                of,
                stages - 1,
                order.len(),
            ) {
                let held = open.ops + open.deferred;
                let next = open.closed();
                lemma_draining_reads_nothing(
                    held,
                    open.settled_lines as int,
                    open.audio_lines.len() as int,
                );
                assert forall|i: int| open.ops.len() <= i < next.ops.len() implies !(
                #[trigger] next.ops[i] is DelayRead) by {
                    if i < held.len() {
                        assert(next.ops[i] == open.deferred[i - open.ops.len()]);
                    } else {
                        let rest = draining(
                            held,
                            open.settled_lines as int,
                            open.audio_lines.len() as int,
                        );
                        assert(next.ops[i] == rest[i - held.len()]);
                    }
                }
                lemma_rings_still_fit(open, next);
            }
        }
    }
}

/// In a compiled program every delay line is long enough for the furthest of its reads:
/// whatever other reads share the line, and in whatever order they were compiled, it is
/// asked to be as long as each read's greatest time, or ten seconds where that is more. It
/// is asked to be no longer than one of them asks for.
pub proof fn law_a_line_is_long_enough_for_all_its_reads(
    graph: Graph,
    slot_count: usize,
    program: ProgramModel,
)
    requires
        compiles_to(graph, slot_count, Ok(program)),
    ensures
        forall|i: int|
            0 <= i < program.audio_ops.len() ==> read_fits(
                #[trigger] program.audio_ops[i],
                program.audio_ring_seconds,
            ),
        forall|l: int|
            0 <= l < program.audio_ring_seconds.len() ==> ring_wanted(
                #[trigger] program.audio_ring_seconds[l],
                l,
                program.audio_ops,
            ),
{
    let lines = lines_of(graph.nodes@, graph.nodes@.len())->Ok_0;
    let order = depth_first(graph)->Ok_0;
    let plan = choose|plan: Plan| #[trigger]
        outcome(graph, slot_count, lines, order, plan, Ok(program));
    let of = plan.of@;
    let stages = plan.stages@.len();
    let notes = notes_in_stages(graph, order, of, stages)->Ok_0;
    let param = params_in_stages(
        param_env(graph, slot_count, lines, notes),
        graph,
        order,
        of,
        stages,
    )->Ok_0;
    let env = audio_env(graph, lines, order, notes, param);
    let audio = audio_in_stages(env, graph, order, of, stages)->Ok_0;
    assert(program == assembled(notes, param, audio, slot_count, lines, plan.stages@));
    lemma_stages_rings(env, graph, order, of, stages);
}

} // verus!
