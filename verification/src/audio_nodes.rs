//! What the audio half of a program holds for each kind of node: which buffer is handed to
//! what, and what a plugin is called with.
use vstd::prelude::*;
use crate::arrivals::{lemma_buses_fed, lemma_buses_fed_bound, lemma_latest_source, lemma_shown};
use crate::audio_cx::{
    draining, lemma_line_number_from, line_written, total_width, AudioEnv, AudioModel, Produced,
};
use crate::declare::{line_from, Line};
use crate::emit_audio::{
    added, buses_fed, buses_read, latest_source, lemma_buses_read, lemma_buses_read_bound,
    socket_count,
};
use crate::error::CompileError;
use crate::graph::{source, source_from, Link};
use crate::ir::{AudioStep, Buf, Folding, InstanceModel, LineId, NodeId};
use crate::nodes::{DelayWrite, EnvelopeFollower, NodeKind, Plugin, PluginPorts};
use crate::note_half::reader_count;
use crate::tables::lookup_from;

verus! {

/// Whether something that runs is wired to an output.
pub open spec fn is_read(links: Seq<Link>, order: Seq<NodeId>, node: NodeId, port: u8) -> bool {
    exists|k: int|
        0 <= k < links.len() && (#[trigger] links[k]).from == node && links[k].from_port == port
            && order.contains(links[k].to)
}

pub proof fn lemma_is_read(links: Seq<Link>, order: Seq<NodeId>, node: NodeId, port: u8)
    ensures
        reader_count(links, order, node, port) > 0 <==> is_read(links, order, node, port),
{
    let reads = |link: Link|
        link.from == node && link.from_port == port && order.contains(link.to);
    let readers = links.filter(reads);
    if readers.len() > 0 {
        let link = readers[0];
        links.lemma_filter_pred(reads, 0);
        assert(readers.contains(link));
        links.lemma_filter_contains_rev(reads, link);
        let k = choose|k: int| 0 <= k < links.len() && #[trigger] links[k] == link;
        assert(links[k].from == node);
    }
    if is_read(links, order, node, port) {
        let k = choose|k: int|
            0 <= k < links.len() && (#[trigger] links[k]).from == node && links[k].from_port
                == port && order.contains(links[k].to);
        links.lemma_filter_contains(reads, k);
    }
}

pub proof fn lemma_source_at(links: Seq<Link>, to: NodeId, port: u8, at: int, k: int)
    requires
        0 <= at <= k < links.len(),
        links[k].to == to,
        links[k].to_port == port,
        forall|j: int|
            at <= j < k ==> !((#[trigger] links[j]).to == to && links[j].to_port == port),
    ensures
        source_from(links, to, port, at) == Some((links[k].from, links[k].from_port)),
    decreases k - at,
{
    if at < k {
        assert(!(links[at].to == to && links[at].to_port == port));
        lemma_source_at(links, to, port, at + 1, k);
    }
}

pub proof fn lemma_lookup_at<V>(table: Seq<((u32, u8), V)>, key: (u32, u8), at: int, j: int)
    requires
        0 <= at <= j < table.len(),
        table[j].0 == key,
        forall|i: int| at <= i < j ==> (#[trigger] table[i]).0 != key,
    ensures
        lookup_from(table, key, at) == Some(table[j].1),
    decreases j - at,
{
    if at < j {
        assert(table[at].0 != key);
        lemma_lookup_at(table, key, at + 1, j);
    }
}

/// An input as wide as its socket, or one whose socket has no width, is taken as it is. Any
/// other is taken into a new buffer of the width of the socket, by the mean of its channels
/// where it is wider.
pub proof fn law_an_input_is_taken_at_the_width_of_its_socket(model: AudioModel, index: int)
    requires
        0 <= index < model.sources.len() == model.source_widths.len(),
    ensures
        model.sources[index] is None ==> model.with_source(index) == Ok::<
            (AudioModel, Option<(Buf, u32)>),
            CompileError,
        >((model, None)),
        model.sources[index] matches Some((buf, late)) ==> {
            let want = model.source_widths[index];
            &&& want == 0 || model.pool.widths[buf as int] == want ==> model.with_source(index)
                == Ok::<(AudioModel, Option<(Buf, u32)>), CompileError>(
                (model, Some((buf, late))),
            )
            &&& want != 0 && model.pool.widths[buf as int] != want ==> (model.with_source(
                index,
            ) matches Ok((next, made)) ==> {
                &&& made matches Some((out, still)) && still == late && next.ops
                    == model.ops.push(
                    AudioStep::Gather {
                        out,
                        buses: seq![(buf, want)],
                        folding: Folding::Average,
                    },
                )
            })
        },
{
}

/// A signal that is early by some samples is delayed by that many, and one that is not early
/// is left alone. The signal delayed is nobody else's: where others read the buffer it is
/// copied first. No two are delayed by one compensator.
pub proof fn law_an_early_signal_is_held_back(
    model: AudioModel,
    buf: Buf,
    late: u32,
    until: u32,
)
    requires
        model.compensators < u16::MAX,
    ensures
        late >= until ==> model.lined_up(buf, late, until) == Ok::<
            (AudioModel, Buf),
            CompileError,
        >((model, buf)),
        late < until ==> (model.lined_up(buf, late, until) matches Ok((next, lined)) ==> {
            &&& next.ops.last() matches AudioStep::Compensate { buf: of, slot, samples } && of
                == lined && late + samples == until && slot == model.compensators
            &&& next.compensators == model.compensators + 1
            &&& model.pool.pending[buf as int] <= 1 ==> lined == buf && next.ops.len()
                == model.ops.len() + 1
            &&& model.pool.pending[buf as int] > 1 ==> next.ops.len() == model.ops.len() + 2
                && next.ops[next.ops.len() - 2] == (AudioStep::Gather {
                out: lined,
                buses: seq![(buf, model.pool.widths[buf as int])],
                folding: Folding::Average,
            })
        }),
{
}

/// A follower reads the level of the buffer wired to it.
pub proof fn law_a_follower_follows_what_is_wired(
    model: AudioModel,
    env: AudioEnv,
    node: EnvelopeFollower,
)
    requires
        model.sources.len() > 0,
    ensures
        model.compiled(env, NodeKind::EnvelopeFollower(node)) matches Ok(next) && {
            &&& model.sources[0] is None ==> next == model
            &&& model.sources[0] matches Some((buf, late)) ==> next.follows == model.follows.push(
                (model.id, buf),
            ) && next.ops == model.ops && next.produced == model.produced
        },
{
}

/// What is wired to a write goes into the line that the node names, when everything else of
/// the stage has run. Without a wire nothing is written.
pub proof fn law_a_delay_is_written_from_what_is_wired(
    model: AudioModel,
    env: AudioEnv,
    node: DelayWrite,
    next: AudioModel,
)
    requires
        node.ty is Audio,
        model.audio_lines.len() < u16::MAX,
        model.compiled(env, NodeKind::DelayWrite(node)) == Ok::<AudioModel, CompileError>(next),
    ensures
        next.produced == model.produced,
        model.source(0) is None ==> next.deferred == model.deferred && next.ops == model.ops,
        model.source(0) matches Some((buf, late)) ==> {
            &&& next.deferred.len() == model.deferred.len() + 1
            &&& next.deferred.last() matches AudioStep::DelayWrite { line, a } && line
                < next.audio_lines.len() && next.audio_lines[line as int] == node.line && (
            next.ops.len() == model.ops.len() ==> a == buf)
        },
{
    lemma_line_number_from(model.audio_lines, node.line, 0);
}

proof fn lemma_draining(ops: Seq<AudioStep>, from: int, to: int, line: int)
    requires
        0 <= from <= to <= u16::MAX,
    ensures
        draining(ops, from, to).contains(AudioStep::DelaySilence { line: line as u16 }) && 0
            <= line <= u16::MAX <==> from <= line < to && !line_written(ops, line),
        forall|i: int|
            0 <= i < draining(ops, from, to).len() ==> #[trigger] draining(
                ops,
                from,
                to,
            )[i] is DelaySilence,
    decreases to - from,
{
    if from < to {
        lemma_draining(ops, from, to - 1, line);
        let before = draining(ops, from, to - 1);
        let all = draining(ops, from, to);
        let quiet = AudioStep::DelaySilence { line: line as u16 };
        if all != before {
            assert(all[before.len() as int] == (AudioStep::DelaySilence { line: (to - 1) as u16 }));
            if before.contains(quiet) {
                let k = choose|k: int| 0 <= k < before.len() && before[k] == quiet;
                assert(all[k] == quiet);
            }
            if all.contains(quiet) && 0 <= line <= u16::MAX && line != to - 1 {
                let k = choose|k: int| 0 <= k < all.len() && all[k] == quiet;
                assert(before[k] == quiet);
            }
            assert forall|i: int| 0 <= i < all.len() implies #[trigger] all[i] is DelaySilence by {
                if i < before.len() {
                    assert(all[i] == before[i]);
                }
            }
        }
    }
}

/// At the end of a stage what was held back runs behind everything else, in its order, and
/// then exactly those lines are drained that were first named in the stage and that nothing
/// writes. The next stage starts with nothing held back.
pub proof fn law_what_is_held_back_runs_last(model: AudioModel, i: int, line: u16)
    requires
        model.settled_lines <= model.audio_lines.len() <= u16::MAX,
    ensures
        ({
            let next = model.closed();
            let held = model.ops.len() + model.deferred.len();
            &&& 0 <= i < model.ops.len() ==> next.ops[i] == model.ops[i]
            &&& 0 <= i < model.deferred.len() ==> next.ops[model.ops.len() + i]
                == model.deferred[i]
            &&& held <= i < next.ops.len() ==> next.ops[i] is DelaySilence
            &&& next.ops.len() >= held
            &&& next.ops.skip(held as int).contains(AudioStep::DelaySilence { line }) <==> {
                &&& model.settled_lines <= line < model.audio_lines.len()
                &&& forall|k: int|
                    0 <= k < held ==> !(#[trigger] next.ops[k] matches AudioStep::DelayWrite {
                        line: to,
                        ..
                    } && to == line)
            }
            &&& next.deferred.len() == 0
            &&& next.settled_lines == model.audio_lines.len()
            &&& next.spans.len() == model.spans.len() + 1
        }),
{
    let held = model.ops + model.deferred;
    let rest = draining(held, model.settled_lines as int, model.audio_lines.len() as int);
    let next = model.closed();
    lemma_draining(
        held,
        model.settled_lines as int,
        model.audio_lines.len() as int,
        line as int,
    );
    assert(next.ops.skip(held.len() as int) =~= rest);
    assert forall|k: int| 0 <= k < held.len() implies #[trigger] next.ops[k] == held[k] by {}
    if held.len() <= i < next.ops.len() {
        assert(next.ops[i] == rest[i - held.len()]);
    }
    if line_written(held, line as int) {
        let k = choose|k: int|
            0 <= k < held.len() && (#[trigger] held[k] matches AudioStep::DelayWrite {
                line: to,
                ..
            } && to == line as int);
        assert(next.ops[k] == held[k]);
    }
}

/// A line keeps the number it was given at its first mention, under the node that writes it.
pub proof fn law_a_line_keeps_its_number(
    model: AudioModel,
    env: AudioEnv,
    line: LineId,
    l: int,
    k: int,
)
    requires
        model.audio_lines.len() < u16::MAX,
        model.delay_nodes.len() == model.audio_lines.len() == model.ring_seconds.len(),
        0 <= k < env.lines.len() ==> env.lines[k].id == line && forall|b: int|
            0 <= b < k ==> (#[trigger] env.lines[b]).id != line,
    ensures
        model.with_line(env, line) matches Ok((next, number)) ==> {
            &&& number < next.audio_lines.len()
            &&& next.audio_lines[number as int] == line
            &&& 0 <= l < model.audio_lines.len() ==> next.audio_lines[l] == model.audio_lines[l]
                && next.delay_nodes[l] == model.delay_nodes[l] && next.ring_seconds[l]
                == model.ring_seconds[l]
            &&& model.audio_lines.contains(line) ==> next == model
            &&& !model.audio_lines.contains(line) ==> number == model.audio_lines.len()
                && next.audio_lines.len() == number + 1 && next.delay_nodes.len() == number + 1
                && next.ring_seconds.last().rank() == 0 && (0 <= k < env.lines.len()
                ==> next.delay_nodes[number as int] == env.lines[k].writer)
        },
{
    lemma_line_number_from(model.audio_lines, line, 0);
    if 0 <= k < env.lines.len() {
        lemma_line_at(env.lines, line, 0, k);
    }
}

proof fn lemma_line_at(lines: Seq<Line>, id: LineId, at: int, k: int)
    requires
        0 <= at <= k < lines.len(),
        lines[k].id == id,
        forall|b: int| at <= b < k ==> (#[trigger] lines[b]).id != id,
    ensures
        line_from(lines, id, at) == Some(k),
    decreases k - at,
{
    if at < k {
        assert(lines[at].id != id);
        lemma_line_at(lines, id, at + 1, k);
    }
}

/// From one model to a later one operations were added, and no plugin was told of.
pub open spec fn tells_nothing(model: AudioModel, next: AudioModel) -> bool {
    &&& next.id == model.id
    &&& next.readers == model.readers
    &&& next.sources == model.sources
    &&& next.instances == model.instances
    &&& model.ops.len() <= next.ops.len()
    &&& forall|i: int| 0 <= i < model.ops.len() ==> #[trigger] next.ops[i] == model.ops[i]
}

proof fn lemma_tells_on(a: AudioModel, b: AudioModel, c: AudioModel)
    requires
        tells_nothing(a, b),
        tells_nothing(b, c),
    ensures
        tells_nothing(a, c),
{
    assert forall|i: int| 0 <= i < a.ops.len() implies #[trigger] c.ops[i] == a.ops[i] by {
        assert(b.ops[i] == a.ops[i]);
    }
}

impl AudioModel {
    proof fn lemma_consumed_all_tells(self, bufs: Seq<Buf>, count: nat)
        ensures
            tells_nothing(self, self.consumed_all(bufs, count)),
        decreases count,
    {
        if count > 0 {
            self.lemma_consumed_all_tells(bufs, (count - 1) as nat);
        }
    }

    proof fn lemma_consumed_all_emits_nothing(self, bufs: Seq<Buf>, count: nat)
        ensures
            self.consumed_all(bufs, count).ops == self.ops,
        decreases count,
    {
        if count > 0 {
            self.lemma_consumed_all_emits_nothing(bufs, (count - 1) as nat);
        }
    }

    proof fn lemma_bus_buffers_tells(self, until: u32, count: nat)
        ensures
            self.bus_buffers(until, count) matches Ok((next, list)) ==> tells_nothing(self, next)
                && list.len() == count,
        decreases count,
    {
        if count > 0 {
            self.lemma_bus_buffers_tells(until, (count - 1) as nat);
            if let Ok((below, list)) = self.bus_buffers(until, (count - 1) as nat) {
                if let Ok((next, more)) = self.bus_buffers(until, count) {
                    assert(tells_nothing(below, next));
                    lemma_tells_on(self, below, next);
                }
            }
        }
    }

    proof fn lemma_input_region_tells(self, bufs: Seq<Buf>, widths: Seq<u16>)
        ensures
            self.input_region(bufs, widths) matches Ok((next, input)) ==> tells_nothing(
                self,
                next,
            ),
    {
        if let Ok((next, out)) = self.with_buffer_beside(total_width(widths) as u16, 1, bufs) {
            let gathered = next.emitted(
                AudioStep::Gather {
                    out,
                    buses: crate::emit_audio::paired(bufs, widths),
                    folding: Folding::Sum,
                },
            );
            gathered.lemma_consumed_all_tells(bufs, bufs.len());
            assert(tells_nothing(self, gathered));
            lemma_tells_on(self, gathered, gathered.consumed_all(bufs, bufs.len()));
        }
    }

    proof fn lemma_main_outputs_tells(self, shown: Seq<u16>, out: Buf, late: u32, count: nat)
        requires
            count <= 256,
        ensures
            tells_nothing(self, self.main_outputs(shown, out, late, count)),
            self.main_outputs(shown, out, late, count).ops == self.ops,
            forall|p: int|
                0 <= p < count && #[trigger] shown[p] == 0 ==> holds_all(
                    self.main_outputs(shown, out, late, count),
                    self.id,
                    out,
                    p,
                ),
        decreases count,
    {
        if count > 0 {
            self.lemma_main_outputs_tells(shown, out, late, (count - 1) as nat);
            let below = self.main_outputs(shown, out, late, (count - 1) as nat);
            let next = self.main_outputs(shown, out, late, count);
            assert forall|p: int| 0 <= p < count && #[trigger] shown[p] == 0 implies holds_all(
                next,
                self.id,
                out,
                p,
            ) by {
                if p < count - 1 {
                    assert(holds_all(below, self.id, out, p));
                    let m = choose|m: int|
                        0 <= m < below.produced.len() && (#[trigger] below.produced[m]).node
                            == self.id && below.produced[m].port == p && below.produced[m].buf
                            == out;
                    assert(next.produced[m] == below.produced[m]);
                } else {
                    assert(next.produced[next.produced.len() - 1].port == p);
                }
            }
        }
    }

    proof fn lemma_split_outputs_tells(
        self,
        env: AudioEnv,
        ports: PluginPorts,
        region: Buf,
        late: u32,
        count: nat,
    )
        requires
            count <= 256,
        ensures
            self.split_outputs(env, ports, region, late, count) matches Ok(next) ==> {
                &&& tells_nothing(self, next)
                &&& forall|p: int|
                    0 <= p < count && is_read(env.links, env.order, self.id, #[trigger] (p as u8))
                        ==> taken_apart(self, next, ports, region, p)
            },
        decreases count,
    {
        if count > 0 {
            self.lemma_split_outputs_tells(env, ports, region, late, (count - 1) as nat);
            if let Ok(below) = self.split_outputs(env, ports, region, late, (count - 1) as nat) {
                if let Ok(next) = self.split_outputs(env, ports, region, late, count) {
                    assert(tells_nothing(below, next));
                    lemma_tells_on(self, below, next);
                    assert forall|p: int|
                        0 <= p < count && is_read(
                            env.links,
                            env.order,
                            self.id,
                            #[trigger] (p as u8),
                        ) implies taken_apart(self, next, ports, region, p) by {
                        lemma_is_read(env.links, env.order, self.id, p as u8);
                        if p < count - 1 {
                            assert(taken_apart(self, below, ports, region, p));
                            let i = choose|i: int|
                                self.ops.len() <= i < below.ops.len() && splits_off(
                                    #[trigger] below.ops[i],
                                    below.produced,
                                    ports,
                                    region,
                                    self.id,
                                    p,
                                );
                            assert(next.ops[i] == below.ops[i]);
                            let m = choose|m: int|
                                0 <= m < below.produced.len() && made_by(
                                    #[trigger] below.produced[m],
                                    below.ops[i],
                                    self.id,
                                    p,
                                );
                            assert(next.produced[m] == below.produced[m]);
                            assert(splits_off(
                                next.ops[i],
                                next.produced,
                                ports,
                                region,
                                self.id,
                                p,
                            ));
                        } else {
                            let m = next.produced.len() - 1;
                            let i = next.ops.len() - 1;
                            assert(made_by(next.produced[m], next.ops[i], self.id, p));
                            assert(splits_off(
                                next.ops[i],
                                next.produced,
                                ports,
                                region,
                                self.id,
                                p,
                            ));
                        }
                    }
                }
            }
        }
    }
}

/// Whether an output is left with a buffer.
pub open spec fn holds_all(model: AudioModel, node: NodeId, buf: Buf, port: int) -> bool {
    exists|m: int|
        0 <= m < model.produced.len() && (#[trigger] model.produced[m]).node == node
            && model.produced[m].port == port && model.produced[m].buf == buf
}

/// Whether an output is left with what a step fills.
pub open spec fn made_by(made: Produced, step: AudioStep, node: NodeId, port: int) -> bool {
    made.node == node && made.port == port && (step matches AudioStep::Split { out, .. } && out
        == made.buf)
}

spec fn splits_off(
    step: AudioStep,
    produced: Seq<Produced>,
    ports: PluginPorts,
    region: Buf,
    node: NodeId,
    port: int,
) -> bool {
    let bus = ports.shown()[port] as int;
    &&& step matches AudioStep::Split { from, out, channel, width } && from == region && width
        == ports.audio_out@[bus] && channel == total_width(ports.audio_out@.take(bus)) as u16
    &&& exists|m: int|
        0 <= m < produced.len() && made_by(#[trigger] produced[m], step, node, port)
}

spec fn taken_apart(
    model: AudioModel,
    next: AudioModel,
    ports: PluginPorts,
    region: Buf,
    port: int,
) -> bool {
    exists|i: int|
        model.ops.len() <= i < next.ops.len() && splits_off(
            #[trigger] next.ops[i],
            next.produced,
            ports,
            region,
            model.id,
            port,
        )
}

/// How many channels the first `bus` buses have together.
pub open spec fn channels_before(widths: Seq<u16>, bus: int) -> int
    decreases bus,
{
    if bus <= 0 {
        0
    } else {
        channels_before(widths, bus - 1) + widths[bus - 1]
    }
}

proof fn lemma_channels_before(widths: Seq<u16>, bus: int)
    requires
        0 <= bus <= widths.len(),
    ensures
        total_width(widths.take(bus)) == channels_before(widths, bus),
    decreases bus,
{
    if bus > 0 {
        assert(widths.take(bus).drop_last() =~= widths.take(bus - 1));
        lemma_channels_before(widths, bus - 1);
    }
}

proof fn lemma_channels_grow(widths: Seq<u16>, bus: int, more: int)
    requires
        0 <= bus <= more <= widths.len(),
    ensures
        0 <= channels_before(widths, bus) <= channels_before(widths, more),
    decreases more,
{
    if bus < more {
        lemma_channels_grow(widths, bus, more - 1);
    } else if more > 0 {
        lemma_channels_grow(widths, bus - 1, more - 1);
    }
}

proof fn lemma_last_fed(sources: Seq<Option<(Buf, u32)>>, count: nat)
    requires
        count <= sources.len(),
    ensures
        ({
            let fed = buses_fed(sources, count);
            &&& count > 0 ==> fed > 0
            &&& fed > 1 ==> sources[fed - 1] is Some
        }),
    decreases count,
{
    if count > 1 && sources[count - 1] is None {
        lemma_last_fed(sources, (count - 1) as nat);
    }
}

proof fn lemma_last_read(env: AudioEnv, id: u32, shown: Seq<u16>, count: nat)
    requires
        count <= 256,
    ensures
        ({
            let read = buses_read(env, id, shown, count);
            read > 1 ==> exists|p: int|
                0 <= p < count && is_read(env.links, env.order, id, #[trigger] (p as u8))
                    && shown[p] + 1 == read
        }),
    decreases count,
{
    if count > 0 {
        lemma_last_read(env, id, shown, (count - 1) as nat);
        lemma_is_read(env.links, env.order, id, (count - 1) as u8);
        let p = count - 1;
        if buses_read(env, id, shown, count) != buses_read(env, id, shown, (count - 1) as nat) {
            assert(is_read(env.links, env.order, id, p as u8) && shown[p] + 1 == buses_read(
                env,
                id,
                shown,
                count,
            ));
        }
    }
}

/// Whether a plugin is run with an input bus list: the buses the plugin declares, from the
/// main one up to the last that something is wired to.
pub open spec fn inputs_as_wired(model: AudioModel, ports: PluginPorts, buses: Seq<u16>) -> bool {
    &&& buses.len() <= ports.audio_in@.len()
    &&& forall|i: int| 0 <= i < buses.len() ==> #[trigger] buses[i] == ports.audio_in@[i]
    &&& ports.audio_in@.len() > 0 ==> buses.len() > 0
    &&& forall|j: int|
        0 <= j < model.sources.len() && #[trigger] model.sources[j] is Some ==> j < buses.len()
    &&& buses.len() > 1 ==> model.sources[buses.len() - 1] is Some
}

/// Whether a plugin is run with an output bus list: the buses the plugin declares, from the
/// main one up to the last that something reads.
pub open spec fn outputs_as_read(
    model: AudioModel,
    env: AudioEnv,
    ports: PluginPorts,
    buses: Seq<u16>,
) -> bool {
    &&& 0 < buses.len() <= ports.audio_out@.len()
    &&& forall|i: int| 0 <= i < buses.len() ==> #[trigger] buses[i] == ports.audio_out@[i]
    &&& forall|p: int|
        0 <= p < ports.shown().len() && p < 256 && is_read(
            env.links,
            env.order,
            model.id,
            #[trigger] (p as u8),
        ) ==> ports.shown()[p] < buses.len()
    &&& buses.len() > 1 ==> exists|p: int|
        0 <= p < ports.shown().len() && p < 256 && is_read(
            env.links,
            env.order,
            model.id,
            #[trigger] (p as u8),
        ) && ports.shown()[p] + 1 == buses.len()
}

/// Whether `notes` is the note buffer wired to a plugin: to the socket after its audio
/// inputs, and only where the plugin takes notes.
pub open spec fn notes_as_wired(
    model: AudioModel,
    env: AudioEnv,
    ports: PluginPorts,
    notes: Option<u16>,
) -> bool {
    let socket = ports.audio_in@.len();
    &&& !ports.accepts_notes ==> notes is None
    &&& forall|k: int, j: int|
        ports.accepts_notes && socket < 256 && 0 <= k < env.links.len() && 0 <= j
            < env.note_outputs.len() && (#[trigger] env.links[k]).to == model.id
            && env.links[k].to_port == socket && (forall|b: int|
            0 <= b < k ==> !((#[trigger] env.links[b]).to == model.id && env.links[b].to_port
                == socket)) && (#[trigger] env.note_outputs[j]).0 == (
            env.links[k].from,
            env.links[k].from_port,
        ) && (forall|b: int|
            0 <= b < j ==> (#[trigger] env.note_outputs[b]).0 != (
                env.links[k].from,
                env.links[k].from_port,
            )) ==> notes == Some(env.note_outputs[j].1)
}

proof fn lemma_notes_as_wired(model: AudioModel, env: AudioEnv, ports: PluginPorts)
    ensures
        notes_as_wired(model, env, ports, model.plugin_notes(env, ports)),
{
    let socket = ports.audio_in@.len();
    let notes = model.plugin_notes(env, ports);
    assert forall|k: int, j: int|
        ports.accepts_notes && socket < 256 && 0 <= k < env.links.len() && 0 <= j
            < env.note_outputs.len() && (#[trigger] env.links[k]).to == model.id
            && env.links[k].to_port == socket && (forall|b: int|
            0 <= b < k ==> !((#[trigger] env.links[b]).to == model.id && env.links[b].to_port
                == socket)) && (#[trigger] env.note_outputs[j]).0 == (
            env.links[k].from,
            env.links[k].from_port,
        ) && (forall|b: int|
            0 <= b < j ==> (#[trigger] env.note_outputs[b]).0 != (
                env.links[k].from,
                env.links[k].from_port,
            )) implies notes == Some(env.note_outputs[j].1) by {
        lemma_source_at(env.links, model.id, socket as u8, 0, k);
        lemma_lookup_at(env.note_outputs, (env.links[k].from, env.links[k].from_port), 0, j);
    }
}

/// Whether a step is the call of a plugin as it is wired.
pub open spec fn calls_as_wired(
    model: AudioModel,
    env: AudioEnv,
    node: Plugin,
    step: AudioStep,
) -> bool {
    step matches AudioStep::Plugin { instance, input_buses, output_buses, notes, .. } && {
        &&& instance == node.instance
        &&& inputs_as_wired(model, node.ports, input_buses)
        &&& outputs_as_read(model, env, node.ports, output_buses)
        &&& notes_as_wired(model, env, node.ports, notes)
    }
}

/// Whether the host is told to set a plugin up for the buses it is called with.
pub open spec fn told_of(told: InstanceModel, step: AudioStep) -> bool {
    step matches AudioStep::Plugin { instance, input_buses, output_buses, .. } && {
        &&& told.instance == instance
        &&& input_buses.len() == 0 ==> told.input_channels == 0 && told.aux_inputs.len() == 0
        &&& input_buses.len() > 0 ==> told.input_channels == input_buses[0] && told.aux_inputs.len()
            == input_buses.len() - 1 && (forall|i: int|
            0 < i < input_buses.len() ==> #[trigger] input_buses[i] == told.aux_inputs[i - 1])
        &&& told.output_channels == output_buses[0]
        &&& told.aux_outputs.len() == output_buses.len() - 1
        &&& forall|i: int|
            0 < i < output_buses.len() ==> #[trigger] output_buses[i] == told.aux_outputs[i - 1]
    }
}

/// Whether a step takes an output's bus out of what a plugin left, behind the channels of
/// the buses before it, and the output is left with it.
pub open spec fn takes_bus_out(
    step: AudioStep,
    produced: Seq<Produced>,
    call: AudioStep,
    ports: PluginPorts,
    node: NodeId,
    port: int,
) -> bool {
    let bus = ports.shown()[port] as int;
    &&& step matches AudioStep::Split { from, out, channel, width } && width
        == ports.audio_out@[bus] && channel == channels_before(ports.audio_out@, bus) && (
    call matches AudioStep::Plugin { output, .. } && from == output)
    &&& exists|m: int|
        0 <= m < produced.len() && made_by(#[trigger] produced[m], step, node, port)
}

/// Whether an output that is read is left with its bus: of a plugin with one output bus the
/// whole of what it left, of any other the channels of the bus.
pub open spec fn output_left(
    model: AudioModel,
    next: AudioModel,
    at: int,
    ports: PluginPorts,
    port: int,
) -> bool {
    next.ops[at] matches AudioStep::Plugin { output, output_buses, .. } ==> {
        &&& output_buses.len() == 1 ==> holds_all(next, model.id, output, port)
        &&& output_buses.len() > 1 ==> exists|i: int|
            at < i < next.ops.len() && takes_bus_out(
                #[trigger] next.ops[i],
                next.produced,
                next.ops[at],
                ports,
                model.id,
                port,
            )
    }
}

/// A plugin is called once as it is wired, the host is told what to set it up for, and each
/// output that something reads is left with the bus it shows.
pub proof fn law_a_plugin_is_called_as_it_is_wired(
    model: AudioModel,
    env: AudioEnv,
    node: Plugin,
    next: AudioModel,
) -> (at: int)
    requires
        node.ports.audio_out@.len() > 0,
        model.sources.len() == node.ports.audio_in@.len(),
        model.compiled(env, NodeKind::Plugin(node)) == Ok::<AudioModel, CompileError>(next),
    ensures
        model.ops.len() <= at < next.ops.len(),
        calls_as_wired(model, env, node, next.ops[at]),
        next.instances.len() == model.instances.len() + 1,
        forall|i: int|
            0 <= i < model.instances.len() ==> #[trigger] next.instances[i] == model.instances[i],
        told_of(next.instances.last(), next.ops[at]),
        forall|p: int|
            0 <= p < node.ports.shown().len() && p < 256 && is_read(
                env.links,
                env.order,
                model.id,
                #[trigger] (p as u8),
            ) ==> output_left(model, next, at, node.ports, p),
{
    let ports = node.ports;
    let shown = ports.shown();
    let count = socket_count(shown);
    let fed = buses_fed(model.sources, ports.audio_in@.len());
    let until = latest_source(model.sources, fed);
    let late = added(until, ports.latency);
    let ins = ports.audio_in@.take(fed as int);
    let read = buses_read(env, model.id, shown, count);
    let outs = ports.audio_out@.take(read as int);
    lemma_buses_fed_bound(model.sources, ports.audio_in@.len());
    lemma_last_fed(model.sources, ports.audio_in@.len());
    lemma_shown(ports);
    lemma_buses_read_bound(env, model.id, shown, count, ports.audio_out@.len());
    lemma_last_read(env, model.id, shown, count);
    model.lemma_bus_buffers_tells(until, fed);
    let (lined, bufs) = model.bus_buffers(until, fed)->Ok_0;
    lined.lemma_input_region_tells(bufs, ins);
    let (ready, input) = lined.input_region(bufs, ins)->Ok_0;
    lemma_tells_on(model, lined, ready);
    let readers = if outs.len() == 1 {
        ready.readers
    } else {
        1
    };
    let (wide, output) = ready.with_buffer_beside(
        total_width(outs) as u16,
        readers,
        seq![input],
    )->Ok_0;
    let step = AudioStep::Plugin {
        instance: node.instance,
        input,
        input_buses: ins,
        output,
        output_buses: outs,
        notes: wide.plugin_notes(env, ports),
    };
    let called = wide.emitted(step).consumed(input);
    let info = InstanceModel {
        instance: node.instance,
        input_channels: if ins.len() == 0 {
            0
        } else {
            ins[0]
        },
        aux_inputs: if ins.len() == 0 {
            ins
        } else {
            ins.skip(1)
        },
        output_channels: outs[0],
        aux_outputs: outs.skip(1),
    };
    let told = AudioModel { instances: called.instances.push(info), ..called };
    let at = ready.ops.len() as int;
    assert(told.ops[at] == step);
    lemma_notes_as_wired(wide, env, ports);
    assert(notes_as_wired(model, env, ports, wide.plugin_notes(env, ports)));
    assert forall|j: int| 0 <= j < model.sources.len() && #[trigger] model.sources[j] is Some implies j
        < ins.len() by {
        lemma_buses_fed(model.sources, ports.audio_in@.len(), j);
    }
    assert(inputs_as_wired(model, ports, ins));
    assert forall|p: int|
        0 <= p < shown.len() && p < 256 && is_read(
            env.links,
            env.order,
            model.id,
            #[trigger] (p as u8),
        ) implies shown[p] < outs.len() by {
        lemma_is_read(env.links, env.order, model.id, p as u8);
        lemma_buses_read(env, model.id, shown, (p + 1) as nat, count);
    }
    assert(outputs_as_read(model, env, ports, outs));
    assert(told_of(info, step));
    if outs.len() == 1 {
        told.lemma_main_outputs_tells(shown, output, late, count);
        assert(next.ops[at] == step);
        assert forall|p: int|
            0 <= p < shown.len() && p < 256 && is_read(
                env.links,
                env.order,
                model.id,
                #[trigger] (p as u8),
            ) implies output_left(model, next, at, ports, p) by {
            assert(shown[p] == 0);
            assert(holds_all(next, model.id, output, p));
        }
    } else {
        told.lemma_split_outputs_tells(env, ports, output, late, count);
        let split = told.split_outputs(env, ports, output, late, count)->Ok_0;
        assert(split.ops[at] == told.ops[at]);
        assert(next.ops == split.ops && next.produced == split.produced);
        lemma_channels_before(ports.audio_out@, read as int);
        assert forall|p: int|
            0 <= p < shown.len() && p < 256 && is_read(
                env.links,
                env.order,
                model.id,
                #[trigger] (p as u8),
            ) implies output_left(model, next, at, ports, p) by {
            assert(taken_apart(told, split, ports, output, p));
            let i = choose|i: int|
                told.ops.len() <= i < split.ops.len() && splits_off(
                    #[trigger] split.ops[i],
                    split.produced,
                    ports,
                    output,
                    told.id,
                    p,
                );
            let bus = shown[p] as int;
            lemma_channels_before(ports.audio_out@, bus);
            lemma_channels_grow(ports.audio_out@, bus, read as int);
            assert(takes_bus_out(next.ops[i], next.produced, next.ops[at], ports, model.id, p));
        }
    }
    at
}

impl AudioModel {
    proof fn lemma_bus_buffers_of(self, until: u32, count: nat)
        ensures
            self.bus_buffers(until, count) matches Ok((next, list)) ==> {
                &&& list.len() == count
                &&& forall|i: int|
                    0 <= i < count ==> fed_from(self, next, #[trigger] list[i], until, i)
            },
        decreases count,
    {
        if count > 0 {
            self.lemma_bus_buffers_of(until, (count - 1) as nat);
            self.lemma_bus_buffers_tells(until, (count - 1) as nat);
            if let Ok((below, list)) = self.bus_buffers(until, (count - 1) as nat) {
                if let Ok((next, more)) = self.bus_buffers(until, count) {
                    assert(tells_nothing(below, next));
                    assert forall|i: int| 0 <= i < count implies fed_from(
                        self,
                        next,
                        #[trigger] more[i],
                        until,
                        i,
                    ) by {
                        if i < count - 1 {
                            assert(more[i] == list[i]);
                            assert(fed_from(self, below, list[i], until, i));
                            lemma_still_silenced(below, next, list[i]);
                        } else if self.source(i) is None {
                            assert(next.ops[next.ops.len() - 1] == (AudioStep::Silence {
                                out: more[i],
                            }));
                        }
                    }
                }
            }
        }
    }
}

/// Whether a buffer is silenced.
pub open spec fn silenced(model: AudioModel, buf: Buf) -> bool {
    exists|i: int|
        0 <= i < model.ops.len() && #[trigger] model.ops[i] == (AudioStep::Silence { out: buf })
}

proof fn lemma_still_silenced(model: AudioModel, next: AudioModel, buf: Buf)
    requires
        tells_nothing(model, next),
    ensures
        silenced(model, buf) ==> silenced(next, buf),
{
    if silenced(model, buf) {
        let i = choose|i: int|
            0 <= i < model.ops.len() && #[trigger] model.ops[i] == (AudioStep::Silence {
                out: buf,
            });
        assert(next.ops[i] == model.ops[i]);
    }
}

/// Whether a buffer holds what is wired to an input: the buffer itself, where it need not
/// wait for another, and silence where nothing is wired.
pub open spec fn fed_from(
    model: AudioModel,
    next: AudioModel,
    buf: Buf,
    until: u32,
    input: int,
) -> bool {
    &&& model.source(input) matches Some((wired, late)) ==> late >= until ==> buf == wired
    &&& model.source(input) is None ==> silenced(next, buf)
}

/// Whether a region holds some buses one behind the other.
pub open spec fn gathers(model: AudioModel, region: Buf, bufs: Seq<Buf>, widths: Seq<u16>) -> bool {
    exists|i: int|
        0 <= i < model.ops.len() && (#[trigger] model.ops[i] matches AudioStep::Gather {
            out,
            buses,
            folding,
        } && out == region && folding is Sum && buses.len() == bufs.len() && (forall|b: int|
            0 <= b < bufs.len() ==> #[trigger] buses[b] == (bufs[b], widths[b])))
}

/// A plugin's input is what is wired to its buses, bus by bus and at the width that the
/// plugin declares for each; a bus that nothing is wired to is silent.
pub proof fn law_a_plugin_is_fed_bus_by_bus(
    model: AudioModel,
    env: AudioEnv,
    node: Plugin,
    next: AudioModel,
    late: u32,
) -> (found: (int, Seq<Buf>))
    requires
        node.ports.audio_out@.len() > 0,
        node.ports.audio_in@.len() > 0,
        model.sources.len() == node.ports.audio_in@.len(),
        model.compiled(env, NodeKind::Plugin(node)) == Ok::<AudioModel, CompileError>(next),
        forall|j: int|
            0 <= j < model.sources.len() ==> (#[trigger] model.sources[j] matches Some((buf, l))
                ==> l == late),
    ensures
        model.ops.len() <= found.0 < next.ops.len(),
        next.ops[found.0] matches AudioStep::Plugin { input, input_buses, .. } && {
            let bufs = found.1;
            &&& bufs.len() == input_buses.len()
            &&& forall|i: int|
                0 <= i < bufs.len() ==> (#[trigger] model.sources[i] matches Some((buf, l))
                    ==> bufs[i] == buf)
            &&& forall|i: int|
                0 <= i < bufs.len() ==> (#[trigger] model.sources[i] is None ==> silenced(
                    next,
                    bufs[i],
                ))
            &&& (bufs.len() == 1 && input == bufs[0]) || gathers(
                next,
                input,
                bufs,
                node.ports.audio_in@,
            )
        },
{
    let ports = node.ports;
    let shown = ports.shown();
    let count = socket_count(shown);
    let fed = buses_fed(model.sources, ports.audio_in@.len());
    let until = latest_source(model.sources, fed);
    let ins = ports.audio_in@.take(fed as int);
    let read = buses_read(env, model.id, shown, count);
    let outs = ports.audio_out@.take(read as int);
    lemma_buses_fed_bound(model.sources, ports.audio_in@.len());
    lemma_last_fed(model.sources, ports.audio_in@.len());
    lemma_latest_source(model.sources, fed);
    model.lemma_bus_buffers_tells(until, fed);
    model.lemma_bus_buffers_of(until, fed);
    let (lined, bufs) = model.bus_buffers(until, fed)->Ok_0;
    lined.lemma_input_region_tells(bufs, ins);
    let (ready, input) = lined.input_region(bufs, ins)->Ok_0;
    lemma_tells_on(model, lined, ready);
    let at = ready.ops.len() as int;
    lemma_called(ready, env, node, input, ins, outs, added(until, ports.latency), next);
    assert forall|i: int| 0 <= i < bufs.len() implies (#[trigger] model.sources[i] matches Some(
        (buf, l),
    ) ==> bufs[i] == buf) by {
        assert(fed_from(model, lined, bufs[i], until, i));
    }
    assert forall|i: int| 0 <= i < bufs.len() implies (#[trigger] model.sources[i] is None
        ==> silenced(next, bufs[i])) by {
        if model.sources[i] is None {
            assert(fed_from(model, lined, bufs[i], until, i));
            lemma_still_silenced(lined, ready, bufs[i]);
            let k = choose|k: int|
                0 <= k < ready.ops.len() && #[trigger] ready.ops[k] == (AudioStep::Silence {
                    out: bufs[i],
                });
            assert(next.ops[k] == ready.ops[k]);
        }
    }
    if !(bufs.len() == 1 && input == bufs[0]) {
        lemma_gathered(lined, bufs, ins);
        let k = lined.ops.len() as int;
        assert(next.ops[k] == ready.ops[k]);
    }
    (at, bufs)
}

proof fn lemma_gathered(lined: AudioModel, bufs: Seq<Buf>, widths: Seq<u16>)
    requires
        bufs.len() > 0,
        bufs.len() == widths.len(),
    ensures
        lined.input_region(bufs, widths) matches Ok((ready, input)) ==> (bufs.len() == 1 && input
            == bufs[0]) || (ready.ops.len() == lined.ops.len() + 1 && ready.ops.last() == (
        AudioStep::Gather {
            out: input,
            buses: Seq::new(bufs.len(), |i: int| (bufs[i], widths[i])),
            folding: Folding::Sum,
        })),
{
    if let Ok((next, out)) = lined.with_buffer_beside(total_width(widths) as u16, 1, bufs) {
        let buses = crate::emit_audio::paired(bufs, widths);
        assert(buses =~= Seq::new(bufs.len(), |i: int| (bufs[i], widths[i])));
        let gathered = next.emitted(
            AudioStep::Gather { out, buses, folding: Folding::Sum },
        );
        gathered.lemma_consumed_all_tells(bufs, bufs.len());
        gathered.lemma_consumed_all_emits_nothing(bufs, bufs.len());
    }
}

proof fn lemma_called(
    ready: AudioModel,
    env: AudioEnv,
    node: Plugin,
    input: Buf,
    ins: Seq<u16>,
    outs: Seq<u16>,
    late: u32,
    next: AudioModel,
)
    requires
        ready.plugin_called(env, node, input, ins, outs, late) == Ok::<AudioModel, CompileError>(
            next,
        ),
    ensures
        next.ops.len() > ready.ops.len(),
        forall|i: int| 0 <= i < ready.ops.len() ==> #[trigger] next.ops[i] == ready.ops[i],
        next.ops[ready.ops.len() as int] matches AudioStep::Plugin {
            input: from,
            input_buses,
            ..
        } && from == input && input_buses == ins,
{
    let shown = node.ports.shown();
    let count = socket_count(shown);
    let readers = if outs.len() == 1 {
        ready.readers
    } else {
        1
    };
    let (wide, output) = ready.with_buffer_beside(
        total_width(outs) as u16,
        readers,
        seq![input],
    )->Ok_0;
    let called = wide.emitted(
        AudioStep::Plugin {
            instance: node.instance,
            input,
            input_buses: ins,
            output,
            output_buses: outs,
            notes: wide.plugin_notes(env, node.ports),
        },
    ).consumed(input);
    let told = AudioModel {
        instances: called.instances.push(
            InstanceModel {
                instance: node.instance,
                input_channels: if ins.len() == 0 {
                    0
                } else {
                    ins[0]
                },
                aux_inputs: if ins.len() == 0 {
                    ins
                } else {
                    ins.skip(1)
                },
                output_channels: outs[0],
                aux_outputs: outs.skip(1),
            },
        ),
        ..called
    };
    let at = ready.ops.len() as int;
    assert(told.ops[at] is Plugin);
    assert forall|i: int| 0 <= i < ready.ops.len() implies told.ops[i] == #[trigger] ready.ops[i] by {}
    if outs.len() == 1 {
        told.lemma_main_outputs_tells(shown, output, late, count);
    } else {
        told.lemma_split_outputs_tells(env, node.ports, output, late, count);
        let split = told.split_outputs(env, node.ports, output, late, count)->Ok_0;
        assert(next.ops == split.ops);
        assert(split.ops[at] == told.ops[at]);
        assert forall|i: int| 0 <= i < ready.ops.len() implies #[trigger] next.ops[i]
            == ready.ops[i] by {
            assert(split.ops[i] == told.ops[i]);
        }
    }
}

/// Without a choice of outputs each socket shows the bus of its own number. With one the
/// sockets show the chosen buses in the order of the choice.
pub proof fn law_outputs_show_their_buses(ports: PluginPorts, i: int)
    ensures
        ports.audio_out_shown@.len() == 0 && 0 <= i < ports.audio_out@.len() <= 0x1_0000
            ==> ports.shown().len() == ports.audio_out@.len() && ports.shown()[i] == i,
        ports.audio_out_shown@.len() > 0 && (forall|j: int|
            0 <= j < ports.audio_out_shown@.len() ==> #[trigger] ports.audio_out_shown@[j]
                < ports.audio_out@.len()) ==> ports.shown() == ports.audio_out_shown@,
        ports.audio_out_shown@.len() > 0 && 0 <= i < ports.audio_out_shown@.len()
            && ports.audio_out_shown@[i] < ports.audio_out@.len() ==> ports.shown().contains(
            ports.audio_out_shown@[i],
        ),
        ports.audio_out_shown@.len() > 0 && 0 <= i < ports.shown().len()
            ==> ports.audio_out_shown@.contains(ports.shown()[i]) && ports.shown()[i]
            < ports.audio_out@.len(),
{
    let has = |bus: u16| bus < ports.audio_out@.len();
    let list = ports.audio_out_shown@;
    if list.len() > 0 {
        assert(ports.shown() == list.filter(has));
        if forall|j: int| 0 <= j < list.len() ==> #[trigger] list[j] < ports.audio_out@.len() {
            lemma_filter_keeps_all(list, has);
        }
        if 0 <= i < list.len() && list[i] < ports.audio_out@.len() {
            list.lemma_filter_contains(has, i);
        }
        if 0 <= i < ports.shown().len() {
            list.lemma_filter_pred(has, i);
            assert(list.filter(has).contains(ports.shown()[i]));
            list.lemma_filter_contains_rev(has, ports.shown()[i]);
        }
    }
}

proof fn lemma_filter_keeps_all(list: Seq<u16>, kept: spec_fn(u16) -> bool)
    requires
        forall|j: int| 0 <= j < list.len() ==> kept(#[trigger] list[j]),
    ensures
        list.filter(kept) == list,
    decreases list.len(),
{
    reveal(Seq::filter);
    if list.len() > 0 {
        assert forall|j: int| 0 <= j < list.drop_last().len() implies kept(
            #[trigger] list.drop_last()[j],
        ) by {
            assert(list.drop_last()[j] == list[j]);
        }
        lemma_filter_keeps_all(list.drop_last(), kept);
        assert(kept(list[list.len() - 1]));
        assert(list.drop_last().push(list.last()) =~= list);
    }
}

} // verus!
