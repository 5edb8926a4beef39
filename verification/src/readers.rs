//! A buffer waits for everything that reads it before it is handed out again.
use vstd::prelude::*;
use crate::audio_cx::{lemma_line_number_from, total_width, AudioEnv, AudioModel};
use crate::emit_audio::{mix_bufs, socket_count, MixSource};
use crate::error::CompileError;
use crate::ir::{AudioStep, Buf, InstanceModel};
use crate::nodes::{Mix, NodeKind, Plugin};
use crate::pool::{lemma_free_from, occurs, PoolModel};
use crate::port::PortType;

verus! {

/// A pool after `count` reads of one buffer.
pub open spec fn read_times(pool: PoolModel, buf: Buf, count: nat) -> PoolModel
    decreases count,
{
    if count == 0 {
        pool
    } else {
        read_times(pool, buf, (count - 1) as nat).consumed(buf)
    }
}

/// A buffer that waits for some reads still waits for the rest after a few of them, and is
/// not handed out to anyone else meanwhile. Reading one buffer leaves the others as they
/// were.
pub proof fn law_a_buffer_waits_for_all_its_readers(
    pool: PoolModel,
    buf: Buf,
    count: nat,
    channels: u16,
    readers: usize,
    other: int,
)
    requires
        pool.wf(),
        buf < pool.widths.len(),
        count <= pool.pending[buf as int],
        0 <= other < pool.widths.len(),
    ensures
        ({
            let after = read_times(pool, buf, count);
            &&& after.pending[buf as int] == pool.pending[buf as int] - count
            &&& other != buf ==> after.pending[other] == pool.pending[other]
            &&& after.widths == pool.widths
            &&& after.wf()
            &&& count < pool.pending[buf as int] ==> (after.given(channels, readers) matches Ok(
                (next, given),
            ) ==> given != buf)
        }),
    decreases count,
{
    if count > 0 {
        law_a_buffer_waits_for_all_its_readers(
            pool,
            buf,
            (count - 1) as nat,
            channels,
            readers,
            other,
        );
        let before = read_times(pool, buf, (count - 1) as nat);
        assert(before.consumed(buf).widths == before.widths);
    }
    lemma_free_from(read_times(pool, buf, count), channels, 0);
}

/// Every buffer has its width and its count, and there are no more than there may be.
spec fn paired_up(model: AudioModel) -> bool {
    model.pool.widths.len() == model.pool.pending.len() && model.pool.widths.len() <= 64
}

spec fn grew(model: AudioModel, next: AudioModel) -> bool {
    &&& paired_up(next)
    &&& model.pool.widths.len() <= next.pool.widths.len()
    &&& next.readers == model.readers
    &&& next.sources == model.sources
    &&& next.id == model.id
}

spec fn sources_there(model: AudioModel) -> bool {
    forall|i: int|
        0 <= i < model.sources.len() ==> (#[trigger] model.sources[i] matches Some((buf, late))
            ==> buf < model.pool.widths.len())
}

proof fn lemma_beside(model: AudioModel, channels: u16, readers: usize, avoid: Seq<Buf>)
    requires
        paired_up(model),
        forall|k: int| 0 <= k < avoid.len() ==> #[trigger] avoid[k] < model.pool.widths.len(),
    ensures
        model.with_buffer_beside(channels, readers, avoid) matches Ok((next, buf)) ==> {
            &&& grew(model, next)
            &&& buf < next.pool.widths.len()
            &&& next.pool.widths[buf as int] == channels
            &&& next.pool.pending[buf as int] == readers
            &&& !occurs(avoid, buf as int)
        },
        model.with_buffer(channels, readers) matches Ok((next, buf)) ==> {
            &&& grew(model, next)
            &&& buf < next.pool.widths.len()
            &&& next.pool.widths[buf as int] == channels
            &&& next.pool.pending[buf as int] == readers
        },
{
    let hidden = model.pool.hiding(avoid);
    lemma_free_from(hidden, channels, 0);
    lemma_free_from(model.pool, channels, 0);
    if let Ok((taken, buf)) = hidden.given(channels, readers) {
        if occurs(avoid, buf as int) {
            let j = choose|j: int| 0 <= j < avoid.len() && #[trigger] avoid[j] == buf as int;
            assert(avoid[j] < model.pool.widths.len());
            assert(hidden.pending[buf as int] == usize::MAX);
        }
    }
}

proof fn lemma_source_there(model: AudioModel, index: int)
    requires
        paired_up(model),
        sources_there(model),
    ensures
        model.with_source(index) matches Ok((next, made)) ==> {
            &&& grew(model, next)
            &&& sources_there(next)
            &&& made matches Some((buf, late)) ==> buf < next.pool.widths.len()
        },
{
    if let Some((buf, late)) = model.source(index) {
        assert(model.sources[index] is Some);
        let want = if index < model.source_widths.len() {
            model.source_widths[index]
        } else {
            0
        };
        lemma_beside(model.consumed(buf), want, 1, seq![buf]);
    }
}

proof fn lemma_lined_up_there(model: AudioModel, buf: Buf, late: u32, until: u32)
    requires
        paired_up(model),
        buf < model.pool.widths.len(),
    ensures
        model.lined_up(buf, late, until) matches Ok((next, made)) ==> grew(model, next) && made
            < next.pool.widths.len(),
{
    lemma_beside(model, model.pool.widths[buf as int], 1, seq![buf]);
}

proof fn lemma_mix_sources_there(model: AudioModel, count: nat)
    requires
        paired_up(model),
        sources_there(model),
    ensures
        model.mix_sources(count) matches Ok((next, list)) ==> {
            &&& grew(model, next)
            &&& sources_there(next)
            &&& forall|i: int|
                0 <= i < list.len() ==> (#[trigger] list[i]).buf < next.pool.widths.len()
        },
    decreases count,
{
    if count > 0 {
        lemma_mix_sources_there(model, (count - 1) as nat);
        if let Ok((below, list)) = model.mix_sources((count - 1) as nat) {
            lemma_source_there(below, count - 1);
        }
    }
}

proof fn lemma_mix_inputs_there(
    model: AudioModel,
    env: AudioEnv,
    node: Mix,
    sources: Seq<MixSource>,
    count: nat,
)
    requires
        paired_up(model),
        count <= sources.len(),
        forall|i: int|
            0 <= i < sources.len() ==> (#[trigger] sources[i]).buf < model.pool.widths.len(),
    ensures
        model.mix_inputs(env, node, sources, count) matches Ok((next, list)) ==> {
            &&& grew(model, next)
            &&& forall|i: int|
                0 <= i < list.len() ==> (#[trigger] list[i]).buf < next.pool.widths.len()
        },
    decreases count,
{
    if count > 0 {
        lemma_mix_inputs_there(model, env, node, sources, (count - 1) as nat);
        if let Ok((below, list)) = model.mix_inputs(env, node, sources, (count - 1) as nat) {
            let from = sources[count - 1];
            assert(from.buf < model.pool.widths.len());
            lemma_lined_up_there(
                below,
                from.buf,
                from.late,
                crate::emit_audio::latest(sources),
            );
        }
    }
}

proof fn lemma_consumed_apart(model: AudioModel, bufs: Seq<Buf>, count: nat, out: Buf)
    requires
        count <= bufs.len(),
        !occurs(bufs, out as int),
        out < model.pool.pending.len(),
        forall|k: int| 0 <= k < bufs.len() ==> #[trigger] bufs[k] < model.pool.pending.len(),
    ensures
        model.consumed_all(bufs, count).pool.pending.len() == model.pool.pending.len(),
        model.consumed_all(bufs, count).pool.pending[out as int]
            == model.pool.pending[out as int],
        model.consumed_all(bufs, count).pool.widths == model.pool.widths,
        model.consumed_all(bufs, count).produced == model.produced,
        model.consumed_all(bufs, count).id == model.id,
    decreases count,
{
    if count > 0 {
        lemma_consumed_apart(model, bufs, (count - 1) as nat, out);
        assert(bufs[count - 1] != out as int);
    }
}

/// How many channels a node makes.
pub open spec fn makes_channels(kind: NodeKind) -> u16 {
    match kind {
        NodeKind::AudioIn(node) => node.channels,
        NodeKind::Gate(node) => node.channels,
        NodeKind::Mix(node) => node.channels,
        NodeKind::DelayRead(node) => match node.ty {
            PortType::Audio { channels } => channels,
            _ => 0,
        },
        _ => 0,
    }
}

/// What an input, a gate, a mix or a read of a delay line leaves on its output is as wide as
/// the node, and waits for as many reads as the node has readers.
pub proof fn law_a_node_leaves_a_buffer_for_its_readers(
    model: AudioModel,
    env: AudioEnv,
    kind: NodeKind,
    next: AudioModel,
)
    requires
        model.wf(),
        kind is AudioIn || kind is Gate || kind is Mix || (kind matches NodeKind::DelayRead(node)
            && node.ty is Audio),
        model.compiled(env, kind) == Ok::<AudioModel, CompileError>(next),
    ensures
        next.produced.len() == model.produced.len() + 1,
        ({
            let made = next.produced.last().buf;
            &&& made < next.pool.widths.len()
            &&& next.pool.widths[made as int] == makes_channels(kind)
            &&& next.pool.pending[made as int] == model.readers
        }),
{
    assert(paired_up(model));
    assert(sources_there(model));
    match kind {
        NodeKind::AudioIn(node) => {
            lemma_beside(model, node.channels, model.readers, Seq::empty());
        },
        NodeKind::Gate(node) => {
            lemma_source_there(model, 0);
            if let Ok((fed, made)) = model.with_source(0) {
                lemma_beside(fed, node.channels, fed.readers, Seq::empty());
                if let Some((a, late)) = made {
                    lemma_beside(fed, node.channels, fed.readers, seq![a]);
                    if let Ok((last, out)) = fed.with_buffer_beside(
                        node.channels,
                        fed.readers,
                        seq![a],
                    ) {
                        assert(seq![a][0] == a);
                        assert(out != a);
                    }
                }
            }
        },
        NodeKind::Mix(node) => {
            lemma_mix_leaves_for_readers(model, env, node, next);
        },
        NodeKind::DelayRead(node) => {
            lemma_line_number_from(model.audio_lines, node.line, 0);
            if let Ok((lined, line)) = model.with_line(env, node.line) {
                let wanting = lined.wanting_ring(line, node.max_time);
                lemma_beside(wanting, makes_channels(kind), wanting.readers, Seq::empty());
            }
        },
        _ => {},
    }
}

proof fn lemma_mix_leaves_for_readers(
    model: AudioModel,
    env: AudioEnv,
    node: Mix,
    next: AudioModel,
)
    requires
        model.wf(),
        model.mix(env, node) == Ok::<AudioModel, CompileError>(next),
    ensures
        next.produced.len() == model.produced.len() + 1,
        ({
            let made = next.produced.last().buf;
            &&& made < next.pool.widths.len()
            &&& next.pool.widths[made as int] == node.channels
            &&& next.pool.pending[made as int] == model.readers
        }),
{
    crate::arrivals::lemma_mix_leaves(model, env, node, next);
    let count = if node.inputs < 128 {
        node.inputs as nat
    } else {
        128
    };
    lemma_mix_sources_there(model, count);
    let (fed, sources) = model.mix_sources(count)->Ok_0;
    lemma_mix_inputs_there(fed, env, node, sources, sources.len());
    let (lined, inputs) = fed.mix_inputs(env, node, sources, sources.len())->Ok_0;
    let bufs = mix_bufs(inputs);
    assert forall|k: int| 0 <= k < bufs.len() implies #[trigger] bufs[k]
        < lined.pool.widths.len() by {
        assert(inputs[k].buf < lined.pool.widths.len());
    }
    lemma_beside(lined, node.channels, lined.readers, bufs);
    let (wide, out) = lined.with_buffer_beside(node.channels, lined.readers, bufs)->Ok_0;
    let mixed = wide.emitted(AudioStep::Mix { out, inputs });
    lemma_consumed_apart(mixed, bufs, inputs.len(), out);
}

/// What a plugin with one output bus leaves is as wide as the bus, and waits for as many
/// reads as the plugin has readers.
pub proof fn law_a_plugin_leaves_a_buffer_for_its_readers(
    model: AudioModel,
    env: AudioEnv,
    node: Plugin,
    input: Buf,
    ins: Seq<u16>,
    width: u16,
    late: u32,
    next: AudioModel,
)
    requires
        model.wf(),
        input < model.pool.widths.len(),
        model.plugin_called(env, node, input, ins, seq![width], late) == Ok::<
            AudioModel,
            CompileError,
        >(next),
    ensures
        next.ops.last() matches AudioStep::Plugin { output, .. } && {
            &&& output < next.pool.widths.len()
            &&& next.pool.widths[output as int] == width
            &&& next.pool.pending[output as int] == model.readers
        },
{
    let outs = seq![width];
    assert(outs.drop_last() =~= Seq::<u16>::empty());
    assert(total_width(outs.drop_last()) == 0);
    assert(total_width(outs) == width);
    assert(paired_up(model));
    lemma_beside(model, width, model.readers, seq![input]);
    let (wide, output) = model.with_buffer_beside(width, model.readers, seq![input])->Ok_0;
    assert(seq![input][0] == input);
    let shown = node.ports.shown();
    let called = wide.emitted(
        AudioStep::Plugin {
            instance: node.instance,
            input,
            input_buses: ins,
            output,
            output_buses: outs,
            notes: wide.plugin_notes(env, node.ports),
        },
    ).consumed(input);
    let told = AudioModel {
        instances: called.instances.push(
            InstanceModel {
                instance: node.instance,
                input_channels: if ins.len() == 0 {
                    0
                } else {
                    ins[0]
                },
                aux_inputs: if ins.len() == 0 {
                    ins
                } else {
                    ins.skip(1)
                },
                output_channels: outs[0],
                aux_outputs: outs.skip(1),
            },
        ),
        ..called
    };
    lemma_main_outputs_keep(told, shown, output, late, socket_count(shown));
}

proof fn lemma_main_outputs_keep(
    model: AudioModel,
    shown: Seq<u16>,
    out: Buf,
    late: u32,
    count: nat,
)
    ensures
        model.main_outputs(shown, out, late, count).pool == model.pool,
        model.main_outputs(shown, out, late, count).ops == model.ops,
    decreases count,
{
    if count > 0 {
        lemma_main_outputs_keep(model, shown, out, late, (count - 1) as nat);
    }
}

} // verus!
