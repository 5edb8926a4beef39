//! A compiled program reads nothing that it has not written, and so a feedback loop that
//! was compiled sounds the same at any block size.
use vstd::prelude::*;
use crate::answering::{by_frame, work_is_written, work_reads, Shown};
use crate::audio_cx::{
    audio_sources, audio_widths, draining, lemma_produced_from, total_width, widths_of, AudioEnv,
    AudioModel,
};
use crate::block_size::{
    bus_reads, bus_writes, channels_read, channels_written, fold_writes, gathered_writes,
    reads_are_written, run_of_channels, written_by, BlockInput,
};
use crate::compile::{
    assembled, audio_env, audio_in_stage, audio_in_stages, compiles_to, kind_of, lines_of, outcome,
    param_env, params_in_stages, stages_laid,
};
use crate::emit_audio::{
    added, buses_fed, buses_read, latest, latest_source, lemma_buses_read, lemma_buses_read_bound,
    lemma_total_width, mix_bufs, paired, socket_count, MixSource,
};
use crate::engine::EngineModel;
use crate::feedback::{
    cut_into, law_a_feedback_loop_sounds_the_same_at_any_block_size, sounds_as, stays_steady,
    works_by_frame, written_before,
};
use crate::graph::{find, lemma_find_from, source, Graph};
use crate::ir::{
    AudioStep, Buf, Chunking, Folding, InstanceModel, LineId, MixInput, NodeId, NoteOp, Span,
    Stage, MAX_BUFFER_CHANNELS, MAX_CHANNELS,
};
use crate::nodes::{
    AudioIn, AudioOut, DelayRead, DelayWrite, Gate, Mix, NodeKind, Plugin, PluginPorts,
};
use crate::note_half::{heard_of, notes_in_stages, reader_count, spans_of};
use crate::number::Real;
use crate::order::depth_first;
use crate::pool::{lemma_free_from, PoolModel};
use crate::port::{PortType, Socket};
use crate::program::ProgramModel;
use crate::run::AudioAnswer;
use crate::sound::{folds_of, heard_width, Fold};
use crate::stages::Plan;

verus! {

/// What an operation reads, by itself or through its work.
pub open spec fn reads(step: AudioStep, widths: Seq<u16>) -> Set<(Buf, int)> {
    channels_read(step, widths).union(work_reads(step, widths))
}

/// What some operations leave written.
pub open spec fn written(ops: Seq<AudioStep>, widths: Seq<u16>) -> Set<(Buf, int)> {
    written_by(ops, widths, 0, ops.len() as int)
}

/// Every channel of a buffer has been written.
pub open spec fn filled(ops: Seq<AudioStep>, widths: Seq<u16>, buf: Buf) -> bool {
    run_of_channels(buf, 0, widths[buf as int] as int).subset_of(written(ops, widths))
}

/// One list of widths starts with another.
pub open spec fn begins(widths: Seq<u16>, more: Seq<u16>) -> bool {
    &&& widths.len() <= more.len()
    &&& forall|i: int| 0 <= i < widths.len() ==> #[trigger] widths[i] == more[i]
}

/// Every operation so far reads only what an earlier one has written, and so will those
/// that wait for the end of the stage. What nodes have left on their sockets has been
/// written.
spec fn in_order(model: AudioModel, widths: Seq<u16>) -> bool {
    &&& begins(model.pool.widths, widths)
    &&& forall|i: int|
        0 <= i < model.produced.len() ==> (#[trigger] model.produced[i]).buf
            < model.pool.widths.len() && filled(model.ops, widths, model.produced[i].buf)
    &&& forall|i: int|
        0 <= i < model.sources.len() ==> (#[trigger] model.sources[i] matches Some((buf, late))
            ==> buf < model.pool.widths.len() && filled(model.ops, widths, buf))
    &&& forall|i: int|
        0 <= i < model.ops.len() ==> reads(#[trigger] model.ops[i], widths).subset_of(
            written_by(model.ops, widths, 0, i),
        )
    &&& forall|i: int|
        0 <= i < model.deferred.len() ==> reads(
            #[trigger] model.deferred[i],
            widths,
        ).subset_of(written(model.ops, widths))
}

/// A pool as it should be, and everything in order.
spec fn sound(model: AudioModel, widths: Seq<u16>) -> bool {
    model.pool.wf() && in_order(model, widths)
}

/// From one model to a later one operations and buffers are only added.
spec fn grows(model: AudioModel, next: AudioModel) -> bool {
    &&& begins(model.pool.widths, next.pool.widths)
    &&& model.ops.len() <= next.ops.len()
    &&& forall|i: int| 0 <= i < model.ops.len() ==> #[trigger] next.ops[i] == model.ops[i]
    &&& next.sources == model.sources
    &&& next.source_widths == model.source_widths
    &&& next.id == model.id
    &&& next.readers == model.readers
}

proof fn lemma_begins_on(a: Seq<u16>, b: Seq<u16>, c: Seq<u16>)
    requires
        begins(a, b),
        begins(b, c),
    ensures
        begins(a, c),
{
}

proof fn lemma_grows_on(a: AudioModel, b: AudioModel, c: AudioModel)
    requires
        grows(a, b),
        grows(b, c),
    ensures
        grows(a, c),
{
    assert forall|i: int| 0 <= i < a.ops.len() implies #[trigger] c.ops[i] == a.ops[i] by {
        assert(b.ops[i] == a.ops[i]);
    }
    lemma_begins_on(a.pool.widths, b.pool.widths, c.pool.widths);
}

proof fn lemma_written_grows(
    ops: Seq<AudioStep>,
    more: Seq<AudioStep>,
    widths: Seq<u16>,
    to: int,
)
    requires
        0 <= to <= ops.len() <= more.len(),
        forall|i: int| 0 <= i < ops.len() ==> #[trigger] more[i] == ops[i],
    ensures
        written_by(ops, widths, 0, to) == written_by(more, widths, 0, to),
        written_by(more, widths, 0, to).subset_of(written(more, widths)),
    decreases more.len() - to,
{
    lemma_written_prefix_of(ops, more, widths, to);
    lemma_written_more(more, widths, 0, to, more.len() as int);
}

proof fn lemma_written_prefix_of(
    ops: Seq<AudioStep>,
    more: Seq<AudioStep>,
    widths: Seq<u16>,
    to: int,
)
    requires
        0 <= to <= ops.len() <= more.len(),
        forall|i: int| 0 <= i < ops.len() ==> #[trigger] more[i] == ops[i],
    ensures
        written_by(ops, widths, 0, to) == written_by(more, widths, 0, to),
    decreases to,
{
    if to > 0 {
        lemma_written_prefix_of(ops, more, widths, to - 1);
        assert(more[to - 1] == ops[to - 1]);
    }
}

proof fn lemma_written_more(
    ops: Seq<AudioStep>,
    widths: Seq<u16>,
    from: int,
    at: int,
    to: int,
)
    requires
        at <= to,
    ensures
        written_by(ops, widths, from, at).subset_of(written_by(ops, widths, from, to)),
    decreases to - at,
{
    if at < to {
        lemma_written_more(ops, widths, from, at, to - 1);
    }
}

/// A buffer that exists and has been written.
spec fn ready(model: AudioModel, buf: Buf, widths: Seq<u16>) -> bool {
    buf < model.pool.widths.len() && filled(model.ops, widths, buf)
}

proof fn lemma_still_ready(model: AudioModel, next: AudioModel, buf: Buf, widths: Seq<u16>)
    requires
        grows(model, next),
        ready(model, buf, widths),
    ensures
        ready(next, buf, widths),
{
    lemma_written_grows(model.ops, next.ops, widths, model.ops.len() as int);
}

proof fn lemma_emitted(model: AudioModel, op: AudioStep, widths: Seq<u16>)
    requires
        sound(model, widths),
        reads(op, widths).subset_of(written(model.ops, widths)),
    ensures
        grows(model, model.emitted(op)),
        sound(model.emitted(op), widths),
        written(model.emitted(op).ops, widths) == written(model.ops, widths).union(
            channels_written(op, widths),
        ),
{
    let next = model.emitted(op);
    let count = model.ops.len() as int;
    lemma_written_prefix_of(model.ops, next.ops, widths, count);
    assert(next.ops[count] == op);
    assert forall|i: int| 0 <= i < next.ops.len() implies reads(
        #[trigger] next.ops[i],
        widths,
    ).subset_of(written_by(next.ops, widths, 0, i)) by {
        lemma_written_prefix_of(model.ops, next.ops, widths, i);
        if i < count {
            assert(next.ops[i] == model.ops[i]);
        }
    }
}

/// A model that differs in what does not matter here.
proof fn lemma_aside(model: AudioModel, next: AudioModel, widths: Seq<u16>)
    requires
        sound(model, widths),
        next.ops == model.ops,
        next.deferred == model.deferred,
        next.produced == model.produced,
        next.sources == model.sources,
        next.pool.wf(),
        begins(model.pool.widths, next.pool.widths),
        begins(next.pool.widths, widths),
    ensures
        sound(next, widths),
{
}

proof fn lemma_producing(model: AudioModel, port: u8, buf: Buf, late: u32, widths: Seq<u16>)
    requires
        sound(model, widths),
        ready(model, buf, widths),
    ensures
        sound(model.producing(port, buf, late), widths),
{
    let next = model.producing(port, buf, late);
    assert forall|i: int| 0 <= i < next.produced.len() implies (#[trigger] next.produced[i]).buf
        < next.pool.widths.len() && filled(next.ops, widths, next.produced[i].buf) by {
        if i < model.produced.len() {
            assert(next.produced[i] == model.produced[i]);
        }
    }
}

proof fn lemma_consumed(model: AudioModel, buf: Buf, widths: Seq<u16>)
    requires
        sound(model, widths),
        buf < model.pool.widths.len(),
    ensures
        sound(model.consumed(buf), widths),
{
    lemma_aside(model, model.consumed(buf), widths);
}

proof fn lemma_given(pool: PoolModel, channels: u16, readers: usize)
    ensures
        pool.given(channels, readers) matches Ok((next, buf)) ==> begins(pool.widths, next.widths)
            && channels <= MAX_BUFFER_CHANNELS && (pool.wf() ==> next.wf() && buf
            < next.widths.len() && next.widths[buf as int] == channels),
{
    lemma_free_from(pool, channels, 0);
}

proof fn lemma_buffer(model: AudioModel, channels: u16, readers: usize, widths: Seq<u16>)
    ensures
        model.with_buffer(channels, readers) matches Ok((next, out)) ==> {
            &&& grows(model, next)
            &&& next.ops == model.ops
            &&& sound(model, widths) && begins(next.pool.widths, widths) ==> sound(next, widths)
                && out < next.pool.widths.len() && widths[out as int] == channels
        },
{
    lemma_given(model.pool, channels, readers);
    if let Ok((next, out)) = model.with_buffer(channels, readers) {
        if sound(model, widths) && begins(next.pool.widths, widths) {
            lemma_aside(model, next, widths);
            assert(widths[out as int] == next.pool.widths[out as int]);
        }
    }
}

proof fn lemma_buffer_beside(
    model: AudioModel,
    channels: u16,
    readers: usize,
    avoid: Seq<Buf>,
    widths: Seq<u16>,
)
    ensures
        model.with_buffer_beside(channels, readers, avoid) matches Ok((next, out)) ==> {
            &&& grows(model, next)
            &&& next.ops == model.ops
            &&& channels <= MAX_BUFFER_CHANNELS
            &&& sound(model, widths) && begins(next.pool.widths, widths) ==> sound(next, widths)
                && out < next.pool.widths.len() && widths[out as int] == channels
        },
{
    lemma_given(model.pool.hiding(avoid), channels, readers);
    if let Ok((next, out)) = model.with_buffer_beside(channels, readers, avoid) {
        if sound(model, widths) && begins(next.pool.widths, widths) {
            lemma_aside(model, next, widths);
            assert(widths[out as int] == next.pool.widths[out as int]);
        }
    }
}

proof fn lemma_fold_writes(list: Seq<Fold>, fold: Fold, count: nat)
    requires
        count <= list.len(),
    ensures
        fold_writes(list.push(fold), count) == fold_writes(list, count),
    decreases count,
{
    if count > 0 {
        lemma_fold_writes(list, fold, (count - 1) as nat);
    }
}

/// Laying buses side by side writes all of them.
proof fn lemma_gather_fills(out: Buf, buses: Seq<(Buf, u16)>, widths: Seq<u16>, count: nat)
    requires
        count <= buses.len(),
        total_width(widths_of(buses).take(count as int)) <= MAX_BUFFER_CHANNELS,
    ensures
        ({
            let list = folds_of(out, buses, widths, count);
            run_of_channels(
                out,
                0,
                total_width(widths_of(buses).take(count as int)) as int,
            ).subset_of(
                gathered_writes(out, buses, widths, count).union(fold_writes(list, list.len())),
            )
        }),
    decreases count,
{
    if count > 0 {
        let asked = widths_of(buses);
        let done = (count - 1) as nat;
        assert(asked.take(count as int).drop_last() =~= asked.take(done as int));
        assert(asked.take(count as int).last() == buses[done as int].1);
        lemma_gather_fills(out, buses, widths, done);
        let list = folds_of(out, buses, widths, done);
        let more = folds_of(out, buses, widths, count);
        let base = total_width(asked.take(done as int)) as int;
        let (from, want) = buses[done as int];
        let have = widths[from as int];
        if want == 1 && have > 1 {
            let fold = Fold { out, channel: base as u16, from, width: have };
            assert(more == list.push(fold));
            lemma_fold_writes(list, fold, list.len());
        }
        let wrote = gathered_writes(out, buses, widths, count).union(
            fold_writes(more, more.len()),
        );
        assert forall|at: (Buf, int)|
            run_of_channels(out, 0, base + want).contains(at) implies wrote.contains(at) by {
            if at.1 < base {
                assert(run_of_channels(out, 0, base).contains(at));
            } else if want == 1 && have > 1 {
                assert(at == (out, base));
                assert(more.last().channel == base as u16);
            } else {
                assert(bus_writes(out, base, have, want).contains(at));
            }
        }
    } else {
        assert(widths_of(buses).take(0) =~= Seq::empty());
    }
}

/// Each fold reads one of the buses, all of it.
proof fn lemma_folds_read(out: Buf, buses: Seq<(Buf, u16)>, widths: Seq<u16>, count: nat, i: int)
    requires
        count <= buses.len(),
        0 <= i < folds_of(out, buses, widths, count).len(),
    ensures
        ({
            let fold = folds_of(out, buses, widths, count)[i];
            &&& fold.width == widths[fold.from as int]
            &&& exists|k: int| 0 <= k < count && (#[trigger] buses[k]).0 == fold.from
        }),
    decreases count,
{
    if count > 0 {
        let before = folds_of(out, buses, widths, (count - 1) as nat);
        if i < before.len() {
            lemma_folds_read(out, buses, widths, (count - 1) as nat, i);
            let fold = before[i];
            let k = choose|k: int| 0 <= k < count - 1 && (#[trigger] buses[k]).0 == fold.from;
            assert(buses[k].0 == fold.from);
        } else {
            assert(buses[count - 1].0 == folds_of(out, buses, widths, count)[i].from);
        }
    }
}

/// Buses that have been written, laid side by side.
proof fn lemma_gathered(
    model: AudioModel,
    out: Buf,
    buses: Seq<(Buf, u16)>,
    folding: Folding,
    widths: Seq<u16>,
)
    requires
        sound(model, widths),
        forall|i: int|
            0 <= i < buses.len() ==> filled(model.ops, widths, (#[trigger] buses[i]).0),
        total_width(widths_of(buses)) <= MAX_BUFFER_CHANNELS,
    ensures
        ({
            let next = model.emitted(AudioStep::Gather { out, buses, folding });
            &&& sound(next, widths)
            &&& widths[out as int] == total_width(widths_of(buses)) ==> filled(
                next.ops,
                widths,
                out,
            )
        }),
{
    let op = AudioStep::Gather { out, buses, folding };
    let list = folds_of(out, buses, widths, buses.len());
    assert forall|at: (Buf, int)| reads(op, widths).contains(at) implies written(
        model.ops,
        widths,
    ).contains(at) by {
        if channels_read(op, widths).contains(at) {
            let i = choose|i: int|
                0 <= i < buses.len() && bus_reads(
                    (#[trigger] buses[i]).0,
                    widths[buses[i].0 as int],
                    buses[i].1,
                ).contains(at);
            let from = buses[i].0;
            assert(filled(model.ops, widths, buses[i].0));
            assert(run_of_channels(from, 0, widths[from as int] as int).contains(at));
        } else {
            let i = choose|i: int|
                0 <= i < list.len() && at.0 == (#[trigger] list[i]).from && 0 <= at.1
                    < list[i].width;
            lemma_folds_read(out, buses, widths, buses.len(), i);
            let k = choose|k: int|
                0 <= k < buses.len() && (#[trigger] buses[k]).0 == list[i].from;
            assert(filled(model.ops, widths, buses[k].0));
            assert(run_of_channels(at.0, 0, widths[at.0 as int] as int).contains(at));
        }
    }
    lemma_emitted(model, op, widths);
    let asked = widths_of(buses);
    assert(asked.take(asked.len() as int) =~= asked);
    lemma_gather_fills(out, buses, widths, buses.len());
}

/// One bus, written to a buffer of the width asked for.
proof fn lemma_converted(model: AudioModel, out: Buf, buf: Buf, want: u16, widths: Seq<u16>)
    requires
        sound(model, widths),
        filled(model.ops, widths, buf),
        want <= MAX_BUFFER_CHANNELS,
    ensures
        ({
            let next = model.emitted(
                AudioStep::Gather { out, buses: seq![(buf, want)], folding: Folding::Average },
            );
            &&& sound(next, widths)
            &&& widths[out as int] == want ==> filled(next.ops, widths, out)
        }),
{
    let buses = seq![(buf, want)];
    assert(widths_of(buses) =~= seq![want]);
    assert(seq![want].drop_last() =~= Seq::empty());
    assert(total_width(seq![want]) == want) by {
        reveal_with_fuel(total_width, 2);
    }
    lemma_gathered(model, out, buses, Folding::Average, widths);
}

proof fn lemma_source_grows(model: AudioModel, index: int)
    ensures
        model.with_source(index) matches Ok((next, from)) ==> grows(model, next),
{
    if let Some((buf, late)) = model.source(index) {
        let want = if index < model.source_widths.len() {
            model.source_widths[index]
        } else {
            0
        };
        lemma_buffer_beside(model.consumed(buf), want, 1, seq![buf], model.pool.widths);
    }
}

proof fn lemma_with_source(model: AudioModel, index: int, widths: Seq<u16>)
    requires
        model.sources.len() == model.source_widths.len(),
        sound(model, widths),
        model.with_source(index) matches Ok((next, from)) && begins(next.pool.widths, widths),
    ensures
        model.with_source(index) matches Ok((next, from)) && {
            &&& sound(next, widths)
            &&& from matches Some((buf, late)) ==> {
                &&& 0 <= index < model.sources.len()
                &&& ready(next, buf, widths)
                &&& model.source_widths[index] != 0 ==> widths[buf as int]
                    == model.source_widths[index]
            }
        },
{
    if let Some((buf, late)) = model.source(index) {
        let want = model.source_widths[index];
        assert(model.sources[index] == Some((buf, late)));
        assert(ready(model, buf, widths));
        assert(widths[buf as int] == model.pool.widths[buf as int]);
        if !(want == 0 || model.pool.widths[buf as int] == want) {
            let used = model.consumed(buf);
            lemma_consumed(model, buf, widths);
            lemma_buffer_beside(used, want, 1, seq![buf], widths);
            if let Ok((next, out)) = used.with_buffer_beside(want, 1, seq![buf]) {
                lemma_converted(next, out, buf, want, widths);
            }
        }
    }
}

proof fn lemma_compensated(model: AudioModel, buf: Buf, samples: u32, widths: Seq<u16>)
    requires
        sound(model, widths),
        ready(model, buf, widths),
    ensures
        model.compensated(buf, samples) matches Ok(next) ==> grows(model, next) && sound(
            next,
            widths,
        ),
{
    if let Ok(next) = model.compensated(buf, samples) {
        let op = AudioStep::Compensate { buf, slot: model.compensators, samples };
        assert forall|at: (Buf, int)| reads(op, widths).contains(at) implies written(
            model.ops,
            widths,
        ).contains(at) by {
            assert(run_of_channels(buf, 0, widths[buf as int] as int).contains(at));
        }
        lemma_emitted(model, op, widths);
        lemma_aside(model.emitted(op), next, widths);
    }
}

proof fn lemma_lined_up_grows(model: AudioModel, buf: Buf, late: u32, until: u32)
    ensures
        model.lined_up(buf, late, until) matches Ok((next, lined)) ==> grows(model, next),
{
    let width = model.pool.widths[buf as int];
    lemma_buffer_beside(model, width, 1, seq![buf], model.pool.widths);
}

proof fn lemma_lined_up(model: AudioModel, buf: Buf, late: u32, until: u32, widths: Seq<u16>)
    requires
        sound(model, widths),
        ready(model, buf, widths),
        model.lined_up(buf, late, until) matches Ok((next, lined)) && begins(
            next.pool.widths,
            widths,
        ),
    ensures
        model.lined_up(buf, late, until) matches Ok((next, lined)) && sound(next, widths) && ready(
            next,
            lined,
            widths,
        ) && widths[lined as int] == widths[buf as int],
{
    if late >= until {
    } else if model.pool.pending[buf as int] > 1 {
        let width = model.pool.widths[buf as int];
        assert(widths[buf as int] == width);
        lemma_buffer_beside(model, width, 1, seq![buf], widths);
        if let Ok((next, out)) = model.with_buffer_beside(width, 1, seq![buf]) {
            let copy = next.emitted(
                AudioStep::Gather { out, buses: seq![(buf, width)], folding: Folding::Average },
            );
            lemma_converted(next, out, buf, width, widths);
            lemma_consumed(copy, buf, widths);
            let used = copy.consumed(buf);
            lemma_compensated(used, out, (until - late) as u32, widths);
            if let Ok(last) = used.compensated(out, (until - late) as u32) {
                lemma_still_ready(used, last, out, widths);
            }
        }
    } else {
        lemma_compensated(model, buf, (until - late) as u32, widths);
        if let Ok(last) = model.compensated(buf, (until - late) as u32) {
            lemma_still_ready(model, last, buf, widths);
        }
    }
}

proof fn lemma_consumed_all_grows(model: AudioModel, bufs: Seq<Buf>, count: nat)
    ensures
        grows(model, model.consumed_all(bufs, count)),
        model.consumed_all(bufs, count).ops == model.ops,
        model.consumed_all(bufs, count).pool.widths == model.pool.widths,
    decreases count,
{
    if count > 0 {
        lemma_consumed_all_grows(model, bufs, (count - 1) as nat);
    }
}

proof fn lemma_consumed_all(model: AudioModel, bufs: Seq<Buf>, count: nat, widths: Seq<u16>)
    requires
        sound(model, widths),
        count <= bufs.len(),
        forall|i: int| 0 <= i < bufs.len() ==> (#[trigger] bufs[i]) < model.pool.widths.len(),
    ensures
        sound(model.consumed_all(bufs, count), widths),
    decreases count,
{
    if count > 0 {
        lemma_consumed_all(model, bufs, (count - 1) as nat, widths);
        lemma_consumed_all_grows(model, bufs, (count - 1) as nat);
        assert(bufs[count - 1] < model.pool.widths.len());
        lemma_consumed(model.consumed_all(bufs, (count - 1) as nat), bufs[count - 1], widths);
    }
}

proof fn lemma_mix_sources_grows(model: AudioModel, count: nat)
    ensures
        model.mix_sources(count) matches Ok((next, list)) ==> grows(model, next),
    decreases count,
{
    if count > 0 {
        lemma_mix_sources_grows(model, (count - 1) as nat);
        if let Ok((below, list)) = model.mix_sources((count - 1) as nat) {
            lemma_source_grows(below, count - 1);
            if let Ok((next, from)) = below.with_source(count - 1) {
                lemma_grows_on(model, below, next);
            }
        }
    }
}

/// The sources of a mix are ready, and as wide as its sockets.
spec fn sources_ready(
    model: AudioModel,
    list: Seq<MixSource>,
    channels: u16,
    widths: Seq<u16>,
) -> bool {
    forall|i: int|
        0 <= i < list.len() ==> ready(model, (#[trigger] list[i]).buf, widths) && (channels != 0
            ==> widths[list[i].buf as int] == channels)
}

proof fn lemma_mix_sources(model: AudioModel, count: nat, channels: u16, widths: Seq<u16>)
    requires
        sound(model, widths),
        model.sources.len() == model.source_widths.len(),
        forall|i: int|
            0 <= i < model.source_widths.len() ==> #[trigger] model.source_widths[i] == channels,
        model.mix_sources(count) matches Ok((next, list)) && begins(next.pool.widths, widths),
    ensures
        model.mix_sources(count) matches Ok((next, list)) && sound(next, widths)
            && sources_ready(next, list, channels, widths),
    decreases count,
{
    if count > 0 {
        let (below, list) = model.mix_sources((count - 1) as nat)->Ok_0;
        let (next, from) = below.with_source(count - 1)->Ok_0;
        lemma_mix_sources_grows(model, (count - 1) as nat);
        lemma_source_grows(below, count - 1);
        lemma_begins_on(below.pool.widths, next.pool.widths, widths);
        lemma_mix_sources(model, (count - 1) as nat, channels, widths);
        lemma_with_source(below, count - 1, widths);
        assert forall|i: int| 0 <= i < list.len() implies ready(
            next,
            (#[trigger] list[i]).buf,
            widths,
        ) by {
            lemma_still_ready(below, next, list[i].buf, widths);
        }
        if let Some((buf, late)) = from {
            assert(model.source_widths[count - 1] == channels);
        }
    }
}

proof fn lemma_mix_inputs_grows(
    model: AudioModel,
    env: AudioEnv,
    node: Mix,
    sources: Seq<MixSource>,
    count: nat,
)
    ensures
        model.mix_inputs(env, node, sources, count) matches Ok((next, list)) ==> grows(model, next),
    decreases count,
{
    if count > 0 {
        lemma_mix_inputs_grows(model, env, node, sources, (count - 1) as nat);
        if let Ok((below, list)) = model.mix_inputs(env, node, sources, (count - 1) as nat) {
            let from = sources[count - 1];
            lemma_lined_up_grows(below, from.buf, from.late, latest(sources));
            if let Ok((next, lined)) = below.lined_up(from.buf, from.late, latest(sources)) {
                lemma_grows_on(model, below, next);
            }
        }
    }
}

spec fn inputs_ready(
    model: AudioModel,
    list: Seq<MixInput>,
    channels: u16,
    widths: Seq<u16>,
) -> bool {
    forall|i: int|
        0 <= i < list.len() ==> ready(model, (#[trigger] list[i]).buf, widths) && (channels != 0
            ==> widths[list[i].buf as int] == channels)
}

proof fn lemma_mix_inputs(
    model: AudioModel,
    env: AudioEnv,
    node: Mix,
    sources: Seq<MixSource>,
    count: nat,
    widths: Seq<u16>,
)
    requires
        sound(model, widths),
        count <= sources.len(),
        sources_ready(model, sources, node.channels, widths),
        model.mix_inputs(env, node, sources, count) matches Ok((next, list)) && begins(
            next.pool.widths,
            widths,
        ),
    ensures
        model.mix_inputs(env, node, sources, count) matches Ok((next, list)) && sound(next, widths)
            && inputs_ready(next, list, node.channels, widths),
    decreases count,
{
    if count > 0 {
        let (below, list) = model.mix_inputs(env, node, sources, (count - 1) as nat)->Ok_0;
        let from = sources[count - 1];
        let (next, lined) = below.lined_up(from.buf, from.late, latest(sources))->Ok_0;
        lemma_mix_inputs_grows(model, env, node, sources, (count - 1) as nat);
        lemma_lined_up_grows(below, from.buf, from.late, latest(sources));
        lemma_begins_on(below.pool.widths, next.pool.widths, widths);
        lemma_mix_inputs(model, env, node, sources, (count - 1) as nat, widths);
        lemma_still_ready(model, below, from.buf, widths);
        lemma_lined_up(below, from.buf, from.late, latest(sources), widths);
        assert forall|i: int| 0 <= i < list.len() implies ready(
            next,
            (#[trigger] list[i]).buf,
            widths,
        ) by {
            lemma_still_ready(below, next, list[i].buf, widths);
        }
    }
}

proof fn lemma_mix_grows(model: AudioModel, env: AudioEnv, node: Mix)
    ensures
        model.mix(env, node) matches Ok(next) ==> grows(model, next),
{
    let count = if node.inputs < 128 {
        node.inputs as nat
    } else {
        128
    };
    lemma_mix_sources_grows(model, count);
    if let Ok((fed, sources)) = model.mix_sources(count) {
        lemma_mix_inputs_grows(fed, env, node, sources, sources.len());
        if let Ok((lined, inputs)) = fed.mix_inputs(env, node, sources, sources.len()) {
            let bufs = mix_bufs(inputs);
            lemma_grows_on(model, fed, lined);
            lemma_buffer_beside(lined, node.channels, lined.readers, bufs, lined.pool.widths);
            if let Ok((next, out)) = lined.with_buffer_beside(
                node.channels,
                lined.readers,
                bufs,
            ) {
                let mixed = next.emitted(AudioStep::Mix { out, inputs });
                lemma_grows_on(model, lined, next);
                lemma_grows_on(model, next, mixed);
                lemma_consumed_all_grows(mixed, bufs, inputs.len());
                lemma_grows_on(model, mixed, mixed.consumed_all(bufs, inputs.len()));
            }
        }
    }
}

proof fn lemma_mix(model: AudioModel, env: AudioEnv, node: Mix, widths: Seq<u16>)
    requires
        sound(model, widths),
        node.channels <= MAX_CHANNELS,
        model.sources.len() == model.source_widths.len(),
        forall|i: int|
            0 <= i < model.source_widths.len() ==> #[trigger] model.source_widths[i]
                == node.channels,
        model.mix(env, node) matches Ok(next) && begins(next.pool.widths, widths),
    ensures
        model.mix(env, node) matches Ok(next) && sound(next, widths),
{
    let count = if node.inputs < 128 {
        node.inputs as nat
    } else {
        128
    };
    let (fed, sources) = model.mix_sources(count)->Ok_0;
    let (lined, inputs) = fed.mix_inputs(env, node, sources, sources.len())->Ok_0;
    let bufs = mix_bufs(inputs);
    let (next, out) = lined.with_buffer_beside(node.channels, lined.readers, bufs)->Ok_0;
    let op = AudioStep::Mix { out, inputs };
    let mixed = next.emitted(op);
    let done = mixed.consumed_all(bufs, inputs.len());
    lemma_mix_sources_grows(model, count);
    lemma_mix_inputs_grows(fed, env, node, sources, sources.len());
    lemma_buffer_beside(lined, node.channels, lined.readers, bufs, widths);
    lemma_consumed_all_grows(mixed, bufs, inputs.len());
    lemma_begins_on(lined.pool.widths, next.pool.widths, widths);
    lemma_begins_on(fed.pool.widths, lined.pool.widths, widths);
    lemma_mix_sources(model, count, node.channels, widths);
    lemma_mix_inputs(fed, env, node, sources, sources.len(), widths);
    assert forall|at: (Buf, int)| reads(op, widths).contains(at) implies written(
        next.ops,
        widths,
    ).contains(at) by {
        let i = choose|i: int|
            0 <= i < inputs.len() && at.0 == (#[trigger] inputs[i]).buf && 0 <= at.1
                < heard_width(widths[out as int]);
        assert(ready(lined, inputs[i].buf, widths));
        assert(run_of_channels(at.0, 0, widths[at.0 as int] as int).contains(at));
    }
    lemma_emitted(next, op, widths);
    assert forall|i: int| 0 <= i < bufs.len() implies (#[trigger] bufs[i])
        < mixed.pool.widths.len() by {
        assert(bufs[i] == inputs[i].buf);
        assert(ready(lined, inputs[i].buf, widths));
    }
    lemma_consumed_all(mixed, bufs, inputs.len(), widths);
    assert(ready(done, out, widths)) by {
        assert(run_of_channels(out, 0, widths[out as int] as int).subset_of(
            channels_written(op, widths),
        ));
    }
    lemma_producing(done, 0, out, latest(sources), widths);
}

proof fn lemma_audio_in(model: AudioModel, node: AudioIn, widths: Seq<u16>)
    requires
        sound(model, widths),
        node.channels <= MAX_CHANNELS,
        model.audio_in(node) matches Ok(next) && begins(next.pool.widths, widths),
    ensures
        model.audio_in(node) matches Ok(next) && sound(next, widths) && grows(model, next),
{
    lemma_buffer(model, node.channels, model.readers, widths);
    let (next, out) = model.with_buffer(node.channels, model.readers)->Ok_0;
    let op = AudioStep::Input { out, bus: node.bus };
    lemma_emitted(next, op, widths);
    assert(run_of_channels(out, 0, widths[out as int] as int).subset_of(
        channels_written(op, widths),
    ));
    lemma_producing(next.emitted(op), 0, out, 0, widths);
}

proof fn lemma_audio_out(model: AudioModel, node: AudioOut, widths: Seq<u16>)
    requires
        sound(model, widths),
        model.sources.len() == model.source_widths.len(),
        model.audio_out(node) matches Ok(next) && begins(next.pool.widths, widths),
    ensures
        model.audio_out(node) matches Ok(next) && sound(next, widths),
{
    lemma_source_grows(model, 0);
    lemma_with_source(model, 0, widths);
    let (next, from) = model.with_source(0)->Ok_0;
    if let Some((a, late)) = from {
        let op = AudioStep::Output { a, bus: node.bus };
        assert forall|at: (Buf, int)| reads(op, widths).contains(at) implies written(
            next.ops,
            widths,
        ).contains(at) by {
            assert(run_of_channels(a, 0, widths[a as int] as int).contains(at));
        }
        lemma_emitted(next, op, widths);
        lemma_consumed(next.emitted(op), a, widths);
        lemma_aside(next.emitted(op).consumed(a), model.audio_out(node)->Ok_0, widths);
    }
}

proof fn lemma_audio_gate(model: AudioModel, env: AudioEnv, node: Gate, widths: Seq<u16>)
    requires
        sound(model, widths),
        node.channels <= MAX_CHANNELS,
        model.sources.len() == model.source_widths.len(),
        model.source_widths.len() > 0 ==> model.source_widths[0] == node.channels,
        model.audio_gate(env, node) matches Ok(next) && begins(next.pool.widths, widths),
    ensures
        model.audio_gate(env, node) matches Ok(next) && sound(next, widths),
{
    lemma_source_grows(model, 0);
    let (fed, from) = model.with_source(0)->Ok_0;
    if let Some((a, late)) = from {
        lemma_buffer_beside(fed, node.channels, fed.readers, seq![a], widths);
        let (next, out) = fed.with_buffer_beside(node.channels, fed.readers, seq![a])->Ok_0;
        lemma_begins_on(fed.pool.widths, next.pool.widths, widths);
        lemma_with_source(model, 0, widths);
        let op = AudioStep::Fade {
            out,
            a,
            state: next.latch(env),
            lane: next.lane(env, 1),
            gain: Real::unit(),
            rise: node.fade_in_ms,
            fall: node.fade_out_ms,
        };
        assert forall|at: (Buf, int)| reads(op, widths).contains(at) implies written(
            next.ops,
            widths,
        ).contains(at) by {
            assert(run_of_channels(a, 0, widths[a as int] as int).contains(at));
        }
        lemma_emitted(next, op, widths);
        assert(run_of_channels(out, 0, widths[out as int] as int).subset_of(
            channels_written(op, widths),
        ));
        lemma_consumed(next.emitted(op), a, widths);
        lemma_producing(next.emitted(op).consumed(a), 0, out, late, widths);
    } else {
        lemma_buffer(fed, node.channels, fed.readers, widths);
        let (next, out) = fed.with_buffer(node.channels, fed.readers)->Ok_0;
        lemma_begins_on(fed.pool.widths, next.pool.widths, widths);
        lemma_with_source(model, 0, widths);
        let op = AudioStep::Silence { out };
        lemma_emitted(next, op, widths);
        assert(run_of_channels(out, 0, widths[out as int] as int).subset_of(
            channels_written(op, widths),
        ));
        lemma_producing(next.emitted(op), 0, out, 0, widths);
    }
}

proof fn lemma_with_line(model: AudioModel, env: AudioEnv, line: LineId, widths: Seq<u16>)
    ensures
        model.with_line(env, line) matches Ok((next, index)) ==> grows(model, next) && next.ops
            == model.ops && next.pool == model.pool && (sound(model, widths) ==> sound(
            next,
            widths,
        )),
{
    if let Ok((next, index)) = model.with_line(env, line) {
        if sound(model, widths) {
            lemma_aside(model, next, widths);
        }
    }
}

proof fn lemma_audio_read(model: AudioModel, env: AudioEnv, node: DelayRead, widths: Seq<u16>)
    requires
        sound(model, widths),
        node.ty matches PortType::Audio { channels } ==> channels <= MAX_CHANNELS,
        model.audio_read(env, node) matches Ok(next) && begins(next.pool.widths, widths),
    ensures
        model.audio_read(env, node) matches Ok(next) && sound(next, widths),
{
    if let PortType::Audio { channels } = node.ty {
        lemma_with_line(model, env, node.line, widths);
        let (lined, line) = model.with_line(env, node.line)->Ok_0;
        let rung = lined.wanting_ring(line, node.max_time);
        lemma_aside(lined, rung, widths);
        lemma_buffer(rung, channels, rung.readers, widths);
        let (next, out) = rung.with_buffer(channels, rung.readers)->Ok_0;
        let op = AudioStep::DelayRead {
            out,
            line,
            lane: next.lane(env, 0),
            time: node.time,
            max_time: node.max_time,
        };
        lemma_emitted(next, op, widths);
        assert(run_of_channels(out, 0, widths[out as int] as int).subset_of(
            channels_written(op, widths),
        ));
        lemma_producing(next.emitted(op), 0, out, 0, widths);
    }
}

proof fn lemma_audio_write(model: AudioModel, env: AudioEnv, node: DelayWrite, widths: Seq<u16>)
    requires
        sound(model, widths),
        model.sources.len() == model.source_widths.len(),
        model.audio_write(env, node) matches Ok(next) && begins(next.pool.widths, widths),
    ensures
        model.audio_write(env, node) matches Ok(next) && sound(next, widths),
{
    if node.ty is Audio {
        lemma_source_grows(model, 0);
        let (fed, from) = model.with_source(0)->Ok_0;
        lemma_with_line(fed, env, node.line, widths);
        let (next, line) = fed.with_line(env, node.line)->Ok_0;
        lemma_with_source(model, 0, widths);
        if let Some((a, late)) = from {
            let op = AudioStep::DelayWrite { line, a };
            let held = next.held_back(op);
            assert forall|at: (Buf, int)| reads(op, widths).contains(at) implies written(
                next.ops,
                widths,
            ).contains(at) by {
                assert(run_of_channels(a, 0, widths[a as int] as int).contains(at));
            }
            assert forall|i: int| 0 <= i < held.deferred.len() implies reads(
                #[trigger] held.deferred[i],
                widths,
            ).subset_of(written(held.ops, widths)) by {
                if i < next.deferred.len() {
                    assert(held.deferred[i] == next.deferred[i]);
                }
            }
        }
    }
}

proof fn lemma_bus_buffers_grows(model: AudioModel, until: u32, count: nat)
    ensures
        model.bus_buffers(until, count) matches Ok((next, list)) ==> grows(model, next)
            && list.len() == count,
    decreases count,
{
    if count > 0 {
        lemma_bus_buffers_grows(model, until, (count - 1) as nat);
        if let Ok((below, list)) = model.bus_buffers(until, (count - 1) as nat) {
            if let Some((buf, late)) = below.source(count - 1) {
                lemma_lined_up_grows(below, buf, late, until);
                if let Ok((next, lined)) = below.lined_up(buf, late, until) {
                    lemma_grows_on(model, below, next);
                }
            } else {
                lemma_buffer(below, 1, 1, below.pool.widths);
                if let Ok((next, out)) = below.with_buffer(1, 1) {
                    lemma_grows_on(model, below, next);
                    lemma_grows_on(model, next, next.emitted(AudioStep::Silence { out }));
                }
            }
        }
    }
}

spec fn bufs_ready(model: AudioModel, bufs: Seq<Buf>, widths: Seq<u16>) -> bool {
    forall|i: int| 0 <= i < bufs.len() ==> ready(model, #[trigger] bufs[i], widths)
}

proof fn lemma_bus_buffers(model: AudioModel, until: u32, count: nat, widths: Seq<u16>)
    requires
        sound(model, widths),
        model.bus_buffers(until, count) matches Ok((next, list)) && begins(
            next.pool.widths,
            widths,
        ),
    ensures
        model.bus_buffers(until, count) matches Ok((next, list)) && sound(next, widths)
            && bufs_ready(next, list, widths),
    decreases count,
{
    if count > 0 {
        lemma_bus_buffers_grows(model, until, (count - 1) as nat);
        let (below, list) = model.bus_buffers(until, (count - 1) as nat)->Ok_0;
        let (last, bufs) = model.bus_buffers(until, count)->Ok_0;
        if let Some((buf, late)) = below.source(count - 1) {
            lemma_lined_up_grows(below, buf, late, until);
            lemma_begins_on(below.pool.widths, last.pool.widths, widths);
            lemma_bus_buffers(model, until, (count - 1) as nat, widths);
            assert(below.sources[count - 1] == Some((buf, late)));
            lemma_lined_up(below, buf, late, until, widths);
        } else {
            lemma_buffer(below, 1, 1, widths);
            let (next, out) = below.with_buffer(1, 1)->Ok_0;
            let op = AudioStep::Silence { out };
            lemma_begins_on(below.pool.widths, next.pool.widths, widths);
            lemma_bus_buffers(model, until, (count - 1) as nat, widths);
            lemma_emitted(next, op, widths);
            assert(run_of_channels(out, 0, widths[out as int] as int).subset_of(
                channels_written(op, widths),
            ));
            lemma_grows_on(below, next, last);
        }
        assert forall|i: int| 0 <= i < bufs.len() implies ready(
            last,
            #[trigger] bufs[i],
            widths,
        ) by {
            if i < list.len() {
                assert(bufs[i] == list[i]);
                lemma_still_ready(below, last, list[i], widths);
            }
        }
    }
}

proof fn lemma_input_region_grows(model: AudioModel, bufs: Seq<Buf>, asked: Seq<u16>)
    ensures
        model.input_region(bufs, asked) matches Ok((next, input)) ==> grows(model, next),
{
    lemma_buffer(model, 0, 0, model.pool.widths);
    lemma_buffer_beside(model, total_width(asked) as u16, 1, bufs, model.pool.widths);
    if let Ok((next, out)) = model.with_buffer_beside(total_width(asked) as u16, 1, bufs) {
        let gathered = next.emitted(
            AudioStep::Gather { out, buses: paired(bufs, asked), folding: Folding::Sum },
        );
        lemma_grows_on(model, next, gathered);
        lemma_consumed_all_grows(gathered, bufs, bufs.len());
        lemma_grows_on(model, gathered, gathered.consumed_all(bufs, bufs.len()));
    }
}

proof fn lemma_input_region(
    model: AudioModel,
    bufs: Seq<Buf>,
    asked: Seq<u16>,
    widths: Seq<u16>,
)
    requires
        sound(model, widths),
        bufs_ready(model, bufs, widths),
        bufs.len() == asked.len(),
        model.input_region(bufs, asked) matches Ok((next, input)) && begins(
            next.pool.widths,
            widths,
        ),
    ensures
        model.input_region(bufs, asked) matches Ok((next, input)) && {
            &&& sound(next, widths)
            &&& ready(next, input, widths)
            &&& widths[input as int] == total_width(asked)
        },
{
    if bufs.len() == 0 {
        lemma_buffer(model, 0, 0, widths);
        assert(asked =~= Seq::empty());
        assert(total_width(asked) == 0);
    } else if bufs.len() == 1 && model.pool.widths[bufs[0] as int] == asked[0] {
        assert(ready(model, bufs[0], widths));
        assert(asked.drop_last() =~= Seq::empty());
        assert(total_width(asked) == asked[0]) by {
            reveal_with_fuel(total_width, 2);
        }
    } else {
        let total = total_width(asked) as u16;
        lemma_buffer_beside(model, total, 1, bufs, widths);
        let (next, out) = model.with_buffer_beside(total, 1, bufs)->Ok_0;
        let buses = paired(bufs, asked);
        let gathered = next.emitted(AudioStep::Gather { out, buses, folding: Folding::Sum });
        lemma_consumed_all_grows(gathered, bufs, bufs.len());
        assert(widths_of(buses) =~= asked);
        assert forall|i: int| 0 <= i < buses.len() implies filled(
            next.ops,
            widths,
            (#[trigger] buses[i]).0,
        ) by {
            assert(buses[i].0 == bufs[i]);
            assert(ready(model, bufs[i], widths));
        }
        lemma_gathered(next, out, buses, Folding::Sum, widths);
        assert forall|i: int| 0 <= i < bufs.len() implies (#[trigger] bufs[i])
            < gathered.pool.widths.len() by {
            assert(ready(model, bufs[i], widths));
        }
        lemma_consumed_all(gathered, bufs, bufs.len(), widths);
    }
}

proof fn lemma_main_outputs(
    model: AudioModel,
    shown: Seq<u16>,
    out: Buf,
    late: u32,
    count: nat,
    widths: Seq<u16>,
)
    ensures
        grows(model, model.main_outputs(shown, out, late, count)),
        model.main_outputs(shown, out, late, count).ops == model.ops,
        model.main_outputs(shown, out, late, count).pool == model.pool,
        sound(model, widths) && ready(model, out, widths) ==> sound(
            model.main_outputs(shown, out, late, count),
            widths,
        ),
    decreases count,
{
    if count > 0 {
        lemma_main_outputs(model, shown, out, late, (count - 1) as nat, widths);
        let below = model.main_outputs(shown, out, late, (count - 1) as nat);
        if sound(model, widths) && ready(model, out, widths) && shown[count - 1] == 0 {
            lemma_producing(below, (count - 1) as u8, out, late, widths);
        }
    }
}

proof fn lemma_split_outputs_grows(
    model: AudioModel,
    env: AudioEnv,
    ports: PluginPorts,
    region: Buf,
    late: u32,
    count: nat,
)
    ensures
        model.split_outputs(env, ports, region, late, count) matches Ok(next) ==> grows(
            model,
            next,
        ),
    decreases count,
{
    if count > 0 {
        lemma_split_outputs_grows(model, env, ports, region, late, (count - 1) as nat);
        if let Ok(below) = model.split_outputs(env, ports, region, late, (count - 1) as nat) {
            let readers = reader_count(env.links, env.order, below.id, (count - 1) as u8);
            let bus = ports.shown()[count - 1] as int;
            lemma_buffer_beside(
                below,
                ports.audio_out@[bus],
                readers as usize,
                seq![region],
                below.pool.widths,
            );
            if let Ok((next, out)) = below.with_buffer_beside(
                ports.audio_out@[bus],
                readers as usize,
                seq![region],
            ) {
                lemma_grows_on(model, below, next);
                lemma_grows_on(
                    model,
                    next,
                    next.emitted(
                        AudioStep::Split {
                            from: region,
                            out,
                            channel: total_width(ports.audio_out@.take(bus)) as u16,
                            width: ports.audio_out@[bus],
                        },
                    ),
                );
            }
        }
    }
}

/// The sockets show buses that there are.
proof fn lemma_shown(ports: PluginPorts)
    ensures
        forall|i: int|
            0 <= i < ports.shown().len() ==> #[trigger] ports.shown()[i] < ports.audio_out@.len(),
{
    if ports.audio_out_shown@.len() > 0 {
        let has = |bus: u16| bus < ports.audio_out@.len();
        assert forall|i: int| 0 <= i < ports.shown().len() implies #[trigger] ports.shown()[i]
            < ports.audio_out@.len() by {
            ports.audio_out_shown@.lemma_filter_pred(has, i);
        }
    }
}

proof fn lemma_split_outputs(
    model: AudioModel,
    env: AudioEnv,
    ports: PluginPorts,
    region: Buf,
    late: u32,
    count: nat,
    widths: Seq<u16>,
)
    requires
        sound(model, widths),
        ready(model, region, widths),
        count <= socket_count(ports.shown()),
        0 < ports.audio_out@.len(),
        ({
            let read = buses_read(env, model.id, ports.shown(), socket_count(ports.shown()));
            widths[region as int] == total_width(ports.audio_out@.take(read as int))
        }),
        model.split_outputs(env, ports, region, late, count) matches Ok(next) && begins(
            next.pool.widths,
            widths,
        ),
    ensures
        model.split_outputs(env, ports, region, late, count) matches Ok(next) && sound(
            next,
            widths,
        ) && ready(next, region, widths),
    decreases count,
{
    if count > 0 {
        let shown = ports.shown();
        let below = model.split_outputs(env, ports, region, late, (count - 1) as nat)->Ok_0;
        lemma_split_outputs_grows(model, env, ports, region, late, (count - 1) as nat);
        let port = (count - 1) as u8;
        let readers = reader_count(env.links, env.order, below.id, port);
        let bus = shown[count - 1] as int;
        if readers == 0 {
            lemma_split_outputs(model, env, ports, region, late, (count - 1) as nat, widths);
        } else {
            let width = ports.audio_out@[bus];
            lemma_buffer_beside(below, width, readers as usize, seq![region], widths);
            let (next, out) = below.with_buffer_beside(
                width,
                readers as usize,
                seq![region],
            )->Ok_0;
            lemma_begins_on(below.pool.widths, next.pool.widths, widths);
            lemma_split_outputs(model, env, ports, region, late, (count - 1) as nat, widths);
            let sockets = socket_count(shown);
            let read = buses_read(env, model.id, shown, sockets);
            lemma_shown(ports);
            lemma_buses_read(env, model.id, shown, count, sockets);
            lemma_buses_read_bound(env, model.id, shown, sockets, ports.audio_out@.len());
            lemma_total_width(ports.audio_out@, bus, read as int);
            let channel = total_width(ports.audio_out@.take(bus)) as u16;
            let op = AudioStep::Split { from: region, out, channel, width };
            assert(widths[region as int] <= u16::MAX);
            assert forall|at: (Buf, int)| reads(op, widths).contains(at) implies written(
                next.ops,
                widths,
            ).contains(at) by {
                assert(run_of_channels(region, 0, widths[region as int] as int).contains(at));
            }
            lemma_emitted(next, op, widths);
            assert(run_of_channels(out, 0, widths[out as int] as int).subset_of(
                channels_written(op, widths),
            ));
            lemma_producing(next.emitted(op), port, out, late, widths);
        }
    }
}

proof fn lemma_plugin_called_grows(
    model: AudioModel,
    env: AudioEnv,
    node: Plugin,
    input: Buf,
    ins: Seq<u16>,
    outs: Seq<u16>,
    late: u32,
)
    ensures
        model.plugin_called(env, node, input, ins, outs, late) matches Ok(next) ==> grows(
            model,
            next,
        ),
{
    let shown = node.ports.shown();
    let readers = if outs.len() == 1 {
        model.readers
    } else {
        1
    };
    let total = total_width(outs) as u16;
    lemma_buffer_beside(model, total, readers, seq![input], model.pool.widths);
    if let Ok((next, output)) = model.with_buffer_beside(total, readers, seq![input]) {
        let told = plugin_told(next, env, node, input, ins, outs, output);
        lemma_grows_on(model, next, told);
        lemma_main_outputs(told, shown, output, late, socket_count(shown), told.pool.widths);
        lemma_grows_on(model, told, told.main_outputs(shown, output, late, socket_count(shown)));
        lemma_split_outputs_grows(told, env, node.ports, output, late, socket_count(shown));
        if let Ok(last) = told.split_outputs(
            env,
            node.ports,
            output,
            late,
            socket_count(shown),
        ) {
            lemma_grows_on(model, told, last);
            lemma_grows_on(model, last, last.consumed(output));
        }
    }
}

/// A plugin called, before its outputs are handed on.
spec fn plugin_told(
    next: AudioModel,
    env: AudioEnv,
    node: Plugin,
    input: Buf,
    ins: Seq<u16>,
    outs: Seq<u16>,
    output: Buf,
) -> AudioModel {
    let called = next.emitted(
        AudioStep::Plugin {
            instance: node.instance,
            input,
            input_buses: ins,
            output,
            output_buses: outs,
            notes: next.plugin_notes(env, node.ports),
        },
    ).consumed(input);
    AudioModel {
        instances: called.instances.push(
            InstanceModel {
                instance: node.instance,
                input_channels: if ins.len() == 0 {
                    0
                } else {
                    ins[0]
                },
                aux_inputs: if ins.len() == 0 {
                    ins
                } else {
                    ins.skip(1)
                },
                output_channels: outs[0],
                aux_outputs: outs.skip(1),
            },
        ),
        ..called
    }
}

proof fn lemma_plugin_called(
    model: AudioModel,
    env: AudioEnv,
    node: Plugin,
    input: Buf,
    ins: Seq<u16>,
    outs: Seq<u16>,
    late: u32,
    widths: Seq<u16>,
)
    requires
        sound(model, widths),
        ready(model, input, widths),
        widths[input as int] == total_width(ins),
        0 < node.ports.audio_out@.len(),
        outs == node.ports.audio_out@.take(
            buses_read(
                env,
                model.id,
                node.ports.shown(),
                socket_count(node.ports.shown()),
            ) as int,
        ),
        model.plugin_called(env, node, input, ins, outs, late) matches Ok(next) && begins(
            next.pool.widths,
            widths,
        ),
    ensures
        model.plugin_called(env, node, input, ins, outs, late) matches Ok(next) && sound(
            next,
            widths,
        ),
{
    let shown = node.ports.shown();
    let sockets = socket_count(shown);
    let readers = if outs.len() == 1 {
        model.readers
    } else {
        1
    };
    let total = total_width(outs) as u16;
    let (next, output) = model.with_buffer_beside(total, readers, seq![input])->Ok_0;
    let told = plugin_told(next, env, node, input, ins, outs, output);
    let op = AudioStep::Plugin {
        instance: node.instance,
        input,
        input_buses: ins,
        output,
        output_buses: outs,
        notes: next.plugin_notes(env, node.ports),
    };
    let called = next.emitted(op);
    lemma_main_outputs(told, shown, output, late, sockets, widths);
    lemma_split_outputs_grows(told, env, node.ports, output, late, sockets);
    let last = model.plugin_called(env, node, input, ins, outs, late)->Ok_0;
    assert(begins(told.pool.widths, last.pool.widths));
    lemma_begins_on(told.pool.widths, last.pool.widths, widths);
    lemma_buffer_beside(model, total, readers, seq![input], widths);
    assert forall|at: (Buf, int)| reads(op, widths).contains(at) implies written(
        next.ops,
        widths,
    ).contains(at) by {
        assert(run_of_channels(input, 0, widths[input as int] as int).contains(at));
    }
    lemma_emitted(next, op, widths);
    assert(run_of_channels(output, 0, widths[output as int] as int).subset_of(
        channels_written(op, widths),
    ));
    lemma_consumed(called, input, widths);
    lemma_aside(called.consumed(input), told, widths);
    assert(ready(told, output, widths));
    if outs.len() != 1 {
        let split = told.split_outputs(env, node.ports, output, late, sockets)->Ok_0;
        lemma_split_outputs(told, env, node.ports, output, late, sockets, widths);
        lemma_consumed(split, output, widths);
    }
}

proof fn lemma_buses_fed(sources: Seq<Option<(Buf, u32)>>, count: nat)
    ensures
        buses_fed(sources, count) <= count,
    decreases count,
{
    if count > 0 {
        lemma_buses_fed(sources, (count - 1) as nat);
    }
}

proof fn lemma_plugin_grows(model: AudioModel, env: AudioEnv, node: Plugin)
    ensures
        model.plugin(env, node) matches Ok(next) ==> grows(model, next),
{
    let ports = node.ports;
    let fed = buses_fed(model.sources, ports.audio_in@.len());
    let until = latest_source(model.sources, fed);
    let ins = ports.audio_in@.take(fed as int);
    let read = buses_read(env, model.id, ports.shown(), socket_count(ports.shown()));
    let outs = ports.audio_out@.take(read as int);
    lemma_bus_buffers_grows(model, until, fed);
    if let Ok((lined, bufs)) = model.bus_buffers(until, fed) {
        lemma_input_region_grows(lined, bufs, ins);
        if let Ok((next, input)) = lined.input_region(bufs, ins) {
            lemma_grows_on(model, lined, next);
            let late = added(until, ports.latency);
            lemma_plugin_called_grows(next, env, node, input, ins, outs, late);
            if let Ok(last) = next.plugin_called(env, node, input, ins, outs, late) {
                lemma_grows_on(model, next, last);
            }
        }
    }
}

proof fn lemma_plugin(model: AudioModel, env: AudioEnv, node: Plugin, widths: Seq<u16>)
    requires
        sound(model, widths),
        model.plugin(env, node) matches Ok(next) && begins(next.pool.widths, widths),
    ensures
        model.plugin(env, node) matches Ok(next) && sound(next, widths),
{
    let ports = node.ports;
    if ports.audio_out@.len() > 0 {
        let fed = buses_fed(model.sources, ports.audio_in@.len());
        let until = latest_source(model.sources, fed);
        let ins = ports.audio_in@.take(fed as int);
        let read = buses_read(env, model.id, ports.shown(), socket_count(ports.shown()));
        let outs = ports.audio_out@.take(read as int);
        let late = added(until, ports.latency);
        let (lined, bufs) = model.bus_buffers(until, fed)->Ok_0;
        let (next, input) = lined.input_region(bufs, ins)->Ok_0;
        let last = next.plugin_called(env, node, input, ins, outs, late)->Ok_0;
        lemma_buses_fed(model.sources, ports.audio_in@.len());
        lemma_bus_buffers_grows(model, until, fed);
        lemma_input_region_grows(lined, bufs, ins);
        lemma_plugin_called_grows(next, env, node, input, ins, outs, late);
        lemma_begins_on(next.pool.widths, last.pool.widths, widths);
        lemma_begins_on(lined.pool.widths, next.pool.widths, widths);
        lemma_bus_buffers(model, until, fed, widths);
        lemma_input_region(lined, bufs, ins, widths);
        lemma_plugin_called(next, env, node, input, ins, outs, late, widths);
    }
}

/// What is wired into a node is what earlier nodes have left on their sockets.
proof fn lemma_sources(
    model: AudioModel,
    env: AudioEnv,
    id: NodeId,
    inputs: Seq<Socket>,
    count: nat,
    widths: Seq<u16>,
)
    requires
        in_order(model, widths),
    ensures
        ({
            let sources = audio_sources(env.links, model.produced, id, inputs, count);
            &&& sources.len() == audio_widths(inputs, count).len()
            &&& forall|i: int|
                0 <= i < sources.len() ==> (#[trigger] sources[i] matches Some((buf, late))
                    ==> ready(model, buf, widths))
        }),
    decreases count,
{
    if count > 0 {
        lemma_sources(model, env, id, inputs, (count - 1) as nat, widths);
        if let Some((from, port)) = source(env.links, id, (count - 1) as u8) {
            lemma_produced_from(model.produced, from, port, 0);
        }
    }
}

proof fn lemma_begun(
    model: AudioModel,
    env: AudioEnv,
    id: NodeId,
    kind: NodeKind,
    widths: Seq<u16>,
)
    requires
        sound(model, widths),
    ensures
        sound(model.begun(env, id, kind), widths),
        model.begun(env, id, kind).sources.len() == model.begun(
            env,
            id,
            kind,
        ).source_widths.len(),
{
    lemma_sources(model, env, id, kind.inputs(), kind.inputs().len(), widths);
}

/// Sockets no wider than what is heard of a buffer. A plugin writes as wide as it likes.
pub open spec fn is_narrow(kind: NodeKind) -> bool {
    match kind {
        NodeKind::AudioIn(node) => node.channels <= MAX_CHANNELS,
        NodeKind::Mix(node) => node.channels <= MAX_CHANNELS,
        NodeKind::Gate(node) => node.channels <= MAX_CHANNELS,
        NodeKind::DelayRead(node) => node.ty matches PortType::Audio { channels } ==> channels
            <= MAX_CHANNELS,
        _ => true,
    }
}

proof fn lemma_mix_widths(inputs: Seq<Socket>, channels: u16, count: nat)
    requires
        count <= inputs.len(),
        forall|i: int|
            0 <= i < inputs.len() ==> ((#[trigger] inputs[i]).ty matches PortType::Audio {
                channels: width,
            } ==> width == channels),
    ensures
        forall|i: int|
            0 <= i < audio_widths(inputs, count).len() ==> #[trigger] audio_widths(
                inputs,
                count,
            )[i] == channels,
    decreases count,
{
    if count > 0 {
        lemma_mix_widths(inputs, channels, (count - 1) as nat);
        assert(inputs[count - 1].ty matches PortType::Audio { channels: width } ==> width
            == channels);
        let before = audio_widths(inputs, (count - 1) as nat);
        let after = audio_widths(inputs, count);
        assert forall|i: int| 0 <= i < after.len() implies #[trigger] after[i] == channels by {
            if i < before.len() {
                assert(after[i] == before[i]);
            }
        }
    }
}

proof fn lemma_compiled_grows(model: AudioModel, env: AudioEnv, kind: NodeKind)
    ensures
        model.compiled(env, kind) matches Ok(next) ==> grows(model, next),
{
    let own = model.pool.widths;
    match kind {
        NodeKind::AudioIn(node) => {
            lemma_buffer(model, node.channels, model.readers, own);
        },
        NodeKind::AudioOut(node) => {
            lemma_source_grows(model, 0);
        },
        NodeKind::Gate(node) => {
            lemma_source_grows(model, 0);
            if let Ok((fed, from)) = model.with_source(0) {
                lemma_buffer(fed, node.channels, fed.readers, own);
                if let Some((a, late)) = from {
                    lemma_buffer_beside(fed, node.channels, fed.readers, seq![a], own);
                }
            }
        },
        NodeKind::DelayRead(node) => {
            lemma_with_line(model, env, node.line, own);
            if let PortType::Audio { channels } = node.ty {
                if let Ok((lined, line)) = model.with_line(env, node.line) {
                    let rung = lined.wanting_ring(line, node.max_time);
                    lemma_buffer(rung, channels, rung.readers, own);
                }
            }
        },
        NodeKind::DelayWrite(node) => {
            lemma_source_grows(model, 0);
            if let Ok((fed, from)) = model.with_source(0) {
                lemma_with_line(fed, env, node.line, own);
            }
        },
        NodeKind::Mix(node) => {
            lemma_mix_grows(model, env, node);
        },
        NodeKind::Plugin(node) => {
            lemma_plugin_grows(model, env, node);
        },
        _ => {},
    }
}

proof fn lemma_compiled(
    before: AudioModel,
    env: AudioEnv,
    id: NodeId,
    kind: NodeKind,
    widths: Seq<u16>,
)
    requires
        sound(before, widths),
        is_narrow(kind),
        before.begun(env, id, kind).compiled(env, kind) matches Ok(next) && begins(
            next.pool.widths,
            widths,
        ),
    ensures
        before.begun(env, id, kind).compiled(env, kind) matches Ok(next) && sound(next, widths),
{
    let model = before.begun(env, id, kind);
    lemma_begun(before, env, id, kind, widths);
    match kind {
        NodeKind::AudioIn(node) => {
            lemma_audio_in(model, node, widths);
        },
        NodeKind::AudioOut(node) => {
            lemma_audio_out(model, node, widths);
        },
        NodeKind::Gate(node) => {
            lemma_mix_widths(kind.inputs(), node.channels, kind.inputs().len());
            lemma_audio_gate(model, env, node, widths);
        },
        NodeKind::EnvelopeFollower(_) => {
            lemma_aside(model, model.audio_follower(), widths);
        },
        NodeKind::DelayRead(node) => {
            lemma_audio_read(model, env, node, widths);
        },
        NodeKind::DelayWrite(node) => {
            lemma_audio_write(model, env, node, widths);
        },
        NodeKind::Mix(node) => {
            lemma_mix_widths(kind.inputs(), node.channels, kind.inputs().len());
            lemma_mix(model, env, node, widths);
        },
        NodeKind::Plugin(node) => {
            lemma_plugin(model, env, node, widths);
        },
        _ => {},
    }
}

proof fn lemma_stage_grows(
    model: AudioModel,
    env: AudioEnv,
    graph: Graph,
    order: Seq<NodeId>,
    of: Seq<usize>,
    stage: int,
    count: nat,
)
    ensures
        audio_in_stage(model, env, graph, order, of, stage, count) matches Ok(next) ==> begins(
            model.pool.widths,
            next.pool.widths,
        ) && next.spans == model.spans,
    decreases count,
{
    if count > 0 {
        lemma_stage_grows(model, env, graph, order, of, stage, (count - 1) as nat);
        if let Ok(before) = audio_in_stage(
            model,
            env,
            graph,
            order,
            of,
            stage,
            (count - 1) as nat,
        ) {
            let id = order[count - 1];
            let kind = kind_of(graph, id);
            let begun = before.begun(env, id, kind);
            lemma_compiled_grows(begun, env, kind);
            begun.lemma_compiled_goes_on(env, kind);
            if let Ok(next) = begun.compiled(env, kind) {
                lemma_begins_on(model.pool.widths, before.pool.widths, next.pool.widths);
            }
        }
    }
}

proof fn lemma_stage(
    model: AudioModel,
    env: AudioEnv,
    graph: Graph,
    order: Seq<NodeId>,
    of: Seq<usize>,
    stage: int,
    count: nat,
    widths: Seq<u16>,
)
    requires
        sound(model, widths),
        count <= order.len(),
        forall|i: int| 0 <= i < order.len() ==> is_narrow(kind_of(graph, #[trigger] order[i])),
        audio_in_stage(model, env, graph, order, of, stage, count) matches Ok(next) && begins(
            next.pool.widths,
            widths,
        ),
    ensures
        audio_in_stage(model, env, graph, order, of, stage, count) matches Ok(next) && sound(
            next,
            widths,
        ),
    decreases count,
{
    if count > 0 {
        let before = audio_in_stage(
            model,
            env,
            graph,
            order,
            of,
            stage,
            (count - 1) as nat,
        )->Ok_0;
        let next = audio_in_stage(model, env, graph, order, of, stage, count)->Ok_0;
        let id = order[count - 1];
        let kind = kind_of(graph, id);
        if of[count - 1] == stage {
            lemma_compiled_grows(before.begun(env, id, kind), env, kind);
            lemma_begins_on(before.pool.widths, next.pool.widths, widths);
            lemma_stage(model, env, graph, order, of, stage, (count - 1) as nat, widths);
            lemma_compiled(before, env, id, kind, widths);
        } else {
            lemma_stage(model, env, graph, order, of, stage, (count - 1) as nat, widths);
        }
    }
}

proof fn lemma_draining_reads(ops: Seq<AudioStep>, from: int, to: int, widths: Seq<u16>)
    ensures
        forall|i: int|
            0 <= i < draining(ops, from, to).len() ==> reads(
                #[trigger] draining(ops, from, to)[i],
                widths,
            ) =~= Set::empty(),
    decreases to - from,
{
    if from < to {
        lemma_draining_reads(ops, from, to - 1, widths);
        let before = draining(ops, from, to - 1);
        let after = draining(ops, from, to);
        assert forall|i: int| 0 <= i < after.len() implies reads(
            #[trigger] after[i],
            widths,
        ) =~= Set::empty() by {
            if i < before.len() {
                assert(after[i] == before[i]);
            }
        }
    }
}

proof fn lemma_closed(model: AudioModel, widths: Seq<u16>)
    requires
        sound(model, widths),
    ensures
        sound(model.closed(), widths),
{
    let next = model.closed();
    let held = model.ops + model.deferred;
    let count = model.ops.len() as int;
    let drain = draining(held, model.settled_lines as int, model.audio_lines.len() as int);
    lemma_draining_reads(
        held,
        model.settled_lines as int,
        model.audio_lines.len() as int,
        widths,
    );
    lemma_written_grows(model.ops, next.ops, widths, count);
    assert forall|i: int| 0 <= i < next.ops.len() implies reads(
        #[trigger] next.ops[i],
        widths,
    ).subset_of(written_by(next.ops, widths, 0, i)) by {
        if i < count {
            assert(next.ops[i] == model.ops[i]);
            lemma_written_prefix_of(model.ops, next.ops, widths, i);
        } else if i < held.len() {
            assert(next.ops[i] == model.deferred[i - count]);
            lemma_written_more(next.ops, widths, 0, count, i);
        } else {
            assert(next.ops[i] == drain[i - held.len()]);
        }
    }
}

/// Spans that follow one another from 0 to some length.
spec fn tiled(spans: Seq<Span>, len: int) -> bool {
    &&& forall|j: int|
        0 <= j < spans.len() ==> (#[trigger] spans[j]).start == end_before(spans, j)
            && spans[j].start <= spans[j].end
    &&& end_before(spans, spans.len() as int) == len
}

spec fn end_before(spans: Seq<Span>, j: int) -> int {
    if j == 0 {
        0
    } else {
        spans[j - 1].end as int
    }
}

proof fn lemma_stages_grow(
    env: AudioEnv,
    graph: Graph,
    order: Seq<NodeId>,
    of: Seq<usize>,
    stages: nat,
)
    requires
        stages > 0,
        audio_in_stages(env, graph, order, of, stages) is Ok,
    ensures
        ({
            let before = audio_in_stages(env, graph, order, of, (stages - 1) as nat)->Ok_0;
            let next = audio_in_stages(env, graph, order, of, stages)->Ok_0;
            &&& audio_in_stages(env, graph, order, of, (stages - 1) as nat) is Ok
            &&& begins(before.pool.widths, next.pool.widths)
            &&& before.ops.len() <= next.ops.len()
        }),
{
    let before = audio_in_stages(env, graph, order, of, (stages - 1) as nat)->Ok_0;
    lemma_stage_grows(before, env, graph, order, of, stages - 1, order.len());
    lemma_stage_ops(before, env, graph, order, of, stages - 1, order.len());
}

proof fn lemma_stage_ops(
    model: AudioModel,
    env: AudioEnv,
    graph: Graph,
    order: Seq<NodeId>,
    of: Seq<usize>,
    stage: int,
    count: nat,
)
    ensures
        audio_in_stage(model, env, graph, order, of, stage, count) matches Ok(next)
            ==> model.ops.len() <= next.ops.len(),
    decreases count,
{
    if count > 0 {
        lemma_stage_ops(model, env, graph, order, of, stage, (count - 1) as nat);
        if let Ok(before) = audio_in_stage(
            model,
            env,
            graph,
            order,
            of,
            stage,
            (count - 1) as nat,
        ) {
            let id = order[count - 1];
            let kind = kind_of(graph, id);
            lemma_compiled_grows(before.begun(env, id, kind), env, kind);
        }
    }
}

proof fn lemma_stages(
    env: AudioEnv,
    graph: Graph,
    order: Seq<NodeId>,
    of: Seq<usize>,
    stages: nat,
    widths: Seq<u16>,
)
    requires
        forall|i: int| 0 <= i < order.len() ==> is_narrow(kind_of(graph, #[trigger] order[i])),
        audio_in_stages(env, graph, order, of, stages) matches Ok(next) && begins(
            next.pool.widths,
            widths,
        ) && next.ops.len() <= u32::MAX,
    ensures
        audio_in_stages(env, graph, order, of, stages) matches Ok(next) && sound(next, widths)
            && next.spans.len() == stages && tiled(next.spans, next.ops.len() as int),
    decreases stages,
{
    if stages > 0 {
        let before = audio_in_stages(env, graph, order, of, (stages - 1) as nat)->Ok_0;
        let next = audio_in_stages(env, graph, order, of, stages)->Ok_0;
        let open = audio_in_stage(
            before,
            env,
            graph,
            order,
            of,
            stages - 1,
            order.len(),
        )->Ok_0;
        lemma_stages_grow(env, graph, order, of, stages);
        lemma_begins_on(before.pool.widths, next.pool.widths, widths);
        lemma_stages(env, graph, order, of, (stages - 1) as nat, widths);
        lemma_stage(before, env, graph, order, of, stages - 1, order.len(), widths);
        lemma_stage_grows(before, env, graph, order, of, stages - 1, order.len());
        lemma_closed(open, widths);
        assert(next.spans.last().end == next.ops.len());
        assert forall|j: int| 0 <= j < next.spans.len() implies (#[trigger] next.spans[j]).start
            == end_before(next.spans, j) && next.spans[j].start <= next.spans[j].end by {
            if j < before.spans.len() {
                assert(next.spans[j] == before.spans[j]);
                if j > 0 {
                    assert(next.spans[j - 1] == before.spans[j - 1]);
                }
            } else if j > 0 {
                assert(next.spans[j - 1] == before.spans[j - 1]);
            }
        }
    }
}

/// Laying the stages out leaves out those with nothing in them, which leaves no gap.
proof fn lemma_stages_tiled(
    params: Seq<Span>,
    notes: Seq<Span>,
    audio: Seq<Span>,
    note_ops: Seq<NoteOp>,
    chunkings: Seq<Chunking>,
    count: nat,
    len: int,
)
    requires
        tiled(audio, len),
        count <= audio.len(),
    ensures
        ({
            let stages = stages_laid(params, notes, audio, note_ops, chunkings, count);
            &&& follow_on(stages)
            &&& stages.len() == 0 ==> end_before(audio, count as int) == 0
            &&& stages.len() > 0 ==> stages.last().audio.end == end_before(audio, count as int)
        }),
    decreases count,
{
    if count > 0 {
        lemma_stages_tiled(
            params,
            notes,
            audio,
            note_ops,
            chunkings,
            (count - 1) as nat,
            len,
        );
        let before = stages_laid(
            params,
            notes,
            audio,
            note_ops,
            chunkings,
            (count - 1) as nat,
        );
        let after = stages_laid(params, notes, audio, note_ops, chunkings, count);
        assert(audio[count - 1].start == end_before(audio, count - 1));
        assert forall|j: int| 0 <= j < after.len() implies starts_where(
            #[trigger] after[j],
            after,
            j,
        ) by {
            if j < before.len() {
                assert(after[j] == before[j]);
                if j > 0 {
                    assert(after[j - 1] == before[j - 1]);
                }
            } else if j > 0 {
                assert(after[j - 1] == before.last());
            }
        }
    }
}

/// A stage starts where the one before it ends.
spec fn starts_where(stage: Stage, stages: Seq<Stage>, j: int) -> bool {
    &&& stage.audio.start == if j == 0 {
        0
    } else {
        stages[j - 1].audio.end
    }
    &&& stage.audio.start <= stage.audio.end
}

spec fn follow_on(stages: Seq<Stage>) -> bool {
    forall|j: int| 0 <= j < stages.len() ==> starts_where(#[trigger] stages[j], stages, j)
}

proof fn lemma_written_split(
    ops: Seq<AudioStep>,
    widths: Seq<u16>,
    from: int,
    at: int,
    to: int,
)
    requires
        from <= at <= to,
    ensures
        written_by(ops, widths, from, to) == written_by(ops, widths, from, at).union(
            written_by(ops, widths, at, to),
        ),
    decreases to - at,
{
    if at < to {
        lemma_written_split(ops, widths, from, at, to - 1);
        assert(written_by(ops, widths, from, to) =~= written_by(ops, widths, from, at).union(
            written_by(ops, widths, at, to),
        ));
    } else {
        assert(written_by(ops, widths, from, to) =~= written_by(ops, widths, from, at).union(
            written_by(ops, widths, at, to),
        ));
    }
}

proof fn lemma_written_before(program: ProgramModel, j: nat)
    requires
        follow_on(program.stages),
        j <= program.stages.len(),
    ensures
        written_before(program, j) == written_by(
            program.audio_ops,
            program.buffers,
            0,
            if j == 0 {
                0
            } else {
                program.stages[j - 1].audio.end as int
            },
        ),
    decreases j,
{
    if j > 0 {
        let i = (j - 1) as nat;
        lemma_written_before(program, i);
        let audio = program.stages[i as int].audio;
        assert(starts_where(program.stages[i as int], program.stages, i as int));
        lemma_written_split(
            program.audio_ops,
            program.buffers,
            0,
            audio.start as int,
            audio.end as int,
        );
    }
}

/// A compiled program reads nothing that it has not written: every operation of every
/// stage, and the work it leaves, reads only channels that an earlier operation has left
/// written. That is so where no socket but a plugin's is wider than what is heard of it.
pub proof fn law_nothing_is_read_before_it_is_written(
    graph: Graph,
    slot_count: usize,
    program: ProgramModel,
)
    requires
        compiles_to(graph, slot_count, Ok(program)),
        program.audio_ops.len() <= u32::MAX,
        forall|i: int| 0 <= i < graph.nodes@.len() ==> is_narrow((#[trigger] graph.nodes@[i]).kind),
    ensures
        forall|j: int|
            0 <= j < program.stages.len() ==> {
                &&& reads_are_written(
                    program,
                    #[trigger] program.stages[j],
                    written_before(program, j as nat),
                )
                &&& work_is_written(
                    program,
                    program.stages[j],
                    written_before(program, j as nat),
                )
            },
{
    let lines = lines_of(graph.nodes@, graph.nodes@.len())->Ok_0;
    let order = depth_first(graph)->Ok_0;
    let plan = choose|plan: Plan| #[trigger]
        outcome(graph, slot_count, lines, order, plan, Ok(program));
    let chunkings = plan.stages@;
    let of = plan.of@;
    let notes = notes_in_stages(graph, order, of, chunkings.len())->Ok_0;
    let param = params_in_stages(
        param_env(graph, slot_count, lines, notes),
        graph,
        order,
        of,
        chunkings.len(),
    )->Ok_0;
    let env = audio_env(graph, lines, order, notes, param);
    let audio = audio_in_stages(env, graph, order, of, chunkings.len())->Ok_0;
    let widths = program.buffers;
    assert(program == assembled(notes, param, audio, slot_count, lines, chunkings));
    assert forall|i: int| 0 <= i < order.len() implies is_narrow(
        kind_of(graph, #[trigger] order[i]),
    ) by {
        assert(find(graph.nodes@, order[i]) is Some);
        lemma_find_from(graph.nodes@, order[i], 0);
    }
    lemma_stages(env, graph, order, of, chunkings.len(), widths);
    let note_ops = program.note_ops;
    let note_spans = spans_of(
        heard_of(notes.stages, notes.pending, param.audio_lanes, notes.ops.len()),
        chunkings.len(),
    );
    lemma_stages_tiled(
        param.spans,
        note_spans,
        audio.spans,
        note_ops,
        chunkings,
        chunkings.len(),
        audio.ops.len() as int,
    );
    assert forall|j: int| 0 <= j < program.stages.len() implies {
        &&& reads_are_written(
            program,
            #[trigger] program.stages[j],
            written_before(program, j as nat),
        )
        &&& work_is_written(program, program.stages[j], written_before(program, j as nat))
    } by {
        let stage = program.stages[j];
        let start = stage.audio.start as int;
        let base = written_before(program, j as nat);
        assert(starts_where(program.stages[j], program.stages, j));
        lemma_written_before(program, j as nat);
        lemma_ends_within(program.stages, audio.ops.len() as int, j);
        assert forall|k: int| start <= k < stage.audio.end implies reads(
            #[trigger] program.audio_ops[k],
            widths,
        ).subset_of(base.union(written_by(program.audio_ops, widths, start, k))) by {
            lemma_written_split(program.audio_ops, widths, 0, start, k);
        }
        assert forall|k: int| start <= k < stage.audio.end implies channels_read(
            #[trigger] program.audio_ops[k],
            widths,
        ).subset_of(base.union(written_by(program.audio_ops, widths, start, k))) by {
            assert(reads(program.audio_ops[k], widths).subset_of(
                base.union(written_by(program.audio_ops, widths, start, k)),
            ));
        }
        assert forall|k: int| start <= k < stage.audio.end implies work_reads(
            #[trigger] program.audio_ops[k],
            widths,
        ).subset_of(base.union(written_by(program.audio_ops, widths, start, k))) by {
            assert(reads(program.audio_ops[k], widths).subset_of(
                base.union(written_by(program.audio_ops, widths, start, k)),
            ));
        }
    }
}

/// Stages that follow on and end where the operations do lie within them.
proof fn lemma_ends_within(stages: Seq<Stage>, len: int, j: int)
    requires
        follow_on(stages),
        0 <= j < stages.len(),
        stages.last().audio.end <= len,
    ensures
        stages[j].audio.end <= len,
    decreases stages.len() - j,
{
    if j + 1 < stages.len() {
        lemma_ends_within(stages, len, j + 1);
        assert(starts_where(stages[j + 1], stages, j + 1));
    }
}

/// A program with one stage that runs a sub-block at a time. The others keep nothing, and no
/// lane drives their mixes.
pub open spec fn loops_once(program: ProgramModel, looped: int) -> bool {
    &&& !program.idle()
    &&& program.stages.len() < usize::MAX
    &&& 0 <= looped < program.stages.len()
    &&& program.stages[looped].chunking is SubBlock
    &&& forall|j: int|
        0 <= j < program.stages.len() && j != looped ==> works_by_frame(
            program,
            #[trigger] program.stages[j],
        ) && stays_steady(program, program.stages[j])
}

/// A compiled feedback loop sounds the same at any block size: one long block sounds as the
/// blocks that it is cut into, and leaves the engine as they do.
///
/// The engine runs what the graph compiles to. The rings it was given beside it make no
/// difference.
pub proof fn law_a_compiled_loop_sounds_the_same_at_any_block_size(
    graph: Graph,
    slot_count: usize,
    program: ProgramModel,
    model: EngineModel,
    whole: BlockInput,
    blocks: Seq<BlockInput>,
    channels: nat,
    looped: int,
    answer: spec_fn(Shown) -> AudioAnswer,
)
    requires
        compiles_to(graph, slot_count, Ok(program)),
        program.audio_ops.len() <= u32::MAX,
        forall|i: int| 0 <= i < graph.nodes@.len() ==> is_narrow((#[trigger] graph.nodes@[i]).kind),
        model.wf(),
        model.program matches Some(running) && running.audio_ops == program.audio_ops
            && running.buffers == program.buffers && running.stages == program.stages,
        loops_once(model.program->0, looped),
        by_frame(answer),
        0 < whole.quantum,
        whole.frames <= model.sound.stride,
        cut_into(whole, blocks),
    ensures
        sounds_as(model, whole, blocks, channels, answer),
{
    let running = model.program->0;
    law_nothing_is_read_before_it_is_written(graph, slot_count, program);
    assert forall|j: int| 0 <= j < running.stages.len() implies {
        &&& reads_are_written(
            running,
            #[trigger] running.stages[j],
            written_before(running, j as nat),
        )
        &&& work_is_written(running, running.stages[j], written_before(running, j as nat))
    } by {
        lemma_same_written(running, program, j as nat);
        let stage = program.stages[j];
        assert(reads_are_written(program, program.stages[j], written_before(program, j as nat)));
        assert(work_is_written(program, program.stages[j], written_before(program, j as nat)));
    }
    assert forall|j: int| 0 <= j < running.stages.len() implies work_is_written(
        running,
        #[trigger] running.stages[j],
        written_before(running, j as nat),
    ) by {
        assert(reads_are_written(running, running.stages[j], written_before(running, j as nat)));
    }
    law_a_feedback_loop_sounds_the_same_at_any_block_size(
        model,
        whole,
        blocks,
        channels,
        looped,
        answer,
    );
}

proof fn lemma_same_written(running: ProgramModel, program: ProgramModel, j: nat)
    requires
        running.audio_ops == program.audio_ops,
        running.buffers == program.buffers,
        running.stages == program.stages,
    ensures
        written_before(running, j) == written_before(program, j),
    decreases j,
{
    if j > 0 {
        lemma_same_written(running, program, (j - 1) as nat);
    }
}

} // verus!
