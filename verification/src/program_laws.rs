//! How the halves of a program come together.
use vstd::prelude::*;
use vstd::seq_lib::*;
use crate::audio_cx::{instance_inserted, instances_sorted, AudioModel};
use crate::compile::{assembled, bufs_filled, stages_laid};
use crate::declare::Line;
use crate::ir::{Chunking, InstanceModel, NoteOp, Reg, Span};
use crate::note_half::NoteHalf;
use crate::param_cx::{output_inserted, outputs_sorted, ParamModel};

verus! {

/// Registers come in the order of the lanes they land in, and within a lane in their own.
pub open spec fn in_lane_order(list: Seq<(u16, Reg)>) -> bool {
    forall|i: int, j: int|
        0 <= i < j < list.len() ==> (#[trigger] list[i]).0 < (#[trigger] list[j]).0 || list[i].0
            == list[j].0 && list[i].1 <= list[j].1
}

proof fn lemma_output_inserted(list: Seq<(u16, Reg)>, output: (u16, Reg))
    requires
        in_lane_order(list),
    ensures
        in_lane_order(output_inserted(list, output)),
        output_inserted(list, output).to_multiset() == list.to_multiset().insert(output),
        output_inserted(list, output).len() == list.len() + 1,
        forall|i: int|
            0 <= i <= list.len() ==> #[trigger] output_inserted(list, output)[i] == output
                || list.contains(output_inserted(list, output)[i]),
    decreases list.len(),
{
    broadcast use group_to_multiset_ensures;

    if list.len() > 0 {
        let rest = list.drop_last();
        assert(rest.push(list.last()) =~= list);
        lemma_output_inserted(rest, output);
        let below = output_inserted(rest, output);
        assert(forall|x: (u16, Reg)| rest.contains(x) ==> list.contains(x)) by {
            assert forall|x: (u16, Reg)| rest.contains(x) implies list.contains(x) by {
                let k = choose|k: int| 0 <= k < rest.len() && rest[k] == x;
                assert(list[k] == x);
            }
        }
        let all = output_inserted(list, output);
        if all != list.push(output) {
            assert(all == below.push(list.last()));
            assert(list.to_multiset().insert(output) =~= below.to_multiset().insert(list.last()));
            assert forall|i: int| 0 <= i <= list.len() implies #[trigger] all[i] == output
                || list.contains(all[i]) by {
                if i < below.len() {
                    assert(below[i] == output || rest.contains(below[i]));
                } else {
                    assert(list[list.len() - 1] == all[i]);
                }
            }
            assert forall|i: int, j: int| 0 <= i < j < all.len() implies (#[trigger] all[i]).0
                < (#[trigger] all[j]).0 || all[i].0 == all[j].0 && all[i].1 <= all[j].1 by {
                if j == below.len() {
                    assert(below[i] == output || rest.contains(below[i]));
                    if rest.contains(below[i]) {
                        let k = choose|k: int| 0 <= k < rest.len() && rest[k] == below[i];
                        assert(list[k] == below[i]);
                        assert(list[list.len() - 1] == all[j]);
                    }
                } else {
                    assert(below[i] == all[i] && below[j] == all[j]);
                }
            }
        } else {
            assert forall|i: int, j: int| 0 <= i < j < all.len() implies (#[trigger] all[i]).0
                < (#[trigger] all[j]).0 || all[i].0 == all[j].0 && all[i].1 <= all[j].1 by {
                if j == list.len() {
                    assert(list[i] == all[i]);
                    assert(list[list.len() - 1] == list.last());
                } else {
                    assert(list[i] == all[i] && list[j] == all[j]);
                }
            }
            assert forall|i: int| 0 <= i <= list.len() implies #[trigger] all[i] == output
                || list.contains(all[i]) by {
                if i < list.len() {
                    assert(list[i] == all[i]);
                }
            }
        }
    } else {
        assert(output_inserted(list, output) =~= seq![output]);
        assert(list.push(output) =~= seq![output]);
    }
}

/// The registers that land in lanes are kept, every one as often as it was, and put in the
/// order of their lanes.
pub proof fn law_registers_land_in_lane_order(list: Seq<(u16, Reg)>)
    ensures
        in_lane_order(outputs_sorted(list)),
        outputs_sorted(list).to_multiset() == list.to_multiset(),
    decreases list.len(),
{
    broadcast use group_to_multiset_ensures;

    if list.len() > 0 {
        law_registers_land_in_lane_order(list.drop_last());
        assert(list.drop_last().push(list.last()) =~= list);
        lemma_output_inserted(outputs_sorted(list.drop_last()), list.last());
    } else {
        assert(list =~= Seq::<(u16, Reg)>::empty());
    }
}

/// Plugins come in the order of their numbers.
pub open spec fn in_number_order(list: Seq<InstanceModel>) -> bool {
    forall|i: int, j: int|
        0 <= i < j < list.len() ==> (#[trigger] list[i]).instance <= (#[trigger] list[j]).instance
}

proof fn lemma_instance_inserted(list: Seq<InstanceModel>, io: InstanceModel)
    requires
        in_number_order(list),
    ensures
        in_number_order(instance_inserted(list, io)),
        instance_inserted(list, io).to_multiset() == list.to_multiset().insert(io),
        instance_inserted(list, io).len() == list.len() + 1,
        forall|i: int|
            0 <= i <= list.len() ==> #[trigger] instance_inserted(list, io)[i] == io
                || list.contains(instance_inserted(list, io)[i]),
    decreases list.len(),
{
    broadcast use group_to_multiset_ensures;

    if list.len() > 0 {
        let rest = list.drop_last();
        assert(rest.push(list.last()) =~= list);
        lemma_instance_inserted(rest, io);
        let below = instance_inserted(rest, io);
        let all = instance_inserted(list, io);
        assert forall|x: InstanceModel| rest.contains(x) implies list.contains(x) by {
            let k = choose|k: int| 0 <= k < rest.len() && rest[k] == x;
            assert(list[k] == x);
        }
        if list.last().instance <= io.instance {
            assert forall|i: int, j: int| 0 <= i < j < all.len() implies (
            #[trigger] all[i]).instance <= (#[trigger] all[j]).instance by {
                if j == list.len() {
                    assert(list[i] == all[i]);
                    assert(list[list.len() - 1] == list.last());
                } else {
                    assert(list[i] == all[i] && list[j] == all[j]);
                }
            }
            assert forall|i: int| 0 <= i <= list.len() implies #[trigger] all[i] == io
                || list.contains(all[i]) by {
                if i < list.len() {
                    assert(list[i] == all[i]);
                }
            }
        } else {
            assert(all == below.push(list.last()));
            assert(list.to_multiset().insert(io) =~= below.to_multiset().insert(list.last()));
            assert forall|i: int| 0 <= i <= list.len() implies #[trigger] all[i] == io
                || list.contains(all[i]) by {
                if i < below.len() {
                    assert(below[i] == io || rest.contains(below[i]));
                } else {
                    assert(list[list.len() - 1] == all[i]);
                }
            }
            assert forall|i: int, j: int| 0 <= i < j < all.len() implies (
            #[trigger] all[i]).instance <= (#[trigger] all[j]).instance by {
                if j == below.len() {
                    assert(below[i] == io || rest.contains(below[i]));
                    if rest.contains(below[i]) {
                        let k = choose|k: int| 0 <= k < rest.len() && rest[k] == below[i];
                        assert(list[k] == below[i]);
                        assert(list[list.len() - 1] == all[j]);
                    }
                } else {
                    assert(below[i] == all[i] && below[j] == all[j]);
                }
            }
        }
    } else {
        assert(instance_inserted(list, io) =~= seq![io]);
        assert(list.push(io) =~= seq![io]);
    }
}

/// The host is told of every plugin that was called, in the order of their numbers.
pub proof fn law_plugins_are_told_of_in_order(list: Seq<InstanceModel>)
    ensures
        in_number_order(instances_sorted(list)),
        instances_sorted(list).to_multiset() == list.to_multiset(),
    decreases list.len(),
{
    broadcast use group_to_multiset_ensures;

    if list.len() > 0 {
        law_plugins_are_told_of_in_order(list.drop_last());
        assert(list.drop_last().push(list.last()) =~= list);
        lemma_instance_inserted(instances_sorted(list.drop_last()), list.last());
    } else {
        assert(list =~= Seq::<InstanceModel>::empty());
    }
}

/// Whether an operation fills a note buffer.
pub open spec fn fills(op: NoteOp, buf: u16) -> bool {
    match op {
        NoteOp::Input { out, .. } => out == buf,
        NoteOp::Emit { out, .. } => out == buf,
        NoteOp::Filter { out, .. } => out == buf,
    }
}

proof fn lemma_bufs_filled(ops: Seq<NoteOp>, count: nat, buf: u16)
    requires
        count <= ops.len(),
        buf < 16,
        forall|i: int| 0 <= i < ops.len() ==> out_of(#[trigger] ops[i]) < 16,
    ensures
        bufs_filled(ops, count) & (1u16 << buf) != 0 <==> exists|i: int|
            0 <= i < count && fills(#[trigger] ops[i], buf),
    decreases count,
{
    if count > 0 {
        lemma_bufs_filled(ops, (count - 1) as nat, buf);
        let below = bufs_filled(ops, (count - 1) as nat);
        let out = out_of(ops[count - 1]);
        assert((below | (1u16 << out)) & (1u16 << buf) != 0 <==> (below & (1u16 << buf) != 0 || out
            == buf)) by (bit_vector)
            requires
                out < 16,
                buf < 16,
        ;
        if out == buf {
            assert(fills(ops[count - 1], buf));
        }
        if exists|i: int| 0 <= i < count && fills(#[trigger] ops[i], buf) {
            let i = choose|i: int| 0 <= i < count && fills(#[trigger] ops[i], buf);
            if i < count - 1 {
                assert(exists|i: int| 0 <= i < count - 1 && fills(#[trigger] ops[i], buf));
            }
        }
    } else {
        assert(0u16 & (1u16 << buf) == 0) by (bit_vector);
    }
}

pub open spec fn out_of(op: NoteOp) -> u16 {
    match op {
        NoteOp::Input { out, .. } => out,
        NoteOp::Emit { out, .. } => out,
        NoteOp::Filter { out, .. } => out,
    }
}

/// A stage in which something happens is kept, behind those kept before it, with its own
/// operations, the way it is cut and the note buffers that its operations fill. One in which
/// nothing happens is left out.
pub proof fn law_stages_keep_their_operations(
    params: Seq<Span>,
    notes: Seq<Span>,
    audio: Seq<Span>,
    note_ops: Seq<NoteOp>,
    chunkings: Seq<Chunking>,
    count: nat,
    s: int,
    buf: u16,
)
    requires
        0 <= s < count,
        buf < 16,
        notes[s].start <= notes[s].end <= note_ops.len(),
        forall|i: int| 0 <= i < note_ops.len() ==> out_of(#[trigger] note_ops[i]) < 16,
    ensures
        ({
            let before = stages_laid(params, notes, audio, note_ops, chunkings, s as nat);
            let through = stages_laid(params, notes, audio, note_ops, chunkings, (s + 1) as nat);
            let all = stages_laid(params, notes, audio, note_ops, chunkings, count);
            let runs = params[s].start < params[s].end || notes[s].start < notes[s].end
                || audio[s].start < audio[s].end;
            &&& s == 0 ==> before.len() == 0
            &&& !runs ==> through == before
            &&& runs ==> through.len() == before.len() + 1 && before.len() < all.len() && {
                let stage = all[before.len() as int];
                &&& stage.params == params[s]
                &&& stage.notes == notes[s]
                &&& stage.audio == audio[s]
                &&& stage.chunking == chunkings[s]
                &&& stage.note_bufs & (1u16 << buf) != 0 <==> exists|i: int|
                    notes[s].start <= i < notes[s].end && fills(#[trigger] note_ops[i], buf)
            }
        }),
    decreases count,
{
    if s < count - 1 {
        law_stages_keep_their_operations(
            params,
            notes,
            audio,
            note_ops,
            chunkings,
            (count - 1) as nat,
            s,
            buf,
        );
    } else {
        let filled = notes[s].of(note_ops);
        assert forall|i: int| 0 <= i < filled.len() implies out_of(#[trigger] filled[i]) < 16 by {
            assert(filled[i] == note_ops[notes[s].start + i]);
        }
        lemma_bufs_filled(filled, filled.len(), buf);
        if exists|i: int| 0 <= i < filled.len() && fills(#[trigger] filled[i], buf) {
            let i = choose|i: int| 0 <= i < filled.len() && fills(#[trigger] filled[i], buf);
            assert(fills(note_ops[notes[s].start + i], buf));
        }
        if exists|i: int|
            notes[s].start <= i < notes[s].end && fills(#[trigger] note_ops[i], buf) {
            let i = choose|i: int|
                notes[s].start <= i < notes[s].end && fills(#[trigger] note_ops[i], buf);
            assert(fills(filled[i - notes[s].start], buf));
        }
    }
}

/// A program's own lanes start behind the slots of the host and those a graph may have, its
/// delay lines are those that were declared, under the nodes that write them, and it is as
/// late and as wide as its audio half.
pub proof fn law_a_program_is_made_of_its_halves(
    notes: NoteHalf,
    param: ParamModel,
    audio: AudioModel,
    slot_count: usize,
    lines: Seq<Line>,
    chunkings: Seq<Chunking>,
    i: int,
)
    ensures
        ({
            let program = assembled(notes, param, audio, slot_count, lines, chunkings);
            &&& slot_count + 64 <= u16::MAX ==> program.audio_lane_base == slot_count + 64
            &&& program.delay_nodes.len() == lines.len()
            &&& 0 <= i < lines.len() ==> program.delay_nodes[i] == lines[i].writer
            &&& program.audio_ops == audio.ops
            &&& program.latency == audio.latency
            &&& program.buffers == audio.pool.widths
            &&& program.audio_delay_nodes == audio.delay_nodes
            &&& program.audio_ring_seconds == audio.ring_seconds
            &&& program.ops.len() == param.ops.len()
            &&& program.param_targets == param.param_targets
            &&& program.lfo_nodes == param.lfo_nodes
            &&& program.latch_nodes == param.latch_nodes
            &&& program.note_streams == notes.streams
            &&& program.note_bufs == notes.bufs
        }),
{
}

} // verus!
