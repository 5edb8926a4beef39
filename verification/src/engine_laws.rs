//! How a block is cut up and gone through, and what the engine keeps between blocks.
use vstd::prelude::*;
use crate::block::{stepped, BlockRun, Phase};
use crate::engine::EngineModel;
use crate::event::Event;
use crate::ir::Stage;
use crate::ledger_laws::{law_events_are_taken_in_order, same_but_for_its_number};
use crate::number::{Real, Sample};
use crate::run::{rows_over, ChunkPlace};
use crate::schedule::{row_laid, rows_in};

verus! {

/// A row starts with what the host has in its slots, and with nothing behind them.
pub proof fn law_a_row_starts_with_its_slots(lanes: nat, slots: Seq<Real>, lane: int)
    requires
        0 <= lane < lanes,
    ensures
        row_laid(lanes, slots).len() == lanes,
        lane < slots.len() ==> row_laid(lanes, slots)[lane] == slots[lane],
        lane >= slots.len() ==> row_laid(lanes, slots)[lane].bits == 0,
{
}

/// The chunks of a stage lie one behind the other and cover the block: one chunk, where the
/// stage runs on whole blocks, and otherwise sub-blocks of which only the last may be short.
pub proof fn law_chunks_cover_a_block(
    model: EngineModel,
    stage: Stage,
    frames: u32,
    quantum: u32,
    start: int,
)
    requires
        0 < frames <= model.sound.stride,
        0 <= start <= frames,
        quantum > 0,
    ensures
        start == frames ==> model.chunk_at(stage, frames, quantum, start) is None,
        start < frames ==> (model.chunk_at(stage, frames, quantum, start) matches Some(win) && {
            &&& win.block == frames
            &&& win.start == start
            &&& 0 < win.frames
            &&& win.start + win.frames <= frames
            &&& stage.chunking is WholeBlock ==> win.start + win.frames == frames
            &&& stage.chunking is SubBlock ==> win.frames <= quantum
            &&& stage.chunking is SubBlock && win.start + win.frames < frames ==> win.frames
                == quantum
        }),
{
}

/// A stage goes through its parameter operations in their order in every sub-block, one
/// sub-block after the other, and then through its audio operations in their order in every
/// chunk.
pub proof fn law_operations_run_in_order(
    run: BlockRun,
    model: EngineModel,
    frames: u32,
    quantum: u32,
    cut: Stage,
)
    requires
        run.cut(model) == Some(cut),
        run.params,
        run.audio,
        cut.params.end < usize::MAX,
        cut.audio.end < usize::MAX,
    ensures
        ({
            let next = run.stepped(model, frames, quantum);
            &&& run.phase matches Phase::Params { row, at } ==> next.stage == run.stage && {
                &&& at < cut.params.end ==> (next.phase matches Phase::Params { row: r, at: a }
                    && r == row && a == at + 1)
                &&& at >= cut.params.end && row + 1 < run.until_row ==> (
                next.phase matches Phase::Params { row: r, at: a } && r == row + 1 && a
                    == cut.params.start)
                &&& at >= cut.params.end && row + 1 >= run.until_row ==> (
                next.phase matches Phase::Audio { start, row: r, at: a, tap } && start == 0 && r
                    == 0 && a == cut.audio.start && tap == 0)
            }
            &&& run.phase matches Phase::Audio { start, row, at, tap } ==> (at < cut.audio.end
                && model.chunk_at(cut, frames, quantum, start as int) is Some ==> (
            next.phase matches Phase::Audio { start: s, row: r, at: a, .. } && s == start && r
                == row && a == at + 1 && next.stage == run.stage))
        }),
{
}

/// When a chunk is through the next starts behind it, with the row behind its own; when the
/// block is through the next stage starts.
pub proof fn law_chunks_follow_one_another(
    run: BlockRun,
    model: EngineModel,
    frames: u32,
    quantum: u32,
    cut: Stage,
)
    requires
        run.cut(model) == Some(cut),
        run.phase is Audio,
        run.phase->Audio_at >= cut.audio.end,
        run.phase->Audio_row < usize::MAX,
        quantum > 0,
        0 < frames <= model.sound.stride,
        run.phase->Audio_start <= frames,
    ensures
        ({
            let next = run.stepped(model, frames, quantum);
            let start = run.phase->Audio_start;
            let row = run.phase->Audio_row;
            &&& start < frames ==> next.stage == run.stage && (next.phase matches Phase::Audio {
                start: s,
                row: r,
                at,
                tap,
            } && r == row + 1 && at == cut.audio.start && tap == 0 && {
                &&& cut.chunking is WholeBlock ==> s == frames
                &&& cut.chunking is SubBlock && start + quantum <= frames ==> s == start + quantum
                &&& cut.chunking is SubBlock && start + quantum > frames ==> s == frames
            })
            &&& start == frames && run.stage < usize::MAX ==> next.stage == run.stage + 1
        }),
{
}

/// At the end of a sub-block its notes run over the frames of the sub-block: it starts where
/// the one before it ends, and ends with its quantum or with the block.
pub proof fn law_a_row_ends_over_its_own_frames(
    model: EngineModel,
    run: BlockRun,
    rows: Seq<Seq<Real>>,
    frames: u32,
    quantum: u32,
    daw_in: Seq<Sample>,
    cut: Stage,
) -> (over: (u32, u32))
    requires
        run.cut(model) == Some(cut),
        run.phase is Params,
        run.phase->Params_at >= cut.params.end,
        run.phase->Params_row * quantum < frames,
    ensures
        over.0 == run.phase->Params_row * quantum,
        over.0 + over.1 <= frames,
        over.1 == quantum || over.0 + over.1 == frames,
        over.1 <= quantum,
        ({
            let row = run.phase->Params_row as int;
            let (after, lanes) = model.row_ended(cut, row, over.0, over.1, rows[row]);
            stepped(model, run, rows, frames, quantum, daw_in) == (after, rows.update(row, lanes))
        }),
{
    let row = run.phase->Params_row;
    let start = row * quantum;
    assert(start >= 0) by (nonlinear_arith)
        requires
            start == row * quantum,
    ;
    let length = if frames - start < quantum {
        frames - start
    } else {
        quantum as int
    };
    (start as u32, length as u32)
}

/// A plugin hears the events of the sub-blocks that its chunk covers: from where the first of
/// them starts up to where the one behind the last starts, or to the end.
pub proof fn law_a_chunk_hears_its_own_sub_blocks(
    model: EngineModel,
    buf: u16,
    place: ChunkPlace,
    quantum: u32,
    end: int,
)
    requires
        model.wf(),
        buf < 16,
        quantum > 0,
        place.win.frames > 0,
        (end - place.row - 1) * quantum < place.win.frames <= (end - place.row) * quantum,
        place.row < model.note_rows <= model.note_marks.len(),
        model.note_marks[place.row as int][buf as int] <= model.notes.bufs[buf as int].events.len(),
        end < model.note_rows ==> model.note_marks[place.row as int][buf as int]
            <= model.note_marks[end][buf as int] <= model.notes.bufs[buf as int].events.len(),
    ensures
        model.chunk_events(Some(buf), place, quantum) == model.notes.bufs[buf as int].events.subrange(
            model.note_marks[place.row as int][buf as int] as int,
            if end < model.note_rows {
                model.note_marks[end][buf as int] as int
            } else {
                model.notes.bufs[buf as int].events.len() as int
            },
        ),
        model.chunk_events(None, place, quantum).len() == 0,
{
    let f = place.win.frames as int;
    let q = quantum as int;
    let n = end - place.row;
    let m = rows_over(place.win.frames, quantum);
    assert(m == (f + q - 1) / q);
    assert((f + q - 1) / q == n) by (nonlinear_arith)
        requires
            q > 0,
            f > 0,
            (n - 1) * q < f,
            f <= n * q,
    ;
}

/// Every block up to the size the engine was prepared for has a row of marks for each of its
/// sub-blocks, however finely it is cut.
pub proof fn law_every_sub_block_has_its_marks(
    model: EngineModel,
    max_frames: u32,
    daw_inputs: Seq<u16>,
    frames: u32,
    quantum: u32,
)
    requires
        frames <= max_frames,
        quantum >= 16,
    ensures
        rows_in(frames, quantum) <= model.prepared(max_frames, daw_inputs).note_marks.len(),
        model.prepared(max_frames, daw_inputs).note_rows == 0,
        forall|i: int|
            0 <= i < model.notes.bufs.len() ==> (#[trigger] model.prepared(
                max_frames,
                daw_inputs,
            ).notes.bufs[i]).events.len() == 0,
        model.prepared(max_frames, daw_inputs).ledger == model.ledger,
        model.prepared(max_frames, daw_inputs).program == model.program,
        model.prepared(max_frames, daw_inputs).params == model.params,
{
    let f = frames as int;
    let m = max_frames as int;
    let q = quantum as int;
    assert((f + q - 1) / q <= m / 16 + 2) by (nonlinear_arith)
        requires
            q >= 16,
            0 <= f <= m,
    ;
}

/// A block starts with the events that came in, in their order; those there was no room for
/// are counted, and no sub-block has run yet.
pub proof fn law_a_block_starts_with_its_events(model: EngineModel, events: Seq<Event>, i: int)
    ensures
        ({
            let next = model.begun(events);
            &&& next.translated.len() <= events.len()
            &&& next.translated.len() < events.len() ==> next.translated.len() == 1024
            &&& 0 <= i < next.translated.len() ==> same_but_for_its_number(
                events[i],
                next.translated[i],
            )
            &&& model.notes.dropped + (events.len() - next.translated.len()) <= u64::MAX
                ==> next.notes.dropped == model.notes.dropped + (events.len()
                - next.translated.len())
            &&& next.note_rows == 0
            &&& next.program == model.program
            &&& next.params == model.params
            &&& next.sound == model.sound
            &&& next.notes.streams == model.notes.streams
            &&& next.notes.emitted == model.notes.emitted
        }),
{
    law_events_are_taken_in_order(model.ledger, events, events.len(), i);
}

/// A reset forgets every note that is played and every event that is left, and nothing of
/// what is compiled.
pub proof fn law_a_reset_forgets_the_notes(model: EngineModel, i: int)
    requires
        0 <= i < 16,
    ensures
        ({
            let next = model.unplayed().settled_up();
            &&& next.ledger.notes.len() == 0
            &&& next.ledger.gone.len() == 0
            &&& next.ledger.next_id == model.ledger.next_id
            &&& next.translated.len() == 0
            &&& next.note_rows == 0
            &&& next.notes.bufs[i].events.len() == 0
            &&& next.notes.bufs[i].played.held == 0 && next.notes.bufs[i].played.count == 0
            &&& next.program == model.program
            &&& next.notes.streams == model.notes.streams
            &&& next.notes.dropped == model.notes.dropped
        }),
{
}

} // verus!
