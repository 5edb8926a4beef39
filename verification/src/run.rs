//! Walks a program through a block.
//!
//! A stage covers the block before the next one starts: first its parameter and
//! note operations, sub-block by sub-block, then its audio operations. Whatever
//! needs arithmetic, or a plugin, is handed to the caller in between.
use vstd::prelude::*;
use crate::audio_cx::{gather_fits, step_fits, total_width, widths_of};
use crate::emit_audio::{lemma_total_width, sum_of};
use crate::engine::{Engine, EngineModel};
use crate::event::{Event, NoteEvent};
use crate::ir::{
    AudioOp, AudioStep, Buf, Chunking, Folding, MixInput, Op, Stage, MAX_AUDIO_DELAY_LINES,
    MAX_AUDIO_TAPS, MAX_BUFFERS, MAX_BUFFER_CHANNELS, MAX_CHANNELS, MAX_LATCHES, MAX_NOTE_BUFS,
    NOTE_BUF_CAPACITY,
};
use crate::ledger::{Destination, LedgerModel};
use crate::note_state::{lemma_ran_appends, note_op_fits, NoteInput};
use crate::number::{Real, Sample};
use crate::params::{lanes_written, work_fits, Answer, ParamWork, ParamsModel};
use crate::sound::{folds_of, heard_width, run_of, Fold, SoundModel, SoundState, Window};

verus! {

/// The value of a lane in a row, if the grid reaches that far.
pub open spec fn lane_in(rows: Seq<Vec<Real>>, row: int, lane: Option<u16>) -> Option<Real> {
    match lane {
        Some(lane) if row < rows.len() && lane < rows[row]@.len() => Some(rows[row]@[lane as int]),
        _ => None,
    }
}

pub fn lane_at(rows: &[Vec<Real>], row: usize, lane: Option<u16>) -> (r: Option<Real>)
    ensures
        r == lane_in(rows@, row as int, lane),
{
    match lane {
        Some(lane) => if row < rows.len() && (lane as usize) < rows[row].len() {
            Some(rows[row][lane as usize])
        } else {
            None
        },
        None => None,
    }
}

/// How far ahead of a reading the interpolation looks.
pub const READ_AHEAD: usize = 2;

/// How much of a delay line a reading stays clear of.
pub const RING_SPARE: usize = 4;

/// One signal of a mix, and its gain in decibels.
#[derive(Debug, Clone, Copy, PartialEq, Eq, Structural)]
pub struct MixPart {
    pub buf: Buf,
    pub gain: Real,
}

/// A call of a plugin: its buses packed at the length of the chunk.
#[derive(Debug)]
pub struct PluginCall {
    pub instance: usize,
    pub input: Buf,
    pub input_buses: Vec<u16>,
    pub input_width: u16,
    pub output: Buf,
    pub output_buses: Vec<u16>,
    pub output_width: u16,
    pub notes: Option<u16>,
}

/// What has to be worked out before the next audio operation can run.
#[derive(Debug)]
pub enum AudioWork {
    Nothing,
    /// Channels that are made of all the channels of a buffer.
    Fold { list: Vec<Fold>, folding: Folding },
    Plugin { call: PluginCall },
    /// The sum of some signals.
    Mix { out: Buf, width: u16, parts: Vec<MixPart> },
    /// A signal at a gain that follows a lane, no faster than the times allow.
    Fade {
        out: Buf,
        a: Buf,
        width: u16,
        state: u16,
        lane: Option<u16>,
        from: Real,
        gain: Real,
        rise: Real,
        fall: Real,
    },
    /// A delay line read so many seconds back, within so many samples: no shorter
    /// than the chunk, nor longer than the line.
    Read {
        out: Buf,
        line: u16,
        width: u16,
        tap: usize,
        seconds: Real,
        max_time: Real,
        shortest: usize,
        longest: usize,
    },
}

#[verifier::ext_equal]
pub struct CallModel {
    pub instance: usize,
    pub input: Buf,
    pub input_buses: Seq<u16>,
    pub input_width: u16,
    pub output: Buf,
    pub output_buses: Seq<u16>,
    pub output_width: u16,
    pub notes: Option<u16>,
}

#[verifier::ext_equal]
pub enum AudioTask {
    Nothing,
    Fold { list: Seq<Fold>, folding: Folding },
    Plugin { call: CallModel },
    Mix { out: Buf, width: u16, parts: Seq<MixPart> },
    Fade {
        out: Buf,
        a: Buf,
        width: u16,
        state: u16,
        lane: Option<u16>,
        from: Real,
        gain: Real,
        rise: Real,
        fall: Real,
    },
    Read {
        out: Buf,
        line: u16,
        width: u16,
        tap: usize,
        seconds: Real,
        max_time: Real,
        shortest: usize,
        longest: usize,
    },
}

impl View for PluginCall {
    type V = CallModel;

    open spec fn view(&self) -> CallModel {
        CallModel {
            instance: self.instance,
            input: self.input,
            input_buses: self.input_buses@,
            input_width: self.input_width,
            output: self.output,
            output_buses: self.output_buses@,
            output_width: self.output_width,
            notes: self.notes,
        }
    }
}

impl View for AudioWork {
    type V = AudioTask;

    open spec fn view(&self) -> AudioTask {
        match *self {
            AudioWork::Nothing => AudioTask::Nothing,
            AudioWork::Fold { list, folding } => AudioTask::Fold { list: list@, folding },
            AudioWork::Plugin { call } => AudioTask::Plugin { call: call@ },
            AudioWork::Mix { out, width, parts } => AudioTask::Mix { out, width, parts: parts@ },
            AudioWork::Fade { out, a, width, state, lane, from, gain, rise, fall } => {
                AudioTask::Fade { out, a, width, state, lane, from, gain, rise, fall }
            },
            AudioWork::Read { out, line, width, tap, seconds, max_time, shortest, longest } => {
                AudioTask::Read { out, line, width, tap, seconds, max_time, shortest, longest }
            },
        }
    }
}

/// The signals of a mix, each at the gain of its lane or at its own.
pub open spec fn parts_of(inputs: Seq<MixInput>, rows: Seq<Vec<Real>>, row: int) -> Seq<MixPart> {
    Seq::new(
        inputs.len(),
        |i: int|
            MixPart {
                buf: inputs[i].buf,
                gain: match lane_in(rows, row, inputs[i].lane) {
                    Some(gain) => gain,
                    None => inputs[i].gain,
                },
            },
    )
}

/// Where a run of audio operations stands: the chunk, its row of lanes, and how
/// many delay lines the chunk has read.
#[derive(Debug, Clone, Copy, PartialEq, Eq, Structural)]
pub struct ChunkPlace {
    pub win: Window,
    pub row: usize,
    pub tap: usize,
}

/// What an audio operation does by itself.
pub open spec fn sound_did(
    state: SoundModel,
    step: AudioStep,
    widths: Seq<u16>,
    win: Window,
    daw_in: Seq<Sample>,
) -> SoundModel {
    match step {
        AudioStep::Silence { out } => state.silenced(out, win),
        AudioStep::Input { out, bus } => state.input(
            out,
            bus,
            widths[out as int],
            daw_in,
            win,
        ),
        AudioStep::Gather { out, buses, .. } => state.gathered(out, buses, widths, win, buses.len()),
        AudioStep::Split { from, out, channel, width } => state.split(
            from,
            channel as int,
            out,
            win,
            width as nat,
        ),
        AudioStep::Mix { out, inputs } => if inputs.len() == 0 {
            state.silenced(out, win)
        } else {
            state
        },
        AudioStep::Compensate { buf, slot, samples } => state.compensated(
            buf,
            slot,
            samples,
            widths[buf as int],
            win,
        ),
        AudioStep::DelayRead { out, line, .. } => if state.lines[line as int].usable() {
            state
        } else {
            state.silenced(out, win)
        },
        AudioStep::DelayWrite { line, a } => state.line_written(
            line as int,
            a,
            widths[a as int],
            win,
        ),
        AudioStep::DelaySilence { line } => state.line_drained(line as int, win.frames as nat),
        _ => state,
    }
}

/// What an audio operation hands to the DAW. Only the main output is ours.
pub open spec fn daw_heard(
    state: SoundModel,
    step: AudioStep,
    widths: Seq<u16>,
    win: Window,
    daw_out: Seq<Sample>,
) -> Seq<Sample> {
    match step {
        AudioStep::Output { a, bus } => if bus == 0 {
            state.handed_out(daw_out, a, win, heard_width(widths[a as int]) as nat)
        } else {
            daw_out
        },
        _ => daw_out,
    }
}

/// How much an audio operation leaves to be worked out.
pub open spec fn sound_asks(
    state: SoundModel,
    params: ParamsModel,
    step: AudioStep,
    widths: Seq<u16>,
    place: ChunkPlace,
    rows: Seq<Vec<Real>>,
) -> AudioTask {
    match step {
        AudioStep::Gather { out, buses, folding } => {
            let list = folds_of(out, buses, widths, buses.len());
            if list.len() == 0 {
                AudioTask::Nothing
            } else {
                AudioTask::Fold { list, folding }
            }
        },
        AudioStep::Plugin { instance, input, input_buses, output, output_buses, notes } => {
            AudioTask::Plugin {
                call: CallModel {
                    instance,
                    input,
                    input_buses,
                    input_width: total_width(input_buses) as u16,
                    output,
                    output_buses,
                    output_width: total_width(output_buses) as u16,
                    notes,
                },
            }
        },
        AudioStep::Mix { out, inputs } => if inputs.len() == 0 {
            AudioTask::Nothing
        } else {
            AudioTask::Mix {
                out,
                width: heard_width(widths[out as int]) as u16,
                parts: parts_of(inputs, rows, place.row as int),
            }
        },
        AudioStep::Fade { out, a, state: kept, lane, gain, rise, fall } => AudioTask::Fade {
            out,
            a,
            width: heard_width(widths[out as int]) as u16,
            state: kept,
            lane,
            from: if kept < MAX_LATCHES {
                params.latches[kept as int].value
            } else {
                Real::unset()
            },
            gain,
            rise,
            fall,
        },
        AudioStep::DelayRead { out, line, lane, time, max_time } => {
            if state.lines[line as int].usable() {
                AudioTask::Read {
                    out,
                    line,
                    width: heard_width(widths[out as int]) as u16,
                    tap: place.tap,
                    seconds: match lane_in(rows, place.row as int, lane) {
                        Some(seconds) => seconds,
                        None => time,
                    }.larger(Real::zeroed()),
                    max_time,
                    shortest: (place.win.frames + READ_AHEAD) as usize,
                    longest: (if state.lines[line as int].len > RING_SPARE {
                        state.lines[line as int].len - RING_SPARE
                    } else {
                        0
                    }) as usize,
                }
            } else {
                AudioTask::Nothing
            }
        },
        _ => AudioTask::Nothing,
    }
}

impl EngineModel {
    /// The stage with that number, if there is a program to run.
    pub open spec fn stage(self, stage: int) -> Option<Stage> {
        match self.program {
            Some(program) if !program.idle() && stage < program.stages.len() => Some(
                program.stages[stage],
            ),
            _ => None,
        }
    }

    pub open spec fn stage_count(self) -> nat {
        match self.program {
            Some(program) => program.stages.len(),
            None => 0,
        }
    }

    /// What the end of a sub-block does: the registers land in their lanes, and
    /// the note operations run on the events of the sub-block.
    pub open spec fn row_ended(
        self,
        stage: Stage,
        row: int,
        start: u32,
        frames: u32,
        slots: Seq<Real>,
    ) -> (EngineModel, Seq<Real>) {
        let program = self.program->0;
        let lanes = lanes_written(
            slots,
            program.outputs,
            self.params.registers,
            program.audio_lane_base,
            program.outputs.len(),
        );
        let base = Seq::new(
            MAX_NOTE_BUFS as nat,
            |i: int| self.notes.bufs[i].events.len() as usize,
        );
        (
            EngineModel {
                note_marks: if row < self.note_marks.len() {
                    self.note_marks.update(
                        row,
                        row_marked(self.note_marks[row], stage.note_bufs, base),
                    )
                } else {
                    self.note_marks
                },
                notes: self.notes.ran(
                    stage.notes.of(program.note_ops),
                    NoteInput { events: self.translated, start, frames, lanes, base },
                ),
                note_rows: if self.note_rows < row + 1 {
                    (row + 1) as usize
                } else {
                    self.note_rows
                },
                ..self
            },
            lanes,
        )
    }

    /// The events of the rows a chunk covers, on a note buffer.
    pub open spec fn chunk_events(self, notes: Option<u16>, place: ChunkPlace, quantum: u32) -> Seq<
        Event,
    > {
        match notes {
            Some(buf) if buf < self.notes.bufs.len() => {
                let (from, to) = self.rows_of(
                    buf as int,
                    place.row as int,
                    place.row + rows_over(place.win.frames, quantum),
                );
                self.notes.bufs[buf as int].events.subrange(from, to)
            },
            _ => Seq::empty(),
        }
    }

    /// The next chunk of a stage, from `start` on: the whole block at once, or a
    /// sub-block where a delay line's two ends lie in the stage.
    pub open spec fn chunk_at(
        self,
        stage: Stage,
        frames: u32,
        quantum: u32,
        start: int,
    ) -> Option<Window> {
        if self.sound.stride == 0 || frames > self.sound.stride || start >= frames {
            None
        } else {
            let step = match stage.chunking {
                Chunking::WholeBlock => frames as int,
                Chunking::SubBlock => if quantum > 0 {
                    quantum as int
                } else {
                    1
                },
            };
            Some(
                Window {
                    block: frames as usize,
                    start: start as usize,
                    frames: (if step < frames - start {
                        step
                    } else {
                        frames - start
                    }) as usize,
                },
            )
        }
    }
}

/// The marks of a row with those of the buffers that a stage fills set to where
/// the buffers stand.
pub open spec fn row_marked(marks: Seq<u32>, filled: u16, base: Seq<usize>) -> Seq<u32> {
    Seq::new(
        marks.len(),
        |i: int|
            if filled & (1u16 << (i as u16)) != 0 {
                base[i] as u32
            } else {
                marks[i]
            },
    )
}

/// A row hears the events that its sub-block brought, and no others: they lie
/// between where the buffer stood when the row ended and where it stands after. A
/// buffer never holds more than it has room for.
pub proof fn law_a_row_hears_its_own_events(
    model: EngineModel,
    stage: Stage,
    row: int,
    start: u32,
    frames: u32,
    slots: Seq<Real>,
    buf: u16,
)
    requires
        model.wf(),
        model.program is Some,
        model.program->0.stages.contains(stage),
        model.note_rows <= row < model.note_marks.len(),
        row < usize::MAX,
        buf < MAX_NOTE_BUFS,
        stage.note_bufs & (1u16 << buf) != 0,
        model.events_in(buf as int) <= NOTE_BUF_CAPACITY,
    ensures
        ({
            let after = model.row_ended(stage, row, start, frames, slots).0;
            &&& after.rows_of(buf as int, row, row + 1) == (
                model.events_in(buf as int),
                after.events_in(buf as int),
            )
            &&& model.notes.bufs[buf as int].events.is_prefix_of(
                after.notes.bufs[buf as int].events,
            )
            &&& after.events_in(buf as int) <= NOTE_BUF_CAPACITY
        }),
{
    let program = model.program->0;
    let after = model.row_ended(stage, row, start, frames, slots).0;
    let lanes = model.row_ended(stage, row, start, frames, slots).1;
    let base = Seq::new(
        MAX_NOTE_BUFS as nat,
        |i: int| model.notes.bufs[i].events.len() as usize,
    );
    let ops = stage.notes.of(program.note_ops);
    let given = NoteInput { events: model.translated, start, frames, lanes, base };
    let k = choose|k: int| 0 <= k < program.stages.len() && program.stages[k] == stage;
    assert(program.stages[k] == stage);
    assert forall|i: int| 0 <= i < ops.len() implies note_op_fits(#[trigger] ops[i]) by {
        assert(ops[i] == program.note_ops[stage.notes.start + i]);
    }
    lemma_ran_appends(model.notes, ops, given, buf as int);
    assert(after.note_marks[row] == row_marked(model.note_marks[row], stage.note_bufs, base));
    assert(after.note_marks[row][buf as int] == model.events_in(buf as int));
}

impl Engine {
    /// The stage with that number, if there is a program to run.
    pub fn stage(&self, stage: usize) -> (r: Option<Stage>)
        ensures
            r == self@.stage(stage as int),
    {
        match &self.program {
            Some(prepared) => if !prepared.program.is_empty() && stage
                < prepared.program.stages.len() {
                Some(prepared.program.stages[stage])
            } else {
                None
            },
            None => None,
        }
    }

    /// Runs one parameter operation as far as it goes without arithmetic.
    pub fn param_op(&mut self, at: usize, slots: &[Real]) -> (r: ParamWork)
        requires
            old(self).wf(),
            old(self)@.program is Some,
            at < old(self)@.program->0.ops.len(),
        ensures
            final(self).wf(),
            ({
                let op = old(self)@.program->0.ops[at as int];
                &&& final(self)@ == (EngineModel {
                    params: old(self)@.params.did(op, slots@, old(self)@.notes),
                    ..old(self)@
                })
                &&& r == old(self)@.params.asks(op, old(self)@.notes)
            }),
            work_fits(r),
    {
        let ghost before = self@;
        let op: Op = match &self.program {
            Some(prepared) => {
                assert(crate::param_cx::op_fits(prepared.program@.ops[at as int]));
                prepared.program.ops[at]
            },
            None => {
                return ParamWork::Nothing;
            },
        };
        let work: ParamWork = self.params.step(&op, slots, &self.notes);
        assert(self@.note_marks == before.note_marks);
        work
    }

    /// Finishes a parameter operation with what its work came to.
    pub fn settle(&mut self, work: &ParamWork, answer: &Answer)
        requires
            old(self).wf(),
            work_fits(*work),
        ensures
            final(self).wf(),
            final(self)@ == (EngineModel {
                params: old(self)@.params.answered(*work, *answer),
                ..old(self)@
            }),
    {
        let ghost before = self@;
        self.params.settle(work, answer);
        assert(self@.note_marks == before.note_marks);
    }

    fn buffer_lengths(&self) -> (r: Vec<usize>)
        requires
            self.wf(),
        ensures
            r@ == Seq::new(
                MAX_NOTE_BUFS as nat,
                |i: int| self@.notes.bufs[i].events.len() as usize,
            ),
    {
        let mut base: Vec<usize> = Vec::new();
        while base.len() < MAX_NOTE_BUFS
            invariant
                self.wf(),
                base@.len() <= MAX_NOTE_BUFS,
                forall|i: int|
                    0 <= i < base@.len() ==> #[trigger] base@[i]
                        == self@.notes.bufs[i].events.len() as usize,
            decreases MAX_NOTE_BUFS - base@.len(),
        {
            let at: usize = base.len();
            assert(self@.notes.bufs[at as int] == self.notes.bufs@[at as int]@);
            base.push(self.notes.bufs[at].events.len());
        }
        assert(base@ =~= Seq::new(
            MAX_NOTE_BUFS as nat,
            |i: int| self@.notes.bufs[i].events.len() as usize,
        ));
        base
    }

    fn mark_row(&mut self, row: usize, filled: u16, base: &Vec<usize>)
        requires
            old(self).wf(),
            base@.len() == MAX_NOTE_BUFS,
        ensures
            final(self).wf(),
            final(self).program == old(self).program,
            final(self)@ == (EngineModel {
                note_marks: if row < old(self)@.note_marks.len() {
                    old(self)@.note_marks.update(
                        row as int,
                        row_marked(old(self)@.note_marks[row as int], filled, base@),
                    )
                } else {
                    old(self)@.note_marks
                },
                ..old(self)@
            }),
    {
        if row >= self.note_marks.len() {
            return;
        }
        let ghost before = self@;
        let ghost was = before.note_marks[row as int];
        assert(was == self.note_marks@[row as int]@);
        let mut marks: Vec<u32> = Vec::new();
        while marks.len() < MAX_NOTE_BUFS
            invariant
                marks@.len() <= MAX_NOTE_BUFS,
                base@.len() == MAX_NOTE_BUFS,
                row < self.note_marks@.len(),
                self.note_marks@[row as int]@ == was,
                was.len() == MAX_NOTE_BUFS,
                marks@ == row_marked(was, filled, base@).take(marks@.len() as int),
            decreases MAX_NOTE_BUFS - marks@.len(),
        {
            let at: usize = marks.len();
            let bit: u16 = 1u16 << (at as u16);
            let mark: u32 = if filled & bit != 0 {
                #[verifier::truncate]
                (base[at] as u32)
            } else {
                self.note_marks[row][at]
            };
            marks.push(mark);
            assert(marks@ =~= row_marked(was, filled, base@).take(marks@.len() as int));
        }
        assert(marks@ =~= row_marked(was, filled, base@));
        self.note_marks[row] = marks;
        proof {
            assert(self@.note_marks =~= before.note_marks.update(
                row as int,
                row_marked(was, filled, base@),
            ));
            assert forall|i: int| 0 <= i < self@.note_marks.len() implies (
            #[trigger] self@.note_marks[i]).len() == MAX_NOTE_BUFS by {
                if i != row {
                    assert(self@.note_marks[i] == before.note_marks[i]);
                }
            }
        }
    }

    /// Ends a sub-block of a stage. Its note operations run last, so that a
    /// parameter of this sub-block was read off the stream at the boundary it
    /// starts on.
    pub fn end_row(
        &mut self,
        stage: usize,
        row: usize,
        start: u32,
        frames: u32,
        slots: &mut [Real],
    )
        requires
            old(self).wf(),
            row < usize::MAX,
            start + frames <= u32::MAX,
        ensures
            final(self).wf(),
            match old(self)@.stage(stage as int) {
                Some(stage) => (final(self)@, final(slots)@) == old(self)@.row_ended(
                    stage,
                    row as int,
                    start,
                    frames,
                    old(slots)@,
                ),
                None => final(self)@ == old(self)@ && final(slots)@ == old(slots)@,
            },
            final(slots)@.len() == old(slots)@.len(),
    {
        let ghost before = self@;
        let ghost given = slots@;
        let stage: Stage = match self.stage(stage) {
            Some(stage) => stage,
            None => {
                return;
            },
        };
        let ghost program = before.program->0;
        let base: Vec<usize> = self.buffer_lengths();
        if let Some(prepared) = &self.program {
            assert(program == prepared.program@);
            assert(program.outputs == prepared.program.outputs@);
            self.params.write_lanes(
                &prepared.program.outputs,
                prepared.program.audio_lane_base,
                slots,
            );
        }
        self.mark_row(row, stage.note_bufs, &base);
        let ghost marked = self@;
        if let Some(prepared) = &self.program {
            proof {
                assert(stage.notes.fits(prepared.program.note_ops@.len()));
            }
            self.notes.run_notes_step(
                &prepared.program,
                stage,
                self.translated.as_slice(),
                start,
                frames,
                slots,
                base.as_slice(),
            );
        }
        assert(self@.note_marks == marked.note_marks);
        if self.note_rows < row + 1 {
            self.note_rows = row + 1;
        }
        proof {
            let (want, lanes) = before.row_ended(stage, row as int, start, frames, given);
            assert(self@.note_marks =~= want.note_marks);
            assert(self@ =~= want);
        }
    }

    /// The next chunk of a stage.
    pub fn chunk(&self, stage: &Stage, frames: u32, quantum: u32, start: usize) -> (r: Option<Window>)
        ensures
            r == self@.chunk_at(*stage, frames, quantum, start as int),
            r matches Some(win) ==> win.fits(self@.sound.stride) && self@.sound.stride > 0
                && win.frames > 0,
    {
        let total: usize = frames as usize;
        if self.sound.stride == 0 || total > self.sound.stride || start >= total {
            return None;
        }
        let step: usize = match stage.chunking {
            Chunking::WholeBlock => total,
            Chunking::SubBlock => if quantum > 0 {
                quantum as usize
            } else {
                1
            },
        };
        Some(
            Window {
                block: total,
                start,
                frames: if step < total - start {
                    step
                } else {
                    total - start
                },
            },
        )
    }
}

fn heard(width: u16) -> (r: u16)
    ensures
        r == heard_width(width),
{
    if width < 2 {
        width
    } else {
        2
    }
}

fn copy_widths(list: &Vec<u16>) -> (r: Vec<u16>)
    ensures
        r@ == list@,
{
    let mut copy: Vec<u16> = Vec::new();
    let mut at: usize = 0;
    while at < list.len()
        invariant
            at <= list@.len(),
            copy@ == list@.take(at as int),
        decreases list@.len() - at,
    {
        copy.push(list[at]);
        at += 1;
    }
    assert(copy@ =~= list@);
    copy
}

fn mix_parts(inputs: &Vec<MixInput>, rows: &[Vec<Real>], row: usize) -> (r: Vec<MixPart>)
    ensures
        r@ == parts_of(inputs@, rows@, row as int),
{
    let mut parts: Vec<MixPart> = Vec::new();
    let mut at: usize = 0;
    while at < inputs.len()
        invariant
            at <= inputs@.len(),
            parts@ == parts_of(inputs@, rows@, row as int).take(at as int),
        decreases inputs@.len() - at,
    {
        let gain: Real = match lane_at(rows, row, inputs[at].lane) {
            Some(gain) => gain,
            None => inputs[at].gain,
        };
        parts.push(MixPart { buf: inputs[at].buf, gain });
        assert(parts@ =~= parts_of(inputs@, rows@, row as int).take(at + 1));
        at += 1;
    }
    assert(parts@ =~= parts_of(inputs@, rows@, row as int));
    parts
}

fn plugin_call(
    instance: usize,
    input: Buf,
    input_buses: &Vec<u16>,
    output: Buf,
    output_buses: &Vec<u16>,
    notes: Option<u16>,
) -> (r: PluginCall)
    requires
        total_width(input_buses@) <= MAX_BUFFER_CHANNELS,
        total_width(output_buses@) <= MAX_BUFFER_CHANNELS,
    ensures
        r@ == (CallModel {
            instance,
            input,
            input_buses: input_buses@,
            input_width: total_width(input_buses@) as u16,
            output,
            output_buses: output_buses@,
            output_width: total_width(output_buses@) as u16,
            notes,
        }),
{
    PluginCall {
        instance,
        input,
        input_buses: copy_widths(input_buses),
        input_width: match sum_of(input_buses) {
            Some(width) => width,
            None => 0,
        },
        output,
        output_buses: copy_widths(output_buses),
        output_width: match sum_of(output_buses) {
            Some(width) => width,
            None => 0,
        },
        notes,
    }
}

/// How many rows of lanes so many frames span.
pub open spec fn rows_over(frames: usize, quantum: u32) -> int {
    let step = if quantum > 0 {
        quantum as int
    } else {
        1
    };
    (frames + step - 1) / step
}

fn rows_spanned(frames: usize, quantum: u32) -> (r: usize)
    ensures
        r == rows_over(frames, quantum),
{
    let step: usize = if quantum > 0 {
        quantum as usize
    } else {
        1
    };
    let whole: usize = frames / step;
    let rest: usize = frames % step;
    proof {
        let f = frames as int;
        let q = step as int;
        vstd::arithmetic::div_mod::lemma_fundamental_div_mod(f, q);
        assert((f + q - 1) / q == if rest > 0 {
            whole + 1
        } else {
            whole as int
        }) by (nonlinear_arith)
            requires
                f == q * whole + rest,
                0 <= rest < q,
        ;
        assert(rest > 0 ==> whole < f) by (nonlinear_arith)
            requires
                f == q * whole + rest,
                0 <= rest < q,
                0 <= whole,
        ;
    }
    if rest > 0 {
        whole + 1
    } else {
        whole
    }
}

/// How far back a delay line is read, in samples. `asked` is where the control
/// points, `reach` the longest time it may point at; `shortest` and `longest` are
/// what the chunk and the line allow. What the chunk asks for goes before what the
/// line allows.
pub fn read_distance(asked: Real, reach: Real, shortest: Real, longest: Real) -> (r: Real)
    ensures
        r == asked.within(shortest, reach.smaller(longest).larger(shortest)),
{
    asked.clamp(shortest, reach.min(longest).max(shortest))
}

/// Where a fade starts from: where it got to, or at its target if it has never
/// run.
pub fn fade_from(reached: Real, target: Real) -> (r: Real)
    ensures
        r == if reached.nan() {
            target
        } else {
            reached
        },
{
    if reached.is_nan() {
        target
    } else {
        reached
    }
}

/// How long the whole travel of a fade takes: one time on the way up, another on
/// the way down.
pub fn fade_time(from: Real, target: Real, rise: Real, fall: Real) -> (r: Real)
    ensures
        r == if from.lt(target) {
            rise
        } else {
            fall
        },
{
    if from.is_less(target) {
        rise
    } else {
        fall
    }
}

/// A piece of a chunk that one row of lanes applies to: how long it is, and which
/// row. It ends with the chunk, or where the next sub-block starts.
pub fn fade_piece(start: usize, done: usize, frames: usize, quantum: u32) -> (r: (usize, usize))
    requires
        done < frames,
        start + frames <= usize::MAX,
    ensures
        ({
            let step = if quantum > 0 {
                quantum as int
            } else {
                1
            };
            let at = start + done;
            let left = step - at % step;
            &&& r.0 == if left < frames - done {
                left
            } else {
                frames - done
            }
            &&& r.1 == at / step
        }),
        0 < r.0 <= frames - done,
{
    let step: usize = if quantum > 0 {
        quantum as usize
    } else {
        1
    };
    let at: usize = start + done;
    let left: usize = step - at % step;
    (
        if left < frames - done {
            left
        } else {
            frames - done
        },
        at / step,
    )
}

impl Engine {
    /// Runs one audio operation as far as it goes without arithmetic.
    pub fn audio_op(
        &mut self,
        at: usize,
        place: &ChunkPlace,
        rows: &[Vec<Real>],
        daw_in: &[Sample],
        daw_out: &mut [Sample],
    ) -> (r: AudioWork)
        requires
            old(self).wf(),
            old(self)@.program is Some,
            at < old(self)@.program->0.audio_ops.len(),
            place.win.fits(old(self)@.sound.stride),
            old(self)@.sound.stride > 0,
        ensures
            final(self).wf(),
            ({
                let program = old(self)@.program->0;
                let step = program.audio_ops[at as int];
                &&& final(self)@ == (EngineModel {
                    sound: sound_did(
                        old(self)@.sound,
                        step,
                        program.buffers,
                        place.win,
                        daw_in@,
                    ),
                    ..old(self)@
                })
                &&& final(daw_out)@ == daw_heard(
                    old(self)@.sound,
                    step,
                    program.buffers,
                    place.win,
                    old(daw_out)@,
                )
                &&& r@ == sound_asks(
                    old(self)@.sound,
                    old(self)@.params,
                    step,
                    program.buffers,
                    *place,
                    rows@,
                )
            }),
            task_fits(r@),
            final(self)@.sound.stride == old(self)@.sound.stride,
            final(daw_out)@.len() == old(daw_out)@.len(),
    {
        let ghost before = self@;
        let ghost program = before.program->0;
        let ghost step = program.audio_ops[at as int];
        let prepared: &crate::engine::PreparedProgram = match &self.program {
            Some(prepared) => prepared,
            None => {
                return AudioWork::Nothing;
            },
        };
        let widths: &Vec<u16> = &prepared.program.buffers;
        assert(step == prepared.program.audio_ops@[at as int]@);
        assert(step_fits(step, program.buffers.len()));
        assert(widths@ == program.buffers);
        assert forall|i: int| 0 <= i < widths@.len() implies #[trigger] widths@[i]
            <= MAX_BUFFER_CHANNELS by {
            assert(program.buffers[i] <= MAX_BUFFER_CHANNELS);
        }
        let work: AudioWork = match &prepared.program.audio_ops[at] {
            AudioOp::Silence { out } => {
                self.sound.fill(*out, &place.win);
                AudioWork::Nothing
            },
            AudioOp::Input { out, bus } => {
                let width: u16 = widths[*out as usize];
                self.sound.take_input(*out, *bus, width, daw_in, &place.win);
                AudioWork::Nothing
            },
            AudioOp::Output { a, bus } => {
                if *bus == 0 {
                    let width: u16 = widths[*a as usize];
                    self.sound.give_output(*a, width, daw_out, &place.win);
                }
                AudioWork::Nothing
            },
            AudioOp::Gather { out, buses, folding } => {
                let list: Vec<Fold> = self.sound.gather(*out, buses, widths, &place.win);
                if list.len() == 0 {
                    AudioWork::Nothing
                } else {
                    AudioWork::Fold { list, folding: *folding }
                }
            },
            AudioOp::Split { from, out, channel, width } => {
                self.sound.split(*from, *out, *channel, *width, &place.win);
                AudioWork::Nothing
            },
            AudioOp::Plugin { instance, input, input_buses, output, output_buses, notes } => {
                AudioWork::Plugin {
                    call: plugin_call(
                        *instance,
                        *input,
                        input_buses,
                        *output,
                        output_buses,
                        *notes,
                    ),
                }
            },
            AudioOp::Mix { out, inputs } => {
                if inputs.len() == 0 {
                    self.sound.fill(*out, &place.win);
                    AudioWork::Nothing
                } else {
                    AudioWork::Mix {
                        out: *out,
                        width: heard(widths[*out as usize]),
                        parts: mix_parts(inputs, rows, place.row),
                    }
                }
            },
            AudioOp::Fade { out, a, state, lane, gain, rise, fall } => {
                let from: Real = if (*state as usize) < MAX_LATCHES {
                    self.params.latches[*state as usize].value
                } else {
                    Real::not_set()
                };
                AudioWork::Fade {
                    out: *out,
                    a: *a,
                    width: heard(widths[*out as usize]),
                    state: *state,
                    lane: *lane,
                    from,
                    gain: *gain,
                    rise: *rise,
                    fall: *fall,
                }
            },
            AudioOp::Compensate { buf, slot, samples } => {
                let width: u16 = widths[*buf as usize];
                self.sound.compensate(*buf, *slot, *samples, width, &place.win);
                AudioWork::Nothing
            },
            AudioOp::DelayRead { out, line, lane, time, max_time } => {
                let len: usize = self.sound.line_len(*line);
                let pool: usize = self.sound.pool.len();
                assert(place.win.frames + READ_AHEAD <= pool <= usize::MAX) by (nonlinear_arith)
                    requires
                        pool == MAX_BUFFERS * MAX_BUFFER_CHANNELS * self.sound.stride,
                        place.win.frames <= self.sound.stride,
                        0 < self.sound.stride,
                        MAX_BUFFERS * MAX_BUFFER_CHANNELS >= 3,
                ;
                if len > 0 {
                    let seconds: Real = match lane_at(rows, place.row, *lane) {
                        Some(seconds) => seconds,
                        None => *time,
                    };
                    AudioWork::Read {
                        out: *out,
                        line: *line,
                        width: heard(widths[*out as usize]),
                        tap: place.tap,
                        seconds: seconds.max(Real::zero()),
                        max_time: *max_time,
                        shortest: place.win.frames + READ_AHEAD,
                        longest: if len > RING_SPARE {
                            len - RING_SPARE
                        } else {
                            0
                        },
                    }
                } else {
                    self.sound.fill(*out, &place.win);
                    AudioWork::Nothing
                }
            },
            AudioOp::DelayWrite { line, a } => {
                let width: u16 = widths[*a as usize];
                self.sound.delay_write(*line, *a, width, &place.win);
                AudioWork::Nothing
            },
            AudioOp::DelaySilence { line } => {
                self.sound.delay_silence(*line, place.win.frames);
                AudioWork::Nothing
            },
        };
        proof {
            assert(self@.note_marks == before.note_marks);
            if let AudioStep::Gather { out, buses, .. } = step {
                lemma_folds_fit(out, buses, program.buffers, buses.len());
            }
        }
        work
    }

    /// What a plugin hears of a chunk: the events of the rows that the chunk covers,
    /// on the buffer its notes come from. A plugin that no notes are wired to hears
    /// none.
    pub fn events_for(&self, notes: Option<u16>, place: &ChunkPlace, quantum: u32) -> (r: Vec<Event>)
        requires
            self.wf(),
        ensures
            r@ == self@.chunk_events(notes, *place, quantum),
    {
        let mut heard: Vec<Event> = Vec::new();
        let buf: u16 = match notes {
            Some(buf) => buf,
            None => {
                return heard;
            },
        };
        if buf as usize >= self.notes.bufs.len() {
            return heard;
        }
        let rows: usize = rows_spanned(place.win.frames, quantum);
        let (from, to): (usize, usize) = self.note_slice(buf, place.row, place.row.saturating_add(rows));
        let ghost all = self@.notes.bufs[buf as int].events;
        assert(all == self.notes.bufs@[buf as int]@.events);
        let mut at: usize = from;
        while at < to
            invariant
                from <= at <= to <= all.len(),
                buf < self.notes.bufs@.len(),
                all == self.notes.bufs@[buf as int].events@,
                heard@ == all.subrange(from as int, at as int),
            decreases to - at,
        {
            heard.push(self.notes.bufs[buf as usize].events[at]);
            assert(heard@ =~= all.subrange(from as int, at + 1));
            at += 1;
        }
        heard
    }

    /// How many channels of a buffer a level is read off.
    pub fn level_channels(&self, buf: Buf) -> (r: u16)
        ensures
            r == match self@.program {
                Some(program) if buf < program.buffers.len() => heard_width(
                    program.buffers[buf as int],
                ),
                _ => 0,
            },
    {
        match &self.program {
            Some(prepared) => if (buf as usize) < prepared.program.buffers.len() {
                heard(prepared.program.buffers[buf as usize])
            } else {
                0
            },
            None => 0,
        }
    }

    /// Notes that a plugin was handed an event. `reports` says whether it will
    /// say when it is done with a note.
    ///
    /// Counted where a note is handed over, and not where a wire branches: a
    /// branch that a gate shuts off would never be counted back down.
    pub fn note_handed(&mut self, event: &Event, instance: usize, reports: bool)
        requires
            old(self).wf(),
        ensures
            final(self).wf(),
            final(self)@ == (EngineModel {
                ledger: ledger_told(old(self)@.ledger, *event, instance, reports),
                ..old(self)@
            }),
    {
        let ghost before = self@;
        match *event {
            Event::Note(NoteEvent::NoteOn { note_id: Some(id), port, .. }) => {
                if reports {
                    self.ledger.delivered(id);
                } else {
                    self.ledger.delivered_with_fallback(id, instance, port);
                }
            },
            Event::Note(NoteEvent::NoteOff { note_id: Some(id), port, .. }) => {
                if !reports {
                    self.ledger.released_to(id, instance, port);
                }
            },
            _ => {},
        }
        assert(self@.note_marks == before.note_marks);
    }
}

/// The folds that gathering leaves name buffers and channels there are.
pub proof fn lemma_folds_fit(
    out: Buf,
    buses: Seq<(Buf, u16)>,
    widths: Seq<u16>,
    count: nat,
)
    requires
        count <= buses.len(),
        widths.len() <= MAX_BUFFERS,
        forall|i: int| 0 <= i < widths.len() ==> #[trigger] widths[i] <= MAX_BUFFER_CHANNELS,
        gather_fits(out, buses, widths.len()),
    ensures
        folds_fit(folds_of(out, buses, widths, count)),
    decreases count,
{
    if count > 0 {
        lemma_folds_fit(out, buses, widths, (count - 1) as nat);
        let asked = widths_of(buses);
        lemma_total_width(asked, count - 1, asked.len() as int);
        assert(asked.take(asked.len() as int) =~= asked);
        assert(buses[count - 1].0 < widths.len());
    }
}

/// What handing an event to a plugin does to the ledger.
pub open spec fn ledger_told(
    ledger: LedgerModel,
    event: Event,
    instance: usize,
    reports: bool,
) -> LedgerModel {
    match event {
        Event::Note(NoteEvent::NoteOn { note_id: Some(id), port, .. }) => if reports {
            ledger.handed(id)
        } else {
            ledger.handed_over(id, Destination { instance, port })
        },
        Event::Note(NoteEvent::NoteOff { note_id: Some(id), port, .. }) => if reports {
            ledger
        } else {
            ledger.let_go(id, Destination { instance, port })
        },
        _ => ledger,
    }
}

/// What some audio work came to: the samples of each channel asked for, and
/// where a fade or a read has got to.
#[derive(Debug)]
pub struct AudioAnswer {
    pub channels: Vec<Vec<Sample>>,
    pub value: Real,
}

pub open spec fn folds_fit(list: Seq<Fold>) -> bool {
    forall|i: int|
        0 <= i < list.len() ==> (#[trigger] list[i]).out < MAX_BUFFERS && list[i].channel
            < MAX_BUFFER_CHANNELS && list[i].from < MAX_BUFFERS && list[i].width
            <= MAX_BUFFER_CHANNELS
}

/// Work names buffers and channels that there are.
pub open spec fn task_fits(task: AudioTask) -> bool {
    match task {
        AudioTask::Nothing => true,
        AudioTask::Fold { list, .. } => folds_fit(list),
        AudioTask::Plugin { call } => {
            &&& call.input < MAX_BUFFERS
            &&& call.output < MAX_BUFFERS
            &&& call.input_width <= MAX_BUFFER_CHANNELS
            &&& call.output_width <= MAX_BUFFER_CHANNELS
        },
        AudioTask::Mix { out, width, parts } => {
            &&& out < MAX_BUFFERS
            &&& width <= MAX_CHANNELS
            &&& forall|i: int| 0 <= i < parts.len() ==> (#[trigger] parts[i]).buf < MAX_BUFFERS
        },
        AudioTask::Fade { out, a, width, .. } => out < MAX_BUFFERS && a < MAX_BUFFERS && width
            <= MAX_CHANNELS,
        AudioTask::Read { out, line, width, .. } => out < MAX_BUFFERS && line
            < MAX_AUDIO_DELAY_LINES && width <= MAX_CHANNELS,
    }
}

/// So many samples: those given, then silence.
pub open spec fn fitted(samples: Seq<Sample>, count: nat) -> Seq<Sample> {
    run_of(samples, 0, count)
}

/// A channel of an answer, or nothing if it has fewer.
pub open spec fn answer_channel(channels: Seq<Vec<Sample>>, channel: int) -> Seq<Sample> {
    if channel < channels.len() {
        channels[channel]@
    } else {
        Seq::empty()
    }
}

impl SoundModel {
    /// The first `count` channels of a buffer set to those of an answer.
    pub open spec fn channels_set(
        self,
        out: Buf,
        channels: Seq<Vec<Sample>>,
        win: Window,
        count: nat,
    ) -> SoundModel
        decreases count,
    {
        if count == 0 {
            self
        } else {
            self.channels_set(out, channels, win, (count - 1) as nat).with_channel(
                out,
                count - 1,
                win,
                fitted(answer_channel(channels, count - 1), win.frames as nat),
            )
        }
    }

    /// The first `count` folds put where they go.
    pub open spec fn folds_set(
        self,
        list: Seq<Fold>,
        channels: Seq<Vec<Sample>>,
        win: Window,
        count: nat,
    ) -> SoundModel
        decreases count,
    {
        if count == 0 {
            self
        } else {
            self.folds_set(list, channels, win, (count - 1) as nat).with_channel(
                list[count - 1].out,
                list[count - 1].channel as int,
                win,
                fitted(answer_channel(channels, count - 1), win.frames as nat),
            )
        }
    }
}

impl EngineModel {
    /// What an answer to some audio work does.
    pub open spec fn sound_answered(
        self,
        task: AudioTask,
        win: Window,
        answer: AudioAnswer,
    ) -> EngineModel {
        let channels = answer.channels@;
        match task {
            AudioTask::Nothing => self,
            AudioTask::Fold { list, .. } => EngineModel {
                sound: self.sound.folds_set(list, channels, win, list.len()),
                ..self
            },
            AudioTask::Plugin { call } => EngineModel {
                sound: self.sound.unpacked(
                    call.output,
                    fitted(
                        answer_channel(channels, 0),
                        (call.output_width * win.frames) as nat,
                    ),
                    win,
                    call.output_width as nat,
                ),
                ..self
            },
            AudioTask::Mix { out, width, .. } => EngineModel {
                sound: self.sound.channels_set(out, channels, win, width as nat),
                ..self
            },
            AudioTask::Fade { out, width, state, .. } => EngineModel {
                sound: self.sound.channels_set(out, channels, win, width as nat),
                params: if state < MAX_LATCHES {
                    self.params.latched(state, answer.value)
                } else {
                    self.params
                },
                ..self
            },
            AudioTask::Read { out, width, tap, .. } => {
                let sound = self.sound.channels_set(out, channels, win, width as nat);
                EngineModel {
                    sound: SoundModel {
                        tap_distance: if tap < MAX_AUDIO_TAPS {
                            sound.tap_distance.update(tap as int, answer.value)
                        } else {
                            sound.tap_distance
                        },
                        ..sound
                    },
                    ..self
                }
            },
        }
    }
}

fn fit(samples: &Vec<Sample>, count: usize) -> (r: Vec<Sample>)
    ensures
        r@ == fitted(samples@, count as nat),
{
    let mut list: Vec<Sample> = Vec::new();
    while list.len() < count
        invariant
            list@.len() <= count,
            list@ == fitted(samples@, list@.len()),
        decreases count - list@.len(),
    {
        let at: usize = list.len();
        let sample: Sample = if at < samples.len() {
            samples[at]
        } else {
            Sample::silence()
        };
        list.push(sample);
        assert(list@ =~= fitted(samples@, list@.len()));
    }
    list
}

fn fit_channel(channels: &Vec<Vec<Sample>>, channel: usize, count: usize) -> (r: Vec<Sample>)
    ensures
        r@ == fitted(answer_channel(channels@, channel as int), count as nat),
{
    if channel < channels.len() {
        fit(&channels[channel], count)
    } else {
        let none: Vec<Sample> = Vec::new();
        assert(none@ =~= answer_channel(channels@, channel as int));
        fit(&none, count)
    }
}

fn set_channels(
    sound: &mut SoundState,
    out: Buf,
    channels: &Vec<Vec<Sample>>,
    win: &Window,
    count: u16,
)
    requires
        old(sound)@.wf(),
        out < MAX_BUFFERS,
        count <= MAX_BUFFER_CHANNELS,
        win.fits(old(sound)@.stride),
    ensures
        final(sound)@ == old(sound)@.channels_set(out, channels@, *win, count as nat),
        final(sound)@.wf(),
{
    let ghost before = sound@;
    let mut channel: u16 = 0;
    while channel < count
        invariant
            channel <= count <= MAX_BUFFER_CHANNELS,
            sound@.wf(),
            out < MAX_BUFFERS,
            before == old(sound)@,
            sound@.stride == before.stride,
            win.fits(before.stride),
            sound@ == before.channels_set(out, channels@, *win, channel as nat),
        decreases count - channel,
    {
        let samples: Vec<Sample> = fit_channel(channels, channel as usize, win.frames);
        sound.set_channel(out, channel as usize, win, samples.as_slice());
        channel += 1;
    }
}

fn set_folds(
    sound: &mut SoundState,
    list: &Vec<Fold>,
    channels: &Vec<Vec<Sample>>,
    win: &Window,
)
    requires
        old(sound)@.wf(),
        folds_fit(list@),
        win.fits(old(sound)@.stride),
    ensures
        final(sound)@ == old(sound)@.folds_set(list@, channels@, *win, list@.len()),
        final(sound)@.wf(),
{
    let ghost before = sound@;
    let mut at: usize = 0;
    while at < list.len()
        invariant
            at <= list@.len(),
            sound@.wf(),
            folds_fit(list@),
            before == old(sound)@,
            sound@.stride == before.stride,
            win.fits(before.stride),
            sound@ == before.folds_set(list@, channels@, *win, at as nat),
        decreases list@.len() - at,
    {
        let samples: Vec<Sample> = fit_channel(channels, at, win.frames);
        assert(list@[at as int].out < MAX_BUFFERS);
        sound.set_channel(list[at].out, list[at].channel as usize, win, samples.as_slice());
        at += 1;
    }
}

impl Engine {
    /// Finishes an audio operation with what its work came to.
    pub fn settle_audio(&mut self, work: &AudioWork, win: &Window, answer: &AudioAnswer)
        requires
            old(self).wf(),
            task_fits(work@),
            win.fits(old(self)@.sound.stride),
        ensures
            final(self).wf(),
            final(self)@ == old(self)@.sound_answered(work@, *win, *answer),
    {
        let ghost before = self@;
        match work {
            AudioWork::Nothing => {},
            AudioWork::Fold { list, .. } => {
                set_folds(&mut self.sound, list, &answer.channels, win);
            },
            AudioWork::Plugin { call } => {
                proof {
                    let frames = win.frames as int;
                    let width = call.output_width as int;
                    let stride = before.sound.stride as int;
                    assert(0 <= width * frames <= MAX_BUFFER_CHANNELS * stride)
                        by (nonlinear_arith)
                        requires
                            0 <= width <= MAX_BUFFER_CHANNELS,
                            0 <= frames <= stride,
                    ;
                    assert(MAX_BUFFERS * MAX_BUFFER_CHANNELS * stride == MAX_BUFFERS * (
                    MAX_BUFFER_CHANNELS * stride)) by (nonlinear_arith);
                }
                let size: usize = self.sound.pool.len();
                let samples: Vec<Sample> = fit_channel(
                    &answer.channels,
                    0,
                    call.output_width as usize * win.frames,
                );
                self.sound.unpack(call.output, call.output_width, win, samples.as_slice());
            },
            AudioWork::Mix { out, width, .. } => {
                set_channels(&mut self.sound, *out, &answer.channels, win, *width);
            },
            AudioWork::Fade { out, width, state, .. } => {
                set_channels(&mut self.sound, *out, &answer.channels, win, *width);
                if (*state as usize) < MAX_LATCHES {
                    self.params.latch(*state, answer.value);
                }
            },
            AudioWork::Read { out, width, tap, .. } => {
                set_channels(&mut self.sound, *out, &answer.channels, win, *width);
                self.sound.sweep_end(*tap, answer.value);
            },
        }
        assert(self@.note_marks == before.note_marks);
    }
}

} // verus!
