//! One whole block: which operation comes next, and what it needs.
use vstd::prelude::*;
use crate::engine::{Engine, EngineModel};
use crate::event::Event;
use crate::ir::Stage;
use crate::number::{Real, Sample};
use crate::params::{work_fits, ParamWork};
use crate::run::{
    daw_heard, sound_asks, sound_did, task_fits, AudioTask, AudioWork, ChunkPlace,
};
use crate::schedule::{row_laid, rows_in, rows_view, SlotSchedule};
use crate::sound::{silence, Window};

verus! {

/// Where in a stage a block stands.
#[derive(Debug, Clone, Copy, PartialEq, Eq, Structural)]
pub enum Phase {
    /// At a parameter operation of a sub-block.
    Params { row: usize, at: usize },
    /// At an audio operation of a chunk, after so many reads of delay lines.
    Audio { start: usize, row: usize, at: usize, tap: usize },
    Over,
}

/// What is being run, and where it stands: the stages and the sub-blocks still
/// to come, and which of the two halves.
#[derive(Debug, Clone, Copy, PartialEq, Eq, Structural)]
pub struct BlockRun {
    pub stage: usize,
    pub until_stage: usize,
    pub first_row: usize,
    pub until_row: usize,
    pub params: bool,
    pub audio: bool,
    pub phase: Phase,
}

/// What a step leaves to be worked out before the next.
#[derive(Debug)]
pub enum Work {
    Param { work: ParamWork, row: usize },
    Audio { work: AudioWork, place: ChunkPlace },
    /// The next stage is up.
    Stage,
    Over,
}

impl BlockRun {
    /// The stage that is running.
    pub open spec fn cut(self, model: EngineModel) -> Option<Stage> {
        if self.stage < self.until_stage {
            model.stage(self.stage as int)
        } else {
            None
        }
    }

    /// The same run at the start of a stage.
    pub open spec fn entering(self, model: EngineModel, stage: int) -> BlockRun {
        let there = BlockRun { stage: stage as usize, ..self };
        BlockRun {
            phase: match there.cut(model) {
                None => Phase::Over,
                Some(cut) => if self.params && self.first_row < self.until_row {
                    Phase::Params { row: self.first_row, at: cut.params.start as usize }
                } else if self.audio {
                    Phase::Audio { start: 0, row: 0, at: cut.audio.start as usize, tap: 0 }
                } else {
                    Phase::Over
                },
            },
            ..there
        }
    }

    /// Where the run stands after its next step.
    pub open spec fn stepped(self, model: EngineModel, frames: u32, quantum: u32) -> BlockRun {
        match (self.cut(model), self.phase) {
            (Some(cut), Phase::Params { row, at }) => if at < cut.params.end {
                BlockRun { phase: Phase::Params { row, at: (at + 1) as usize }, ..self }
            } else if row + 1 < self.until_row {
                BlockRun {
                    phase: Phase::Params {
                        row: (row + 1) as usize,
                        at: cut.params.start as usize,
                    },
                    ..self
                }
            } else if self.audio {
                BlockRun {
                    phase: Phase::Audio {
                        start: 0,
                        row: 0,
                        at: cut.audio.start as usize,
                        tap: 0,
                    },
                    ..self
                }
            } else {
                self.entering(model, self.stage + 1)
            },
            (Some(cut), Phase::Audio { start, row, at, tap }) => match model.chunk_at(
                cut,
                frames,
                quantum,
                start as int,
            ) {
                None => self.entering(model, self.stage + 1),
                Some(win) => BlockRun {
                    phase: if at < cut.audio.end {
                        Phase::Audio {
                            start,
                            row,
                            at: (at + 1) as usize,
                            tap: if model.program->0.audio_ops[at as int] is DelayRead {
                                (tap + 1) as usize
                            } else {
                                tap
                            },
                        }
                    } else {
                        Phase::Audio {
                            start: (start + win.frames) as usize,
                            row: (row + 1) as usize,
                            at: cut.audio.start as usize,
                            tap: 0,
                        }
                    },
                    ..self
                },
            },
            _ => BlockRun { phase: Phase::Over, ..self },
        }
    }

    /// The place is one of the program's, and the sub-blocks are there.
    pub open spec fn fits(self, model: EngineModel, blocks: int, frames: u32) -> bool {
        &&& self.until_row <= blocks
        &&& match (self.cut(model), self.phase) {
            (Some(cut), Phase::Params { row, at }) => row < self.until_row && cut.params.start
                <= at <= cut.params.end,
            (Some(cut), Phase::Audio { start, row, at, tap }) => row <= start <= frames
                && cut.audio.start <= at <= cut.audio.end && tap <= at - cut.audio.start,
            _ => true,
        }
    }

    /// How far the run is from its end: stages, then sub-blocks or frames, then
    /// operations.
    pub open spec fn left(self, model: EngineModel, frames: u32) -> (int, int, int, int) {
        match (self.cut(model), self.phase) {
            (Some(cut), Phase::Params { row, at }) => (
                self.until_stage - self.stage,
                1,
                self.until_row - row,
                cut.params.end - at,
            ),
            (Some(cut), Phase::Audio { start, row, at, tap }) => (
                self.until_stage - self.stage,
                0,
                frames - start,
                cut.audio.end - at,
            ),
            _ => (0, 0, 0, 0),
        }
    }
}

/// The first of two distances is the shorter.
pub open spec fn nearer(a: (int, int, int, int), b: (int, int, int, int)) -> bool {
    a.0 < b.0 || a.0 == b.0 && (a.1 < b.1 || a.1 == b.1 && (a.2 < b.2 || a.2 == b.2 && a.3 < b.3))
}

/// Every step brings a run nearer to its end, so it comes to one: an operation
/// runs once in every sub-block or chunk of its stage, and no stage starts before
/// the one ahead of it is through.
pub proof fn law_a_run_comes_to_an_end(
    model: EngineModel,
    run: BlockRun,
    blocks: int,
    frames: u32,
    quantum: u32,
)
    requires
        model.wf(),
        run.fits(model, blocks, frames),
        run.phase !is Over,
        run.cut(model) is Some,
    ensures
        nearer(run.stepped(model, frames, quantum).left(model, frames), run.left(model, frames)),
        run.stepped(model, frames, quantum).stage >= run.stage,
{
    let program = model.program->0;
    let cut = program.stages[run.stage as int];
    assert(cut.params.fits(program.ops.len()));
    assert(cut.audio.fits(program.audio_ops.len()));
    assert(run.stage + 1 <= usize::MAX);
}

/// The engine and the lanes after the next step, but for what is left to work
/// out.
pub open spec fn stepped(
    model: EngineModel,
    run: BlockRun,
    rows: Seq<Seq<Real>>,
    frames: u32,
    quantum: u32,
    daw_in: Seq<Sample>,
) -> (EngineModel, Seq<Seq<Real>>) {
    match (run.cut(model), run.phase) {
        (Some(cut), Phase::Params { row, at }) => if at < cut.params.end {
            let op = model.program->0.ops[at as int];
            (
                EngineModel {
                    params: model.params.did(op, rows[row as int], model.notes),
                    ..model
                },
                rows,
            )
        } else {
            let start = row * quantum;
            let length = if frames - start < quantum {
                frames - start
            } else {
                quantum as int
            };
            let (after, lanes) = model.row_ended(
                cut,
                row as int,
                start as u32,
                length as u32,
                rows[row as int],
            );
            (after, rows.update(row as int, lanes))
        },
        (Some(cut), Phase::Audio { start, row, at, tap }) => match model.chunk_at(
            cut,
            frames,
            quantum,
            start as int,
        ) {
            Some(win) if at < cut.audio.end => (
                EngineModel {
                    sound: sound_did(
                        model.sound,
                        model.program->0.audio_ops[at as int],
                        model.program->0.buffers,
                        win,
                        daw_in,
                    ),
                    ..model
                },
                rows,
            ),
            _ => (model, rows),
        },
        _ => (model, rows),
    }
}

/// The engine and the lanes after the next step of a sub-block that runs by itself, from
/// `start` on and `frames` long, but for what is left to work out.
pub open spec fn row_stepped(
    model: EngineModel,
    run: BlockRun,
    start: u32,
    frames: u32,
    lanes: Seq<Real>,
) -> (EngineModel, Seq<Real>) {
    match (run.cut(model), run.phase) {
        (Some(cut), Phase::Params { row, at }) => if at < cut.params.end {
            let op = model.program->0.ops[at as int];
            (EngineModel { params: model.params.did(op, lanes, model.notes), ..model }, lanes)
        } else {
            model.row_ended(cut, row as int, start, frames, lanes)
        },
        _ => (model, lanes),
    }
}

/// A sub-block by itself does what it does as a row of a schedule.
pub proof fn law_a_sub_block_runs_by_itself(
    model: EngineModel,
    run: BlockRun,
    schedule: SlotSchedule,
    daw_in: Seq<Sample>,
)
    requires
        schedule.wf(),
        run.fits(model, schedule.rows@.len() as int, schedule.frames),
        run.phase is Params,
        run.cut(model) is Some,
    ensures
        ({
            let row = run.phase->Params_row as int;
            let rows = rows_view(schedule.rows@);
            let (after, lanes) = row_stepped(
                model,
                run,
                (row * schedule.quantum) as u32,
                (if schedule.frames - row * schedule.quantum < schedule.quantum {
                    schedule.frames - row * schedule.quantum
                } else {
                    schedule.quantum as int
                }) as u32,
                rows[row],
            );
            stepped(model, run, rows, schedule.frames, schedule.quantum, daw_in) == (
                after,
                rows.update(row, lanes),
            )
        }),
{
    let row = run.phase->Params_row as int;
    let rows = rows_view(schedule.rows@);
    assert(rows.update(row, rows[row]) =~= rows);
}

/// What the DAW has heard after the next step.
pub open spec fn heard_after(
    model: EngineModel,
    run: BlockRun,
    frames: u32,
    quantum: u32,
    daw_out: Seq<Sample>,
) -> Seq<Sample> {
    match (run.cut(model), run.phase) {
        (Some(cut), Phase::Audio { start, row, at, tap }) => match model.chunk_at(
            cut,
            frames,
            quantum,
            start as int,
        ) {
            Some(win) if at < cut.audio.end => daw_heard(
                model.sound,
                model.program->0.audio_ops[at as int],
                model.program->0.buffers,
                win,
                daw_out,
            ),
            _ => daw_out,
        },
        _ => daw_out,
    }
}

/// What a step does hangs on where it stands and not on what runs around it: the
/// two halves of a block, a stage by itself and the whole block take the same
/// steps.
pub proof fn law_every_run_takes_the_same_steps(
    model: EngineModel,
    one: BlockRun,
    other: BlockRun,
    rows: Seq<Seq<Real>>,
    frames: u32,
    quantum: u32,
    daw_in: Seq<Sample>,
    daw_out: Seq<Sample>,
)
    requires
        one.stage == other.stage,
        one.phase == other.phase,
        one.stage < one.until_stage,
        other.stage < other.until_stage,
    ensures
        stepped(model, one, rows, frames, quantum, daw_in) == stepped(
            model,
            other,
            rows,
            frames,
            quantum,
            daw_in,
        ),
        heard_after(model, one, frames, quantum, daw_out) == heard_after(
            model,
            other,
            frames,
            quantum,
            daw_out,
        ),
{
}

/// Within a stage the whole block runs its sub-blocks in turn and then its audio:
/// where a sub-block ends it stands where the next one by itself would start, and
/// after the last where the audio by itself would start. Only where there are
/// more stages than one do the halves by themselves run in another order.
pub proof fn law_a_stage_runs_its_halves_in_turn(
    model: EngineModel,
    whole: BlockRun,
    row: usize,
    frames: u32,
    quantum: u32,
)
    requires
        whole.params,
        whole.audio,
        whole.cut(model) is Some,
        row < whole.until_row,
        whole.phase == (Phase::Params { row, at: (whole.cut(model)->0).params.end as usize }),
    ensures
        ({
            let next = whole.stepped(model, frames, quantum);
            let one_row = BlockRun {
                first_row: (row + 1) as usize,
                until_row: (row + 2) as usize,
                audio: false,
                ..whole
            };
            let audio = BlockRun { first_row: 0, until_row: 0, params: false, ..whole };
            &&& next.stage == whole.stage
            &&& row + 1 < whole.until_row && row + 2 <= usize::MAX ==> next.phase
                == one_row.entering(model, whole.stage as int).phase
            &&& row + 1 == whole.until_row ==> next.phase == audio.entering(
                model,
                whole.stage as int,
            ).phase
        }),
{
}

/// One past a number, as far as numbers go.
pub open spec fn one_past(n: usize) -> usize {
    if n < usize::MAX {
        (n + 1) as usize
    } else {
        usize::MAX
    }
}

/// Whether some work is what the next step leaves.
pub open spec fn leaves(
    model: EngineModel,
    run: BlockRun,
    rows: Seq<Vec<Real>>,
    frames: u32,
    quantum: u32,
    work: Work,
) -> bool {
    match (run.cut(model), run.phase) {
        (Some(cut), Phase::Params { row, at }) => {
            &&& work is Param
            &&& work->row == row
            &&& work->Param_work == if at < cut.params.end {
                model.params.asks(model.program->0.ops[at as int], model.notes)
            } else {
                ParamWork::Nothing
            }
        },
        (Some(cut), Phase::Audio { start, row, at, tap }) => match model.chunk_at(
            cut,
            frames,
            quantum,
            start as int,
        ) {
            Some(win) => {
                let place = ChunkPlace { win, row, tap };
                &&& work is Audio
                &&& work->place == place
                &&& work->Audio_work@ == if at < cut.audio.end {
                    sound_asks(
                        model.sound,
                        model.params,
                        model.program->0.audio_ops[at as int],
                        model.program->0.buffers,
                        place,
                        rows,
                    )
                } else {
                    AudioTask::Nothing
                }
            },
            None => work is Stage,
        },
        _ => work is Over,
    }
}

fn quiet(samples: &mut [Sample])
    ensures
        final(samples)@ == silence(old(samples)@.len()),
{
    let mut at: usize = 0;
    let size: usize = samples.len();
    while at < size
        invariant
            at <= size == samples@.len(),
            forall|i: int| 0 <= i < at ==> #[trigger] samples@[i] == Sample::silent(),
        decreases size - at,
    {
        samples[at] = Sample::silence();
        at += 1;
    }
    assert(samples@ =~= silence(size as nat));
}

impl Engine {
    /// Silences what the DAW is handed. The block is the program's to fill: a
    /// channel that no output reaches is silent.
    pub fn clear_output(&self, daw_out: &mut [Sample])
        ensures
            final(daw_out)@ == silence(old(daw_out)@.len()),
    {
        quiet(daw_out);
    }

    fn enter(&self, run: &BlockRun, stage: usize) -> (r: BlockRun)
        requires
            self.wf(),
        ensures
            r == run.entering(self@, stage as int),
            forall|blocks: int, frames: u32|
                run.until_row <= blocks ==> #[trigger] r.fits(self@, blocks, frames),
    {
        let there: BlockRun = BlockRun { stage, ..*run };
        let found: Option<Stage> = if stage < run.until_stage {
            self.stage(stage)
        } else {
            None
        };
        proof {
            lemma_cut_fits(self@, there);
        }
        BlockRun {
            phase: match found {
                None => Phase::Over,
                Some(cut) => if run.params && run.first_row < run.until_row {
                    Phase::Params { row: run.first_row, at: cut.params.start as usize }
                } else if run.audio {
                    Phase::Audio { start: 0, row: 0, at: cut.audio.start as usize, tap: 0 }
                } else {
                    Phase::Over
                },
            },
            ..there
        }
    }

    fn all(&self, params: bool, audio: bool, first_row: usize, until_row: usize) -> (r: BlockRun)
        requires
            self.wf(),
        ensures
            r == (BlockRun {
                stage: 0,
                until_stage: self@.stage_count() as usize,
                first_row,
                until_row,
                params,
                audio,
                phase: Phase::Over,
            }).entering(self@, 0),
            forall|blocks: int, frames: u32|
                until_row <= blocks ==> #[trigger] r.fits(self@, blocks, frames),
    {
        let run: BlockRun = BlockRun {
            stage: 0,
            until_stage: self.stages(),
            first_row,
            until_row,
            params,
            audio,
            phase: Phase::Over,
        };
        self.enter(&run, 0)
    }

    /// Runs every stage's parameter and note operations for one sub-block.
    ///
    /// Together with [`Engine::run_audio`] this puts every parameter of the block
    /// before any of its audio. A level read off audio is then that of the block
    /// before; [`Engine::run_block`] keeps to the order of the stages.
    pub fn run(&self, row: usize) -> (r: BlockRun)
        requires
            self.wf(),
        ensures
            r == (BlockRun {
                stage: 0,
                until_stage: self@.stage_count() as usize,
                first_row: row,
                until_row: one_past(row),
                params: true,
                audio: false,
                phase: Phase::Over,
            }).entering(self@, 0),
            forall|blocks: int, frames: u32|
                row < blocks ==> #[trigger] r.fits(self@, blocks, frames),
    {
        self.all(true, false, row, row.saturating_add(1))
    }

    /// Runs one stage's parameter and note operations for one sub-block. A stage that
    /// is not there has nothing to run.
    pub fn run_stage(&self, stage: usize, row: usize) -> (r: BlockRun)
        requires
            self.wf(),
        ensures
            r == (BlockRun {
                stage,
                until_stage: one_past(stage),
                first_row: row,
                until_row: one_past(row),
                params: true,
                audio: false,
                phase: Phase::Over,
            }).entering(self@, stage as int),
            forall|blocks: int, frames: u32|
                row < blocks ==> #[trigger] r.fits(self@, blocks, frames),
    {
        let run: BlockRun = BlockRun {
            stage,
            until_stage: stage.saturating_add(1),
            first_row: row,
            until_row: row.saturating_add(1),
            params: true,
            audio: false,
            phase: Phase::Over,
        };
        self.enter(&run, stage)
    }

    /// Runs every stage's audio operations over the block. What the DAW is handed
    /// is cleared first.
    pub fn run_audio(&self, daw_out: &mut [Sample]) -> (r: BlockRun)
        requires
            self.wf(),
        ensures
            final(daw_out)@ == silence(old(daw_out)@.len()),
            r == (BlockRun {
                stage: 0,
                until_stage: self@.stage_count() as usize,
                first_row: 0,
                until_row: 0,
                params: false,
                audio: true,
                phase: Phase::Over,
            }).entering(self@, 0),
            forall|blocks: int, frames: u32|
                0 <= blocks ==> #[trigger] r.fits(self@, blocks, frames),
    {
        self.clear_output(daw_out);
        self.all(false, true, 0, 0)
    }

    /// Runs one stage's audio operations over the block. A stage that is not there has
    /// nothing to run.
    pub fn run_audio_stage(&self, stage: usize) -> (r: BlockRun)
        requires
            self.wf(),
        ensures
            r == (BlockRun {
                stage,
                until_stage: one_past(stage),
                first_row: 0,
                until_row: 0,
                params: false,
                audio: true,
                phase: Phase::Over,
            }).entering(self@, stage as int),
            forall|blocks: int, frames: u32|
                0 <= blocks ==> #[trigger] r.fits(self@, blocks, frames),
    {
        let run: BlockRun = BlockRun {
            stage,
            until_stage: stage.saturating_add(1),
            first_row: 0,
            until_row: 0,
            params: false,
            audio: true,
            phase: Phase::Over,
        };
        self.enter(&run, stage)
    }

    /// Runs one whole block: lays the lanes out, takes the DAW's events in, and
    /// walks the stages in the order they depend on each other. Without a program,
    /// or with a block that the schedule refuses, there is nothing to run and the
    /// DAW hears silence. The quantum is taken up even then.
    pub fn run_block(
        &mut self,
        schedule: &mut SlotSchedule,
        slots: &[Real],
        events: &[Event],
        frames: u32,
        quantum: u32,
        daw_out: &mut [Sample],
    ) -> (r: Option<BlockRun>)
        requires
            old(self).wf(),
            old(schedule).wf(),
        ensures
            final(self).wf(),
            final(schedule).wf(),
            final(daw_out)@ == silence(old(daw_out)@.len()),
            ({
                let taken = frames <= old(schedule).max_frames && quantum > 0;
                let runs = old(self)@.program matches Some(program) && !program.idle();
                &&& taken ==> final(schedule).frames == frames && final(schedule).quantum
                    == quantum && rows_view(final(schedule).rows@) == Seq::new(
                    rows_in(frames, quantum) as nat,
                    |i: int| row_laid(old(schedule).lanes as nat, slots@),
                )
                &&& !taken && (quantum == 0 || quantum == old(schedule).quantum)
                    ==> *final(schedule) == *old(schedule)
                &&& !taken && quantum > 0 && quantum != old(schedule).quantum ==> {
                    &&& final(schedule).quantum == quantum
                    &&& final(schedule).frames == 0
                    &&& final(schedule).rows@.len() == 0
                }
                &&& final(schedule).lanes == old(schedule).lanes
                &&& final(schedule).max_frames == old(schedule).max_frames
                &&& taken && runs ==> {
                    &&& final(self)@ == old(self)@.begun(events@)
                    &&& r == Some(
                        (BlockRun {
                            stage: 0,
                            until_stage: final(self)@.stage_count() as usize,
                            first_row: 0,
                            until_row: rows_in(frames, quantum) as usize,
                            params: true,
                            audio: true,
                            phase: Phase::Over,
                        }).entering(final(self)@, 0),
                    )
                    &&& (r->0).fits(final(self)@, final(schedule).rows@.len() as int, frames)
                }
                &&& !(taken && runs) ==> r is None && final(self)@ == old(self)@
            }),
    {
        self.clear_output(daw_out);
        if quantum > 0 && schedule.quantum() != quantum {
            schedule.set_quantum(quantum);
        }
        let blocks: usize = match schedule.begin(frames, quantum, slots) {
            Some(blocks) => blocks,
            None => {
                return None;
            },
        };
        if !self.has_program() {
            return None;
        }
        self.begin_block(events);
        Some(self.all(true, true, 0, blocks))
    }

    /// Runs the next operation, and says what it leaves to be worked out.
    #[verifier::rlimit(60)]
    pub fn step(
        &mut self,
        run: &mut BlockRun,
        schedule: &mut SlotSchedule,
        daw_in: &[Sample],
        daw_out: &mut [Sample],
    ) -> (r: Work)
        requires
            old(self).wf(),
            old(schedule).wf(),
            old(run).fits(old(self)@, old(schedule).rows@.len() as int, old(schedule).frames),
        ensures
            final(self).wf(),
            final(schedule).wf(),
            final(schedule).frames == old(schedule).frames,
            final(schedule).quantum == old(schedule).quantum,
            *final(run) == old(run).stepped(
                old(self)@,
                old(schedule).frames,
                old(schedule).quantum,
            ),
            final(run).fits(
                final(self)@,
                final(schedule).rows@.len() as int,
                final(schedule).frames,
            ),
            (final(self)@, rows_view(final(schedule).rows@)) == stepped(
                old(self)@,
                *old(run),
                rows_view(old(schedule).rows@),
                old(schedule).frames,
                old(schedule).quantum,
                daw_in@,
            ),
            final(daw_out)@ == heard_after(
                old(self)@,
                *old(run),
                old(schedule).frames,
                old(schedule).quantum,
                old(daw_out)@,
            ),
            leaves(
                old(self)@,
                *old(run),
                old(schedule).rows@,
                old(schedule).frames,
                old(schedule).quantum,
                r,
            ),
            r matches Work::Param { work, .. } ==> work_fits(work),
            r matches Work::Audio { work, place } ==> task_fits(work@) && place.win.fits(
                final(self)@.sound.stride,
            ),
    {
        let ghost before = self@;
        let ghost was = *run;
        let ghost rows = rows_view(schedule.rows@);
        let frames: u32 = schedule.frames;
        let quantum: u32 = schedule.quantum;
        let found: Option<Stage> = if run.stage < run.until_stage {
            self.stage(run.stage)
        } else {
            None
        };
        let cut: Stage = match found {
            Some(cut) => cut,
            None => {
                run.phase = Phase::Over;
                return Work::Over;
            },
        };
        let stage: usize = run.stage;
        let ghost program = before.program->0;
        proof {
            lemma_cut_fits(before, was);
        }
        match run.phase {
            Phase::Params { row, at } => {
                assert(rows[row as int] == schedule.rows@[row as int]@);
                if at < cut.params.end as usize {
                    let work: ParamWork = self.param_op(at, schedule.rows[row].as_slice());
                    run.phase = Phase::Params { row, at: at + 1 };
                    return Work::Param { work, row };
                }
                let start: u32 = schedule.offset(row);
                let length: u32 = schedule.frames_of(row);
                let ghost had = schedule.rows@;
                self.end_row(stage, row, start, length, schedule.rows[row].as_mut_slice());
                proof {
                    assert(rows_view(schedule.rows@) =~= rows.update(
                        row as int,
                        schedule.rows@[row as int]@,
                    ));
                    assert forall|i: int| 0 <= i < schedule.rows@.len() implies (
                    #[trigger] schedule.rows@[i])@.len() == schedule.lanes by {
                        assert(had[i]@.len() == schedule.lanes);
                    }
                    lemma_same_program(before, self@, was, stage + 1);
                }
                if row + 1 < run.until_row {
                    run.phase = Phase::Params { row: row + 1, at: cut.params.start as usize };
                } else if run.audio {
                    run.phase = Phase::Audio {
                        start: 0,
                        row: 0,
                        at: cut.audio.start as usize,
                        tap: 0,
                    };
                } else {
                    *run = self.enter(run, stage + 1);
                }
                Work::Param { work: ParamWork::Nothing, row }
            },
            Phase::Audio { start, row, at, tap } => {
                let win: Window = match self.chunk(&cut, frames, quantum, start) {
                    Some(win) => win,
                    None => {
                        *run = self.enter(run, stage + 1);
                        return Work::Stage;
                    },
                };
                let place: ChunkPlace = ChunkPlace { win, row, tap };
                if at < cut.audio.end as usize {
                    let reads: bool = self.op_reads(at);
                    let work: AudioWork = self.audio_op(
                        at,
                        &place,
                        schedule.rows.as_slice(),
                        daw_in,
                        daw_out,
                    );
                    run.phase = Phase::Audio {
                        start,
                        row,
                        at: at + 1,
                        tap: if reads {
                            tap + 1
                        } else {
                            tap
                        },
                    };
                    return Work::Audio { work, place };
                }
                run.phase = Phase::Audio {
                    start: start + win.frames,
                    row: row + 1,
                    at: cut.audio.start as usize,
                    tap: 0,
                };
                Work::Audio { work: AudioWork::Nothing, place }
            },
            Phase::Over => Work::Over,
        }
    }

    /// Runs the next operation of a sub-block that runs by itself, from `start` on and
    /// `frames` long, and says what it leaves to be worked out.
    pub fn step_row(
        &mut self,
        run: &mut BlockRun,
        start: u32,
        frames: u32,
        lanes: &mut [Real],
    ) -> (r: Work)
        requires
            old(self).wf(),
            old(run).fits(old(self)@, old(run).until_row as int, frames),
            !old(run).audio,
            old(run).phase !is Audio,
            start + frames <= u32::MAX,
        ensures
            final(self).wf(),
            *final(run) == old(run).stepped(old(self)@, frames, frames),
            final(run).fits(final(self)@, final(run).until_row as int, frames),
            !final(run).audio,
            final(run).phase !is Audio,
            (final(self)@, final(lanes)@) == row_stepped(
                old(self)@,
                *old(run),
                start,
                frames,
                old(lanes)@,
            ),
            final(lanes)@.len() == old(lanes)@.len(),
            leaves(old(self)@, *old(run), Seq::empty(), frames, frames, r),
            r matches Work::Param { work, .. } ==> work_fits(work),
    {
        let ghost before = self@;
        let ghost was = *run;
        let found: Option<Stage> = if run.stage < run.until_stage {
            self.stage(run.stage)
        } else {
            None
        };
        let stage: usize = run.stage;
        proof {
            lemma_cut_fits(before, was);
        }
        match (found, run.phase) {
            (Some(cut), Phase::Params { row, at }) => {
                if at < cut.params.end as usize {
                    let work: ParamWork = self.param_op(at, lanes);
                    run.phase = Phase::Params { row, at: at + 1 };
                    return Work::Param { work, row };
                }
                self.end_row(stage, row, start, frames, lanes);
                proof {
                    lemma_same_program(before, self@, was, stage + 1);
                }
                if row + 1 < run.until_row {
                    run.phase = Phase::Params { row: row + 1, at: cut.params.start as usize };
                } else {
                    *run = self.enter(run, stage + 1);
                }
                Work::Param { work: ParamWork::Nothing, row }
            },
            _ => {
                run.phase = Phase::Over;
                Work::Over
            },
        }
    }

    fn op_reads(&self, at: usize) -> (r: bool)
        requires
            self@.program is Some,
            at < self@.program->0.audio_ops.len(),
        ensures
            r == (self@.program->0.audio_ops[at as int] is DelayRead),
    {
        match &self.program {
            Some(prepared) => {
                assert(prepared.program@.audio_ops[at as int]
                    == prepared.program.audio_ops@[at as int]@);
                match &prepared.program.audio_ops[at] {
                    crate::ir::AudioOp::DelayRead { .. } => true,
                    _ => false,
                }
            },
            None => false,
        }
    }
}

/// A stage's runs of operations are there.
proof fn lemma_cut_fits(model: EngineModel, run: BlockRun)
    requires
        model.wf(),
    ensures
        run.cut(model) matches Some(cut) ==> {
            &&& cut.params.fits(model.program->0.ops.len())
            &&& cut.audio.fits(model.program->0.audio_ops.len())
        },
{
    if let Some(cut) = run.cut(model) {
        assert(model.program->0.stages[run.stage as int] == cut);
    }
}

/// Where a run goes is up to the program alone.
proof fn lemma_same_program(before: EngineModel, after: EngineModel, run: BlockRun, stage: int)
    requires
        before.program == after.program,
    ensures
        run.entering(before, stage) == run.entering(after, stage),
        run.cut(before) == run.cut(after),
{
}

} // verus!
