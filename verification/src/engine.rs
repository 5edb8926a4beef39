//! Runs a compiled program.
//!
//! It also holds what must survive a change of program: oscillators, delay
//! lines, latches, and the notes being played. Nothing here knows of a graph.
use vstd::prelude::*;
use crate::event::{Event, NoteEvent};
use crate::ir::{
    Chunking, NoteStream, Program, MAX_BLOCK_EVENTS, MAX_BUFFERS, MAX_BUFFER_CHANNELS, MAX_LFOS,
    MAX_NOTE_BUFS, MAX_NOTE_EMITS, MIN_QUANTUM,
};
use crate::ledger::{Ended, LedgerModel, NoteLedger};
use crate::note_state::{bufs_view, carried, lemma_carried, BufModel, NoteState, NotesModel};
use crate::number::Real;
use crate::params::{law_new_nodes_start_over, LfoState, ParamState, ParamsModel};
use crate::program::ProgramModel;
use crate::sound::{SoundModel, SoundState};

verus! {

/// A program as it is handed to the engine.
#[derive(Debug)]
pub struct PreparedProgram {
    pub program: Program,
    /// Which publication it is, counted by whoever publishes.
    pub publication: u64,
}

#[derive(Debug)]
pub struct Engine {
    pub program: Option<PreparedProgram>,
    pub params: ParamState,
    pub notes: NoteState,
    /// Where each note buffer stood before each sub-block was appended to it.
    pub note_marks: Vec<Vec<u32>>,
    /// How many sub-blocks of the block have run.
    pub note_rows: usize,
    /// The DAW's stream for the block, with every note given the graph's own
    /// number.
    pub translated: Vec<Event>,
    pub ledger: NoteLedger,
    pub sound: SoundState,
}

#[verifier::ext_equal]
pub struct EngineModel {
    pub program: Option<ProgramModel>,
    pub publication: u64,
    pub params: ParamsModel,
    pub notes: NotesModel,
    pub note_marks: Seq<Seq<u32>>,
    pub note_rows: usize,
    pub translated: Seq<Event>,
    pub ledger: LedgerModel,
    pub sound: SoundModel,
}

pub open spec fn marks_view(marks: Seq<Vec<u32>>) -> Seq<Seq<u32>> {
    Seq::new(marks.len(), |i: int| marks[i]@)
}

impl View for Engine {
    type V = EngineModel;

    open spec fn view(&self) -> EngineModel {
        EngineModel {
            program: match self.program {
                Some(prepared) => Some(prepared.program@),
                None => None,
            },
            publication: match self.program {
                Some(prepared) => prepared.publication,
                None => 0,
            },
            params: self.params@,
            notes: self.notes@,
            note_marks: marks_view(self.note_marks@),
            note_rows: self.note_rows,
            translated: self.translated@,
            ledger: self.ledger@,
            sound: self.sound@,
        }
    }
}

/// The marks of a row under another program: each buffer's is that of the buffer
/// its notes came from.
pub open spec fn marks_moved(marks: Seq<u32>, remap: Seq<Option<usize>>) -> Seq<u32> {
    Seq::new(
        MAX_NOTE_BUFS as nat,
        |i: int|
            match remap[i] {
                Some(from) => marks[from as int],
                None => 0,
            },
    )
}

/// How much of a note buffer is spent at the end of a block: all but the last
/// sub-block, which the first sub-block of the next block still reads.
pub open spec fn spent(model: EngineModel, buf: int) -> int {
    let len = model.notes.bufs[buf].events.len();
    if model.note_rows == 0 {
        len as int
    } else if model.note_rows - 1 < model.note_marks.len() {
        let mark = model.note_marks[model.note_rows - 1][buf];
        if mark < len {
            mark as int
        } else {
            len as int
        }
    } else {
        0
    }
}

/// The first `count` events taken in, and how many there was no room for.
pub open spec fn taken(
    ledger: LedgerModel,
    events: Seq<Event>,
    count: nat,
) -> (LedgerModel, Seq<Event>, nat)
    decreases count,
{
    if count == 0 {
        (ledger, Seq::empty(), 0)
    } else {
        let (before, list, lost) = taken(ledger, events, (count - 1) as nat);
        if list.len() >= MAX_BLOCK_EVENTS {
            (before, list, lost + 1)
        } else {
            match events[count - 1] {
                Event::Note(note) => {
                    let (after, told) = before.translated(note);
                    (after, list.push(Event::Note(told)), lost)
                },
                other => (before, list.push(other), lost),
            }
        }
    }
}

/// The endings that plugins have reported among the first `count` events.
pub open spec fn reported(ledger: LedgerModel, events: Seq<Event>, count: nat) -> LedgerModel
    decreases count,
{
    if count == 0 {
        ledger
    } else {
        let before = reported(ledger, events, (count - 1) as nat);
        match events[count - 1] {
            Event::Note(NoteEvent::NoteEnd { note_id: Some(id), .. }) => before.done(id),
            _ => before,
        }
    }
}

impl EngineModel {
    /// No program, no notes, nothing remembered.
    pub open spec fn fresh() -> EngineModel {
        EngineModel {
            program: None,
            publication: 0,
            params: ParamsModel::fresh(),
            notes: NotesModel {
                bufs: Seq::new(MAX_NOTE_BUFS as nat, |i: int| BufModel::empty()),
                streams: Seq::new(MAX_NOTE_BUFS as nat, |i: int| None::<NoteStream>),
                emitted: Seq::new(MAX_NOTE_EMITS as nat, |i: int| Real::unset()),
                dropped: 0,
            },
            note_marks: Seq::empty(),
            note_rows: 0,
            translated: Seq::empty(),
            ledger: LedgerModel::empty(),
            sound: SoundModel::fresh(),
        }
    }

    pub open spec fn wf(self) -> bool {
        &&& self.params.wf()
        &&& self.notes.bufs.len() == MAX_NOTE_BUFS
        &&& self.notes.streams.len() == MAX_NOTE_BUFS
        &&& self.sound.wf()
        &&& forall|i: int|
            0 <= i < self.note_marks.len() ==> (#[trigger] self.note_marks[i]).len()
                == MAX_NOTE_BUFS
        &&& self.program matches Some(program) ==> program.fits()
    }

    /// Whether some stage runs a sub-block at a time.
    pub open spec fn looped(self) -> bool {
        match self.program {
            Some(program) => exists|i: int|
                0 <= i < program.stages.len() && (#[trigger] program.stages[i]).chunking
                    == Chunking::SubBlock,
            None => false,
        }
    }

    /// How many oscillators run. None do while no program is loaded.
    pub open spec fn running(self) -> int {
        match self.program {
            Some(program) => if program.lfo_nodes.len() < MAX_LFOS {
                program.lfo_nodes.len() as int
            } else {
                MAX_LFOS as int
            },
            None => 0,
        }
    }

    /// Another program, with what it has in common with the one before.
    pub open spec fn adopted(self, next: ProgramModel, publication: u64) -> EngineModel {
        let remap = carried(self.notes.streams, next.note_streams, next.note_streams.len());
        EngineModel {
            program: Some(
                ProgramModel {
                    audio_rings: self.sound.rings_left(next.audio_delay_nodes, next.audio_rings),
                    ..next
                },
            ),
            publication,
            params: self.params.adopted(
                self.running(),
                next.lfo_nodes,
                next.latch_nodes,
                next.delay_nodes,
            ),
            notes: self.notes.adopted(next.note_streams),
            note_marks: Seq::new(
                self.note_marks.len(),
                |row: int|
                    if row < self.note_rows {
                        marks_moved(self.note_marks[row], remap)
                    } else {
                        self.note_marks[row]
                    },
            ),
            sound: self.sound.adopted(
                next.audio_delay_nodes,
                next.audio_ring_len,
                next.audio_rings,
            ),
            ..self
        }
    }

    /// Nothing is being played, and nothing has been said about it.
    pub open spec fn unplayed(self) -> EngineModel {
        EngineModel {
            translated: Seq::empty(),
            notes: NotesModel {
                bufs: Seq::new(MAX_NOTE_BUFS as nat, |i: int| BufModel::empty()),
                emitted: Seq::new(
                    MAX_NOTE_EMITS as nat,
                    |i: int| Real::unset(),
                ),
                ..self.notes
            },
            note_rows: 0,
            ..self
        }
    }

    /// The ledger without a note in it.
    pub open spec fn settled_up(self) -> EngineModel {
        EngineModel {
            ledger: LedgerModel { notes: Seq::empty(), gone: Seq::empty(), ..self.ledger },
            ..self
        }
    }

    /// Where the rows from `first` to before `end` lie in a note buffer. A row
    /// that has not run reads to the end.
    pub open spec fn rows_of(self, buf: int, first: int, end: int) -> (int, int) {
        let from = self.mark_of(buf, first);
        let to = if end >= self.note_rows {
            self.events_in(buf)
        } else {
            self.mark_of(buf, end)
        };
        (
            from,
            if to < from {
                from
            } else {
                to
            },
        )
    }

    pub open spec fn events_in(self, buf: int) -> int {
        if buf < self.notes.bufs.len() {
            self.notes.bufs[buf].events.len() as int
        } else {
            0
        }
    }

    /// Where a row starts in a note buffer. A row there is no mark for starts at
    /// its end.
    pub open spec fn mark_of(self, buf: int, row: int) -> int {
        let len = self.events_in(buf);
        if row < self.note_marks.len() && buf < MAX_NOTE_BUFS {
            let mark = self.note_marks[row][buf];
            if mark < len {
                mark as int
            } else {
                len
            }
        } else {
            len
        }
    }
}

impl Engine {
    pub open spec fn wf(&self) -> bool {
        self@.wf() && self.notes.wf()
    }

    pub fn new() -> (r: Engine)
        ensures
            r.wf(),
            r@ == EngineModel::fresh(),
    {
        Engine {
            program: None,
            params: ParamState::new(),
            notes: NoteState::new(),
            note_marks: Vec::new(),
            note_rows: 0,
            translated: Vec::new(),
            ledger: NoteLedger::new(),
            sound: SoundState::new(),
        }
    }

    /// Whether the program that is running drives a lane.
    pub fn drives_lane(&self, lane: usize) -> (r: bool)
        ensures
            r == (self@.program matches Some(program) && program.drives(lane as int)),
    {
        match &self.program {
            Some(prepared) => prepared.program.drives_lane(lane),
            None => false,
        }
    }

    /// Whether there is anything to run.
    pub fn has_program(&self) -> (r: bool)
        ensures
            r == (self@.program matches Some(program) && !program.idle()),
    {
        match &self.program {
            Some(prepared) => !prepared.program.is_empty(),
            None => false,
        }
    }

    /// The publication that is running, or nothing before the first.
    pub fn publication(&self) -> (r: u64)
        ensures
            r == self@.publication,
    {
        match &self.program {
            Some(prepared) => prepared.publication,
            None => 0,
        }
    }

    /// The latency of the program that is running, in samples.
    pub fn latency(&self) -> (r: u32)
        ensures
            r == match self@.program {
                Some(program) => program.latency,
                None => 0,
            },
    {
        match &self.program {
            Some(prepared) => prepared.program.latency,
            None => 0,
        }
    }

    /// Whether the program that is running has an audio half.
    pub fn has_audio(&self) -> (r: bool)
        ensures
            r == (self@.program matches Some(program) && program.audio_ops.len() > 0),
    {
        match &self.program {
            Some(prepared) => prepared.program.audio_ops.len() > 0,
            None => false,
        }
    }

    /// How many stages the program that is running is cut into.
    pub fn stages(&self) -> (r: usize)
        ensures
            r == match self@.program {
                Some(program) => program.stages.len(),
                None => 0,
            },
    {
        match &self.program {
            Some(prepared) => prepared.program.stages.len(),
            None => 0,
        }
    }

    /// The finest granularity anything in the program runs at.
    pub fn chunking(&self) -> (r: Chunking)
        ensures
            r == if self@.looped() {
                Chunking::SubBlock
            } else {
                Chunking::WholeBlock
            },
    {
        match &self.program {
            Some(prepared) => {
                let mut at: usize = 0;
                while at < prepared.program.stages.len()
                    invariant
                        at <= prepared.program.stages@.len(),
                        self@.program == Some(prepared.program@),
                        forall|i: int|
                            0 <= i < at ==> (
                            #[trigger] prepared.program.stages@[i]).chunking != Chunking::SubBlock,
                    decreases prepared.program.stages@.len() - at,
                {
                    if prepared.program.stages[at].chunking == Chunking::SubBlock {
                        assert(prepared.program@.stages[at as int].chunking == Chunking::SubBlock);
                        return Chunking::SubBlock;
                    }
                    at += 1;
                }
                Chunking::WholeBlock
            },
            None => Chunking::WholeBlock,
        }
    }

    /// How many events have been lost for want of room.
    pub fn notes_dropped(&self) -> (r: u64)
        ensures
            r == self@.notes.dropped,
    {
        self.notes.dropped
    }

    /// How many notes have been forced out of the ledger to make room.
    pub fn notes_stolen(&self) -> (r: u64)
        ensures
            r == self@.ledger.stolen,
    {
        self.ledger.stolen()
    }

    /// Gives back whatever program is loaded.
    pub fn release(&mut self) -> (r: Option<PreparedProgram>)
        requires
            old(self).wf(),
        ensures
            r == old(self).program,
            final(self).wf(),
            final(self)@ == (EngineModel { program: None, publication: 0, ..old(self)@ }),
    {
        let mut out: Option<PreparedProgram> = None;
        std::mem::swap(&mut out, &mut self.program);
        out
    }

    fn move_marks(&mut self, remap: &Vec<Option<usize>>)
        requires
            old(self)@.wf(),
            remap@.len() == MAX_NOTE_BUFS,
            forall|i: int|
                0 <= i < remap@.len() ==> (#[trigger] remap@[i] matches Some(from) ==> from
                    < MAX_NOTE_BUFS),
        ensures
            final(self)@ == (EngineModel {
                note_marks: Seq::new(
                    old(self)@.note_marks.len(),
                    |row: int|
                        if row < old(self)@.note_rows {
                            marks_moved(old(self)@.note_marks[row], remap@)
                        } else {
                            old(self)@.note_marks[row]
                        },
                ),
                ..old(self)@
            }),
            final(self).notes == old(self).notes,
            final(self).program == old(self).program,
            final(self)@.wf(),
    {
        let ghost before = self@;
        let rows: usize = self.note_rows;
        let mut row: usize = 0;
        while row < self.note_marks.len() && row < rows
            invariant
                before.wf(),
                rows == before.note_rows,
                row <= self.note_marks@.len() == before.note_marks.len(),
                row <= rows,
                remap@.len() == MAX_NOTE_BUFS,
                self.notes == old(self).notes,
                self.program == old(self).program,
                forall|i: int|
                    0 <= i < remap@.len() ==> (#[trigger] remap@[i] matches Some(from) ==> from
                        < MAX_NOTE_BUFS),
                self@ == (EngineModel { note_marks: marks_view(self.note_marks@), ..before }),
                forall|r: int|
                    0 <= r < self.note_marks@.len() ==> (#[trigger] self.note_marks@[r])@ == if r
                        < row {
                        marks_moved(before.note_marks[r], remap@)
                    } else {
                        before.note_marks[r]
                    },
            decreases self.note_marks@.len() - row,
        {
            let ghost was = before.note_marks[row as int];
            assert(self.note_marks@[row as int]@ == was);
            let mut moved: Vec<u32> = Vec::new();
            while moved.len() < MAX_NOTE_BUFS
                invariant
                    moved@.len() <= MAX_NOTE_BUFS,
                    remap@.len() == MAX_NOTE_BUFS,
                    row < self.note_marks@.len(),
                    self.note_marks@[row as int]@ == was,
                    was.len() == MAX_NOTE_BUFS,
                    forall|i: int|
                        0 <= i < remap@.len() ==> (#[trigger] remap@[i] matches Some(from)
                            ==> from < MAX_NOTE_BUFS),
                    moved@ == marks_moved(was, remap@).take(moved@.len() as int),
                decreases MAX_NOTE_BUFS - moved@.len(),
            {
                let at: usize = moved.len();
                let mark: u32 = match remap[at] {
                    Some(from) => self.note_marks[row][from],
                    None => 0,
                };
                moved.push(mark);
                assert(moved@ =~= marks_moved(was, remap@).take(moved@.len() as int));
            }
            assert(moved@ =~= marks_moved(was, remap@));
            self.note_marks[row] = moved;
            row += 1;
        }
        proof {
            let want = EngineModel {
                note_marks: Seq::new(
                    before.note_marks.len(),
                    |row: int|
                        if row < before.note_rows {
                            marks_moved(before.note_marks[row], remap@)
                        } else {
                            before.note_marks[row]
                        },
                ),
                ..before
            };
            assert(self@.note_marks =~= want.note_marks);
            assert(self@ =~= want);
            assert forall|i: int| 0 <= i < self@.note_marks.len() implies (
            #[trigger] self@.note_marks[i]).len() == MAX_NOTE_BUFS by {
                assert(before.note_marks[i].len() == MAX_NOTE_BUFS);
            }
        }
    }

    /// Takes over another program, and gives back the one before it.
    ///
    /// What the two have in common goes on: notes stay down, oscillators keep
    /// their phase, latches stay set and delay lines stay full. Where no program
    /// was loaded no oscillator ran, and all of them start over. The rings that
    /// were replaced leave with the next program to be handed back.
    pub fn adopt(&mut self, next: PreparedProgram) -> (r: Option<PreparedProgram>)
        requires
            old(self).wf(),
            next.program@.fits(),
        ensures
            final(self).wf(),
            r == old(self).program,
            final(self)@ == old(self)@.adopted(next.program@, next.publication),
    {
        let ghost before = self@;
        let ghost model = next.program@;
        let mut next: PreparedProgram = next;
        let running: usize = match &self.program {
            Some(held) => if held.program.lfo_nodes.len() < MAX_LFOS {
                held.program.lfo_nodes.len()
            } else {
                MAX_LFOS
            },
            None => 0,
        };
        let remap: Vec<Option<usize>> = self.notes.adopt(next.program.note_streams.as_slice());
        proof {
            lemma_carried(before.notes.streams, model.note_streams, model.note_streams.len());
        }
        assert(self@.params == before.params);
        assert(self@.sound == before.sound);
        assert(self@.note_marks == before.note_marks);
        assert(self@.wf());
        self.move_marks(&remap);
        self.params.adopt(
            running,
            &next.program.lfo_nodes,
            &next.program.latch_nodes,
            &next.program.delay_nodes,
        );
        self.sound.adopt(
            &next.program.audio_delay_nodes,
            &next.program.audio_ring_len,
            &mut next.program.audio_rings,
        );
        let mut held: Option<PreparedProgram> = Some(next);
        std::mem::swap(&mut held, &mut self.program);
        proof {
            let after = self@.program->0;
            let want = before.adopted(model, next.publication);
            assert(after =~= want.program->0);
            assert(after.ops == model.ops);
            assert(after.audio_ops == model.audio_ops);
            assert(after.stages == model.stages);
            assert(after.buffers == model.buffers);
            assert(after.outputs == model.outputs);
            assert(after.note_ops == model.note_ops);
            assert(after.note_streams == model.note_streams);
            assert(after.audio_ring_len == model.audio_ring_len);
            assert(after.fits());
            assert(self@.note_marks == want.note_marks);
            assert(self@ =~= want);
        }
        held
    }

    /// Forgets who is playing and what has been said about it.
    fn forget_notes(&mut self)
        requires
            old(self).wf(),
        ensures
            final(self).wf(),
            final(self)@ == old(self)@.unplayed(),
    {
        let ghost before = self@;
        self.translated.clear();
        self.notes.forget();
        self.note_rows = 0;
        assert(self@ =~= before.unplayed());
        assert(self@.note_marks == before.note_marks);
    }

    /// The playhead moved: forgets what was sounding and what was in flight.
    ///
    /// A latch is a setting made with a key rather than a sound in progress, and
    /// stays. The DAW is the one that jumped, so it is told nothing.
    pub fn reset(&mut self)
        requires
            old(self).wf(),
        ensures
            final(self).wf(),
            final(self)@ == (EngineModel {
                params: old(self)@.params.forgotten(),
                sound: old(self)@.sound.forgotten(),
                ..old(self)@.settled_up().unplayed()
            }),
    {
        let ghost before = self@;
        self.ledger.clear();
        assert(self@ =~= before.settled_up());
        assert(self@.note_marks == before.note_marks);
        self.forget_notes();
        self.params.forget();
        self.sound.forget();
        assert(self@.note_marks == before.note_marks);
    }

    /// Forgets everything, latches too, and reports the notes still alive: the
    /// DAW has no reason to think that they are over.
    pub fn reset_everything(&mut self, ended: &mut Vec<Ended>)
        requires
            old(self).wf(),
        ensures
            final(self).wf(),
            final(self)@ == (EngineModel {
                params: old(self)@.params.forgotten().unlatched(),
                sound: old(self)@.sound.forgotten(),
                ..old(self)@.settled_up().unplayed()
            }),
            final(ended)@ == old(ended)@ + old(self)@.ledger.gone + crate::ledger::names_of(
                old(self)@.ledger.notes,
            ),
    {
        let ghost before = self@;
        self.ledger.end_all(ended);
        assert(self@ =~= before.settled_up());
        assert(self@.note_marks == before.note_marks);
        self.forget_notes();
        self.params.forget();
        self.params.unlatch();
        self.sound.forget();
        assert(self@.note_marks == before.note_marks);
    }

    /// Forgets what is being played and nothing else, which is what an All Notes
    /// Off asks for.
    pub fn reset_notes(&mut self, ended: &mut Vec<Ended>)
        requires
            old(self).wf(),
        ensures
            final(self).wf(),
            final(self)@ == old(self)@.settled_up().unplayed(),
            final(ended)@ == old(ended)@ + old(self)@.ledger.gone + crate::ledger::names_of(
                old(self)@.ledger.notes,
            ),
    {
        let ghost before = self@;
        self.ledger.end_all(ended);
        assert(self@ =~= before.settled_up());
        assert(self@.note_marks == before.note_marks);
        self.forget_notes();
    }
}

impl EngineModel {
    /// Sized for blocks of so many frames: one row of marks for each sub-block
    /// that the finest quantum cuts such a block into, and two to spare.
    pub open spec fn prepared(self, max_frames: u32, daw_inputs: Seq<u16>) -> EngineModel {
        EngineModel {
            sound: self.sound.prepared(max_frames as usize, daw_inputs),
            notes: NotesModel {
                bufs: Seq::new(
                    self.notes.bufs.len(),
                    |i: int| BufModel { events: Seq::empty(), ..self.notes.bufs[i] },
                ),
                emitted: Seq::new(MAX_NOTE_EMITS as nat, |i: int| Real::unset()),
                dropped: 0,
                ..self.notes
            },
            note_marks: Seq::new(
                (max_frames as usize / MIN_QUANTUM + 2) as nat,
                |row: int| Seq::new(MAX_NOTE_BUFS as nat, |i: int| 0u32),
            ),
            note_rows: 0,
            ..self
        }
    }

    /// The start of a block: what is spent leaves the note buffers, and the DAW's
    /// events are taken in.
    pub open spec fn begun(self, events: Seq<Event>) -> EngineModel {
        let (ledger, list, lost) = taken(self.ledger, events, events.len());
        EngineModel {
            notes: NotesModel {
                bufs: Seq::new(
                    self.notes.bufs.len(),
                    |i: int|
                        BufModel {
                            events: self.notes.bufs[i].events.skip(spent(self, i)),
                            ..self.notes.bufs[i]
                        },
                ),
                dropped: if self.notes.dropped + lost > u64::MAX {
                    u64::MAX
                } else {
                    (self.notes.dropped + lost) as u64
                },
                ..self.notes
            },
            note_rows: 0,
            translated: list,
            ledger,
            ..self
        }
    }
}

/// The last sub-block of a block is what the first sub-block of the next one
/// reads: it is what is left in a note buffer, and all that is left.
pub proof fn law_last_sub_block_is_carried(state: EngineModel, events: Seq<Event>, buf: int)
    requires
        state.wf(),
        0 <= buf < MAX_NOTE_BUFS,
        0 < state.note_rows <= state.note_marks.len(),
    ensures
        ({
            let (from, to) = state.rows_of(
                buf,
                state.note_rows - 1,
                state.note_rows as int,
            );
            state.begun(events).notes.bufs[buf].events == state.notes.bufs[buf].events.subrange(
                from,
                to,
            )
        }),
{
    let (from, to) = state.rows_of(buf, state.note_rows - 1, state.note_rows as int);
    let all = state.notes.bufs[buf].events;
    assert(state.note_marks[state.note_rows - 1].len() == MAX_NOTE_BUFS);
    assert(spent(state, buf) == from);
    assert(all.skip(from) =~= all.subrange(from, to));
}

impl Engine {
    /// Sizes everything for blocks of up to `max_frames`. `daw_inputs` is how
    /// many channels each of the wrapper's own input buses has.
    pub fn prepare(&mut self, max_frames: u32, daw_inputs: &[u16])
        requires
            old(self).wf(),
            MAX_BUFFERS * MAX_BUFFER_CHANNELS * max_frames <= usize::MAX,
        ensures
            final(self).wf(),
            final(self)@ == old(self)@.prepared(max_frames, daw_inputs@),
    {
        let ghost before = self@;
        self.sound.prepare(max_frames, daw_inputs);
        self.notes.forget_emitted();
        let ghost notes = self.notes@;
        let mut at: usize = 0;
        while at < MAX_NOTE_BUFS
            invariant
                at <= MAX_NOTE_BUFS,
                self.notes.wf(),
                notes == (NotesModel {
                    emitted: Seq::new(MAX_NOTE_EMITS as nat, |i: int| Real::unset()),
                    ..before.notes
                }),
                before.notes.bufs.len() == MAX_NOTE_BUFS,
                self.notes@ == (NotesModel { bufs: bufs_view(self.notes.bufs@), ..notes }),
                forall|i: int|
                    0 <= i < MAX_NOTE_BUFS ==> (#[trigger] self.notes.bufs@[i])@ == if i < at {
                        BufModel { events: Seq::empty(), ..before.notes.bufs[i] }
                    } else {
                        before.notes.bufs[i]
                    },
                self.program == old(self).program,
                self.params == old(self).params,
                self.note_marks == old(self).note_marks,
                self.translated == old(self).translated,
                self.ledger == old(self).ledger,
                self.sound@ == before.sound.prepared(max_frames as usize, daw_inputs@),
                self.sound@.wf(),
            decreases MAX_NOTE_BUFS - at,
        {
            self.notes.bufs[at].events.clear();
            assert(self.notes.bufs@[at as int]@.events =~= Seq::empty());
            at += 1;
        }
        self.notes.dropped = 0;
        let rows: usize = max_frames as usize / MIN_QUANTUM + 2;
        let mut marks: Vec<Vec<u32>> = Vec::new();
        while marks.len() < rows
            invariant
                marks@.len() <= rows,
                forall|i: int|
                    0 <= i < marks@.len() ==> (#[trigger] marks@[i])@ == Seq::new(
                        MAX_NOTE_BUFS as nat,
                        |k: int| 0u32,
                    ),
            decreases rows - marks@.len(),
        {
            let row: Vec<u32> = vec![0; MAX_NOTE_BUFS];
            assert(row@ =~= Seq::new(MAX_NOTE_BUFS as nat, |k: int| 0u32));
            marks.push(row);
        }
        self.note_marks = marks;
        self.note_rows = 0;
        proof {
            let want = before.prepared(max_frames, daw_inputs@);
            assert(self@.notes.bufs =~= want.notes.bufs);
            assert(self@.note_marks =~= want.note_marks);
            assert(self@ =~= want);
        }
    }

    /// Drops what is spent from the note buffers.
    fn drop_spent(&mut self)
        requires
            old(self).wf(),
        ensures
            final(self).wf(),
            final(self)@ == (EngineModel {
                notes: NotesModel {
                    bufs: Seq::new(
                        MAX_NOTE_BUFS as nat,
                        |i: int|
                            BufModel {
                                events: old(self)@.notes.bufs[i].events.skip(
                                    spent(old(self)@, i),
                                ),
                                ..old(self)@.notes.bufs[i]
                            },
                    ),
                    ..old(self)@.notes
                },
                ..old(self)@
            }),
    {
        let ghost before = self@;
        let mut at: usize = 0;
        while at < MAX_NOTE_BUFS
            invariant
                at <= MAX_NOTE_BUFS,
                before == old(self)@,
                before.wf(),
                self.notes.wf(),
                self@ == (EngineModel {
                    notes: NotesModel { bufs: bufs_view(self.notes.bufs@), ..before.notes },
                    ..before
                }),
                forall|i: int|
                    0 <= i < MAX_NOTE_BUFS ==> (#[trigger] self.notes.bufs@[i])@ == if i < at {
                        BufModel {
                            events: before.notes.bufs[i].events.skip(spent(before, i)),
                            ..before.notes.bufs[i]
                        }
                    } else {
                        before.notes.bufs[i]
                    },
            decreases MAX_NOTE_BUFS - at,
        {
            assert(self.notes.bufs@[at as int]@ == before.notes.bufs[at as int]);
            let len: usize = self.notes.bufs[at].events.len();
            let gone: usize = if self.note_rows == 0 {
                len
            } else if self.note_rows - 1 < self.note_marks.len() {
                let row: usize = self.note_rows - 1;
                assert(self@.note_marks[row as int] == self.note_marks@[row as int]@);
                assert(self@.note_marks == before.note_marks);
                let mark: usize = self.note_marks[row][at] as usize;
                if mark < len {
                    mark
                } else {
                    len
                }
            } else {
                0
            };
            assert(gone == spent(before, at as int));
            drop_first(&mut self.notes.bufs[at].events, gone);
            at += 1;
        }
        proof {
            assert(self@.notes.bufs =~= Seq::new(
                MAX_NOTE_BUFS as nat,
                |i: int|
                    BufModel {
                        events: before.notes.bufs[i].events.skip(spent(before, i)),
                        ..before.notes.bufs[i]
                    },
            ));
            assert(self@.note_marks == before.note_marks);
        }
    }

    /// Takes in the DAW's events for one block. Called once, before either half
    /// runs, because both read them and have to agree about which note is which.
    pub fn begin_block(&mut self, events: &[Event])
        requires
            old(self).wf(),
        ensures
            final(self).wf(),
            final(self)@ == old(self)@.begun(events@),
    {
        let ghost before = self@;
        self.drop_spent();
        let ghost left = self@.notes;
        self.note_rows = 0;
        self.translated.clear();
        let mut lost: u64 = 0;
        let mut at: usize = 0;
        assert(self@.note_marks == before.note_marks);
        let ghost mut missed: nat = 0;
        while at < events.len()
            invariant
                at <= events@.len(),
                self.wf(),
                self@.note_rows == 0,
                self@.program == before.program,
                self@.publication == before.publication,
                self@.params == before.params,
                self@.note_marks == before.note_marks,
                self@.sound == before.sound,
                self@.notes == left,
                taken(before.ledger, events@, at as nat) == (
                    self@.ledger,
                    self@.translated,
                    missed,
                ),
                lost == if missed > u64::MAX {
                    u64::MAX
                } else {
                    missed as u64
                },
            decreases events@.len() - at,
        {
            if self.translated.len() >= MAX_BLOCK_EVENTS {
                lost = lost.saturating_add(1);
                proof {
                    missed = missed + 1;
                }
            } else {
                let ghost list = self.translated@;
                let event: Event = match events[at] {
                    Event::Note(note) => Event::Note(self.ledger.translate(note)),
                    Event::Param(param) => Event::Param(param),
                };
                self.translated.push(event);
                assert(self@.note_marks == before.note_marks);
            }
            at += 1;
        }
        self.notes.dropped = self.notes.dropped.saturating_add(lost);
        proof {
            let want = before.begun(events@);
            assert(self@.notes =~= want.notes);
            assert(self@ =~= want);
        }
    }

    /// Settles the block. `from_plugins` is what the plugins sent, in which a
    /// note end is one of them saying that it is done; `ended` comes back with
    /// the notes to report to the DAW.
    pub fn end_block(&mut self, from_plugins: &[Event], ended: &mut Vec<Ended>)
        requires
            old(self).wf(),
        ensures
            final(self).wf(),
            ({
                let ledger = reported(
                    old(self)@.ledger,
                    from_plugins@,
                    from_plugins@.len(),
                );
                &&& final(self)@ == (EngineModel { ledger: ledger.settled(), ..old(self)@ })
                &&& final(ended)@ == old(ended)@ + ledger.endings()
            }),
    {
        let ghost before = self@;
        let mut at: usize = 0;
        while at < from_plugins.len()
            invariant
                at <= from_plugins@.len(),
                before.wf(),
                self.wf(),
                self@ == (EngineModel {
                    ledger: reported(before.ledger, from_plugins@, at as nat),
                    ..before
                }),
            decreases from_plugins@.len() - at,
        {
            if let Event::Note(NoteEvent::NoteEnd { note_id: Some(id), .. }) = from_plugins[at] {
                self.ledger.finished(id);
                assert(self@.note_marks == before.note_marks);
                assert(self@.wf());
            }
            at += 1;
        }
        self.ledger.end_block(ended);
        assert(self@.note_marks == before.note_marks);
    }

    fn mark_of(&self, buf: u16, row: usize) -> (r: usize)
        requires
            self.wf(),
        ensures
            r == self@.mark_of(buf as int, row as int),
            r <= self@.events_in(buf as int),
    {
        let len: usize = if (buf as usize) < self.notes.bufs.len() {
            assert(self@.notes.bufs[buf as int] == self.notes.bufs@[buf as int]@);
            self.notes.bufs[buf as usize].events.len()
        } else {
            0
        };
        if row < self.note_marks.len() && (buf as usize) < MAX_NOTE_BUFS {
            assert(self@.note_marks[row as int] == self.note_marks@[row as int]@);
            let mark: usize = self.note_marks[row][buf as usize] as usize;
            if mark < len {
                mark
            } else {
                len
            }
        } else {
            len
        }
    }

    /// Where the rows from `first` to before `end` lie in a note buffer. It holds
    /// the whole block, so this is how the audio half finds a chunk's events.
    pub fn note_slice(&self, buf: u16, first: usize, end: usize) -> (r: (usize, usize))
        requires
            self.wf(),
        ensures
            (r.0 as int, r.1 as int) == self@.rows_of(buf as int, first as int, end as int),
            r.0 <= r.1 <= self@.events_in(buf as int),
    {
        let len: usize = if (buf as usize) < self.notes.bufs.len() {
            assert(self@.notes.bufs[buf as int] == self.notes.bufs@[buf as int]@);
            self.notes.bufs[buf as usize].events.len()
        } else {
            0
        };
        let from: usize = self.mark_of(buf, first);
        let to: usize = if end >= self.note_rows {
            len
        } else {
            self.mark_of(buf, end)
        };
        (
            from,
            if to < from {
                from
            } else {
                to
            },
        )
    }
}

impl Default for Engine {
    fn default() -> (r: Engine)
        ensures
            r.wf(),
            r@ == EngineModel::fresh(),
    {
        Engine::new()
    }
}

/// Drops the first `count` events, in place.
fn drop_first(events: &mut Vec<Event>, count: usize)
    requires
        count <= old(events)@.len(),
    ensures
        final(events)@ == old(events)@.skip(count as int),
{
    let ghost before = events@;
    let left: usize = events.len() - count;
    let mut at: usize = 0;
    while at < left
        invariant
            at <= left,
            left + count <= usize::MAX,
            left == before.len() - count,
            events@.len() == before.len(),
            forall|i: int| 0 <= i < at ==> #[trigger] events@[i] == before[count + i],
            forall|i: int| at <= i < before.len() ==> #[trigger] events@[i] == before[i],
        decreases left - at,
    {
        let event: Event = events[count + at];
        events[at] = event;
        at += 1;
    }
    events.truncate(left);
    assert(events@ =~= before.skip(count as int));
}

/// Where no program is loaded no oscillator runs: those of the program that is taken over
/// start at phase 0, whatever lies in the table.
pub proof fn law_oscillators_start_over_without_a_program(
    model: EngineModel,
    next: ProgramModel,
    publication: u64,
    i: int,
)
    requires
        model.wf(),
        model.program is None,
        0 <= i < next.lfo_nodes.len(),
        i < MAX_LFOS,
    ensures
        model.adopted(next, publication).params.lfos[i] == (LfoState {
            node: next.lfo_nodes[i],
            phase: Real::zeroed(),
            hold: Real::zeroed(),
        }),
{
    law_new_nodes_start_over(
        model.params,
        0,
        next.lfo_nodes,
        next.latch_nodes,
        next.delay_nodes,
        i,
    );
}

} // verus!
