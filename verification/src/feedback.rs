//! A program with a feedback loop, from the first stage to the last: it sounds the same at
//! any block size.
use vstd::prelude::*;
use crate::answering::{
    by_frame, lemma_answers_agree, lemma_answers_len, lemma_answers_split, lemma_same_answers,
    lemma_to_the_end, steady, work_is_written, Shown,
};
use crate::block::{heard_after, stepped, BlockRun, Phase};
use crate::block_size::{
    frame, law_block_size_does_not_matter, lemma_at_the_start, lemma_first_in_step,
    lemma_first_part, lemma_from_there_on, lemma_parts_stand, lemma_played_keeps,
    lemma_second_part, part, reads_are_written, same_frames, same_given, same_memory, same_samples,
    same_start, steps_in_a_chunk, stretch, written_by, BlockInput, Cutting, Pairing, Playing,
};
use crate::engine::EngineModel;
use crate::frames::{
    answers_agree, hands_part, keeps_nothing, law_a_stage_works_frame_by_frame, side_by_side,
    written_so_far,
};
use crate::ir::{Buf, Chunking, Stage};
use crate::number::Sample;
use crate::program::ProgramModel;
use crate::run::{lane_in, AudioAnswer};
use crate::schedule::{lemma_rows, rows_in, rows_view};
use crate::sound::silence;

verus! {

impl Playing {
    /// The next stage is up.
    pub open spec fn moved_on(self) -> Playing {
        Playing { run: self.run.entering(self.model, self.run.stage + 1), ..self }
    }

    /// The first `count` stages run, each with its own answers.
    pub open spec fn stages_played(
        self,
        given: BlockInput,
        lists: Seq<Seq<AudioAnswer>>,
        count: nat,
    ) -> Playing
        decreases count,
    {
        if count == 0 {
            self
        } else {
            self.stages_played(given, lists, (count - 1) as nat).played_on(
                given,
                lists[count - 1],
            ).moved_on()
        }
    }
}

/// A run of the audio of every stage, at the start of one of them.
pub open spec fn run_at(program: ProgramModel, stage: int) -> BlockRun {
    BlockRun {
        stage: stage as usize,
        until_stage: program.stages.len() as usize,
        first_row: 0,
        until_row: 0,
        params: false,
        audio: true,
        phase: if stage < program.stages.len() {
            Phase::Audio {
                start: 0,
                row: 0,
                at: program.stages[stage].audio.start as usize,
                tap: 0,
            }
        } else {
            Phase::Over
        },
    }
}

/// What the stages before one leave written.
pub open spec fn written_before(program: ProgramModel, stage: nat) -> Set<(Buf, int)>
    decreases stage,
{
    if stage == 0 {
        Set::empty()
    } else {
        let audio = program.stages[stage - 1].audio;
        written_before(program, (stage - 1) as nat).union(
            written_by(
                program.audio_ops,
                program.buffers,
                audio.start as int,
                audio.end as int,
            ),
        )
    }
}

/// A program with one stage that runs a sub-block at a time. The others keep nothing, and
/// no operation reads what has not been written.
pub open spec fn one_loop(program: ProgramModel, looped: int) -> bool {
    &&& program.fits()
    &&& !program.idle()
    &&& program.stages.len() < usize::MAX
    &&& 0 <= looped < program.stages.len()
    &&& forall|j: int|
        0 <= j < program.stages.len() ==> reads_are_written(
            program,
            #[trigger] program.stages[j],
            written_before(program, j as nat),
        )
    &&& program.stages[looped].chunking is SubBlock
    &&& forall|j: int|
        0 <= j < program.stages.len() && j != looped ==> works_by_frame(
            program,
            #[trigger] program.stages[j],
        )
}

/// A stage that runs over the whole block at once and keeps nothing.
pub open spec fn works_by_frame(program: ProgramModel, stage: Stage) -> bool {
    &&& stage.chunking is WholeBlock
    &&& forall|k: int|
        stage.audio.start <= k < stage.audio.end ==> keeps_nothing(
            #[trigger] program.audio_ops[k],
        )
}

/// The audio of one block, and the same sound in two blocks, with the answers each is given
/// stage by stage.
pub struct Performance {
    pub whole: BlockInput,
    pub first: BlockInput,
    pub second: BlockInput,
    /// Of what the DAW is handed.
    pub channels: nat,
    /// The stage that runs a sub-block at a time.
    pub looped: int,
    pub long: Playing,
    pub short: Playing,
    pub later: Playing,
    pub long_answers: Seq<Seq<AudioAnswer>>,
    pub short_answers: Seq<Seq<AudioAnswer>>,
    pub later_answers: Seq<Seq<AudioAnswer>>,
}

impl Performance {
    pub open spec fn program(self) -> ProgramModel {
        self.long.model.program->0
    }

    pub open spec fn stages(self) -> nat {
        self.program().stages.len()
    }

    pub open spec fn long_at(self, j: nat) -> Playing {
        self.long.stages_played(self.whole, self.long_answers, j)
    }

    pub open spec fn short_at(self, j: nat) -> Playing {
        self.short.stages_played(self.first, self.short_answers, j)
    }

    pub open spec fn later_at(self, j: nat) -> Playing {
        self.later.stages_played(self.second, self.later_answers, j)
    }

    /// How many sub-blocks the first block has.
    pub open spec fn rows(self) -> int {
        self.first.frames as int / self.first.quantum as int
    }

    /// The blocks add up, and each is handed its part of what the long one is handed.
    pub open spec fn blocks_join(self) -> bool {
        &&& self.whole.frames == self.first.frames + self.second.frames
        &&& 0 < self.first.frames
        &&& 0 < self.second.frames
        &&& self.first.frames as int % self.first.quantum as int == 0
        &&& same_given(self.whole, self.first, 0, 0)
        &&& same_given(self.whole, self.second, self.first.frames as int, self.rows())
    }

    /// One engine at the start of a stage.
    pub open spec fn stands(self, p: Playing, given: BlockInput, j: nat) -> bool {
        &&& p.model.wf()
        &&& p.model.program == Some(self.program())
        &&& p.run == run_at(self.program(), j as int)
        &&& given.frames <= p.model.sound.stride
        &&& p.heard.len() == self.channels * given.frames
    }

    /// All three run the same program. The first block starts from the memory that the long
    /// one starts from, and the second from that which the first left. What the DAW has been
    /// handed so far is the same.
    pub open spec fn engines_agree(self) -> bool {
        &&& self.long.model.program is Some
        &&& one_loop(self.program(), self.looped)
        &&& self.stands(self.long, self.whole, 0)
        &&& self.stands(self.short, self.first, 0)
        &&& self.stands(self.later, self.second, 0)
        &&& same_start(self.long, self.short)
        &&& self.short_at(self.stages()).model.params == self.later.model.params
        &&& same_memory(self.short_at(self.stages()).model.sound, self.later.model.sound)
        &&& self.long.model.sound.daw_inputs == self.later.model.sound.daw_inputs
        &&& self.heard_agree(self.long, self.short, self.later)
    }

    pub open spec fn heard_agree(self, l: Playing, s: Playing, t: Playing) -> bool {
        let n = self.first.frames as int;
        let m = self.second.frames as int;
        let f = self.whole.frames as int;
        &&& same_frames(l.heard, f, 0, s.heard, n, self.channels, n)
        &&& same_frames(l.heard, f, n, t.heard, m, self.channels, m)
    }

    /// The answers of a stage that works frame by frame agree frame by frame, and there is one
    /// for each of its steps. In the stage that runs a sub-block at a time those to the two
    /// blocks are, one after the other, those to the long one, and they bring it to its end.
    pub open spec fn answers_join(self, j: nat) -> bool {
        let stage = self.program().stages[j as int];
        let n = self.first.frames as int;
        let ls = self.long_answers[j as int];
        let ss = self.short_answers[j as int];
        let ts = self.later_answers[j as int];
        if j == self.looped {
            &&& ls == ss + ts
            &&& ss.len() == self.rows() * steps_in_a_chunk(stage)
            &&& self.later_at(j).played_on(self.second, ts).chunk(self.second) is None
        } else {
            &&& ss.len() == steps_in_a_chunk(stage)
            &&& answers_agree(self.long_at(j), self.short_at(j), self.whole, self.first, 0, ls, ss)
            &&& answers_agree(self.long_at(j), self.later_at(j), self.whole, self.second, n, ls, ts)
        }
    }

    /// The first block is given an answer for each of its steps.
    pub open spec fn short_is_answered(self) -> bool {
        &&& forall|k: int|
            0 <= k < self.stages() && k != self.looped ==> (#[trigger] self.short_answers[k]).len()
                == steps_in_a_chunk(self.program().stages[k])
        &&& self.short_answers[self.looped].len() == self.rows() * steps_in_a_chunk(
            self.program().stages[self.looped],
        )
    }

    /// All three at the start of a stage, with the same before them.
    spec fn abreast(self, j: nat) -> bool {
        let l = self.long_at(j);
        let s = self.short_at(j);
        let t = self.later_at(j);
        let n = self.first.frames as int;
        let m = self.second.frames as int;
        let base = written_before(self.program(), j);
        &&& self.stands(l, self.whole, j)
        &&& self.stands(s, self.first, j)
        &&& self.stands(t, self.second, j)
        &&& self.heard_agree(l, s, t)
        &&& l.model.sound.daw_inputs == s.model.sound.daw_inputs
        &&& l.model.sound.daw_inputs == t.model.sound.daw_inputs
        &&& same_samples(
            base,
            l.model.sound,
            stretch(self.whole, 0, n),
            s.model.sound,
            stretch(self.first, 0, n),
        )
        &&& same_samples(
            base,
            l.model.sound,
            stretch(self.whole, n, m),
            t.model.sound,
            stretch(self.second, 0, m),
        )
    }
}

/// From the end of one stage to the start of the next.
proof fn lemma_moved_on(perf: Performance, p: Playing, j: nat)
    requires
        one_loop(perf.program(), perf.looped),
        j < perf.stages(),
        p.model.program == Some(perf.program()),
        p.run == (BlockRun { phase: p.run.phase, ..run_at(perf.program(), j as int) }),
    ensures
        p.moved_on().run == run_at(perf.program(), (j + 1) as int),
        p.moved_on().model == p.model,
        p.moved_on().heard == p.heard,
{
}

/// Two runs at the start of a stage that works frame by frame stand side by side.
proof fn lemma_side_by_side(
    perf: Performance,
    j: nat,
    p: Playing,
    q: Playing,
    given: BlockInput,
    shift: int,
)
    requires
        one_loop(perf.program(), perf.looped),
        j < perf.stages(),
        j != perf.looped,
        0 <= shift,
        0 < given.frames,
        shift + given.frames <= perf.whole.frames,
        perf.stands(p, perf.whole, j),
        perf.stands(q, given, j),
        p.model.sound.daw_inputs == q.model.sound.daw_inputs,
        same_samples(
            written_before(perf.program(), j),
            p.model.sound,
            stretch(perf.whole, shift, given.frames as int),
            q.model.sound,
            stretch(given, 0, given.frames as int),
        ),
        same_frames(
            p.heard,
            perf.whole.frames as int,
            shift,
            q.heard,
            given.frames as int,
            perf.channels,
            given.frames as int,
        ),
    ensures
        side_by_side(
            p,
            q,
            perf.whole,
            given,
            perf.channels,
            shift,
            written_before(perf.program(), j),
        ),
        p.stage() == perf.program().stages[j as int],
        q.stage() == perf.program().stages[j as int],
{
    let program = perf.program();
    let stage = program.stages[j as int];
    let base = written_before(program, j);
    assert(works_by_frame(program, stage));
    assert(reads_are_written(program, program.stages[j as int], base));
    assert(stage.audio.fits(program.audio_ops.len()));
    assert(p.stage() == stage);
    assert(q.stage() == stage);
    assert(written_by(
        program.audio_ops,
        program.buffers,
        stage.audio.start as int,
        stage.audio.start as int,
    ) =~= Set::empty());
    assert(written_so_far(q, base) =~= base);
}

/// A stage that works frame by frame keeps the long block abreast of one of the two.
#[verifier::spinoff_prover]
proof fn lemma_by_frame(
    perf: Performance,
    j: nat,
    p: Playing,
    q: Playing,
    given: BlockInput,
    shift: int,
    xs: Seq<AudioAnswer>,
    ys: Seq<AudioAnswer>,
)
    requires
        one_loop(perf.program(), perf.looped),
        j < perf.stages(),
        j != perf.looped,
        0 <= shift,
        0 < given.frames,
        shift + given.frames <= perf.whole.frames,
        hands_part(perf.whole, given, shift),
        perf.stands(p, perf.whole, j),
        perf.stands(q, given, j),
        p.model.sound.daw_inputs == q.model.sound.daw_inputs,
        same_samples(
            written_before(perf.program(), j),
            p.model.sound,
            stretch(perf.whole, shift, given.frames as int),
            q.model.sound,
            stretch(given, 0, given.frames as int),
        ),
        same_frames(
            p.heard,
            perf.whole.frames as int,
            shift,
            q.heard,
            given.frames as int,
            perf.channels,
            given.frames as int,
        ),
        answers_agree(p, q, perf.whole, given, shift, xs, ys),
        ys.len() == steps_in_a_chunk(perf.program().stages[j as int]),
    ensures
        ({
            let pp = p.played_on(perf.whole, xs).moved_on();
            let qq = q.played_on(given, ys).moved_on();
            &&& perf.stands(pp, perf.whole, j + 1)
            &&& perf.stands(qq, given, j + 1)
            &&& same_memory(pp.model.sound, p.model.sound)
            &&& same_memory(qq.model.sound, q.model.sound)
            &&& pp.model.sound.stride == p.model.sound.stride
            &&& pp.model.params == p.model.params
            &&& qq.model.params == q.model.params
            &&& same_samples(
                written_before(perf.program(), j + 1),
                pp.model.sound,
                stretch(perf.whole, shift, given.frames as int),
                qq.model.sound,
                stretch(given, 0, given.frames as int),
            )
            &&& same_frames(
                pp.heard,
                perf.whole.frames as int,
                shift,
                qq.heard,
                given.frames as int,
                perf.channels,
                given.frames as int,
            )
        }),
{
    let program = perf.program();
    let base = written_before(program, j);
    lemma_side_by_side(perf, j, p, q, given, shift);
    law_a_stage_works_frame_by_frame(
        p,
        q,
        perf.whole,
        given,
        perf.channels,
        shift,
        base,
        xs,
        ys,
    );
    let pe = p.played_on(perf.whole, xs);
    let qe = q.played_on(given, ys);
    lemma_moved_on(perf, pe, j);
    lemma_moved_on(perf, qe, j);
    assert(qe.start() == given.frames);
    assert(written_so_far(qe, base) == written_before(program, j + 1));
}

/// A stage that works frame by frame leaves the memory as it is.
proof fn lemma_keeps_memory(
    perf: Performance,
    j: nat,
    p: Playing,
    given: BlockInput,
    answers: Seq<AudioAnswer>,
)
    requires
        one_loop(perf.program(), perf.looped),
        j < perf.stages(),
        j != perf.looped,
        0 < given.frames,
        perf.stands(p, given, j),
        answers.len() == steps_in_a_chunk(perf.program().stages[j as int]),
    ensures
        perf.stands(p.played_on(given, answers).moved_on(), given, j + 1),
        same_memory(p.played_on(given, answers).moved_on().model.sound, p.model.sound),
        p.played_on(given, answers).moved_on().model.sound.stride == p.model.sound.stride,
        p.played_on(given, answers).moved_on().model.params == p.model.params,
{
    let alone = Performance { whole: given, ..perf };
    assert(answers_agree(p, p, given, given, 0, answers, answers));
    lemma_by_frame(alone, j, p, p, given, 0, answers, answers);
}

/// Behind the loop the first block leaves its memory as it is.
proof fn lemma_first_is_through(perf: Performance, from: nat, j: nat)
    requires
        one_loop(perf.program(), perf.looped),
        perf.looped < from <= j <= perf.stages(),
        0 < perf.first.frames,
        perf.stands(perf.short_at(from), perf.first, from),
        perf.short_is_answered(),
    ensures
        perf.stands(perf.short_at(j), perf.first, j),
        same_memory(perf.short_at(j).model.sound, perf.short_at(from).model.sound),
        perf.short_at(j).model.params == perf.short_at(from).model.params,
    decreases j,
{
    if from < j {
        lemma_first_is_through(perf, from, (j - 1) as nat);
        lemma_keeps_memory(
            perf,
            (j - 1) as nat,
            perf.short_at((j - 1) as nat),
            perf.first,
            perf.short_answers[j - 1],
        );
    }
}

/// One stage that works frame by frame, in all three.
proof fn lemma_one_stage(perf: Performance, j: nat)
    requires
        perf.blocks_join(),
        one_loop(perf.program(), perf.looped),
        j < perf.stages(),
        j != perf.looped,
        perf.abreast(j),
        perf.answers_join(j),
    ensures
        perf.abreast(j + 1),
        same_memory(perf.long_at(j + 1).model.sound, perf.long_at(j).model.sound),
        same_memory(perf.short_at(j + 1).model.sound, perf.short_at(j).model.sound),
        same_memory(perf.later_at(j + 1).model.sound, perf.later_at(j).model.sound),
        perf.long_at(j + 1).model.params == perf.long_at(j).model.params,
        perf.short_at(j + 1).model.params == perf.short_at(j).model.params,
        perf.later_at(j + 1).model.params == perf.later_at(j).model.params,
{
    let n = perf.first.frames as int;
    let ls = perf.long_answers[j as int];
    lemma_by_frame(
        perf,
        j,
        perf.long_at(j),
        perf.short_at(j),
        perf.first,
        0,
        ls,
        perf.short_answers[j as int],
    );
    lemma_by_frame(
        perf,
        j,
        perf.long_at(j),
        perf.later_at(j),
        perf.second,
        n,
        ls,
        perf.later_answers[j as int],
    );
}

/// Up to the loop nothing is kept.
proof fn lemma_up_to_the_loop(perf: Performance, j: nat)
    requires
        perf.blocks_join(),
        perf.engines_agree(),
        j <= perf.looped,
        forall|k: nat| k < j ==> #[trigger] perf.answers_join(k),
    ensures
        perf.abreast(j),
        same_memory(perf.long_at(j).model.sound, perf.long.model.sound),
        same_memory(perf.short_at(j).model.sound, perf.short.model.sound),
        same_memory(perf.later_at(j).model.sound, perf.later.model.sound),
        perf.long_at(j).model.params == perf.long.model.params,
        perf.short_at(j).model.params == perf.short.model.params,
        perf.later_at(j).model.params == perf.later.model.params,
    decreases j,
{
    if j > 0 {
        lemma_up_to_the_loop(perf, (j - 1) as nat);
        assert(perf.answers_join((j - 1) as nat));
        lemma_one_stage(perf, (j - 1) as nat);
    }
}

/// The audio of the loop, cut in two.
spec fn cut_loop(perf: Performance) -> Cutting {
    let j = perf.looped as nat;
    Cutting {
        whole: perf.whole,
        first: perf.first,
        second: perf.second,
        channels: perf.channels,
        base: written_before(perf.program(), j),
        long: perf.long_at(j),
        short: perf.short_at(j),
        later: perf.later_at(j),
    }
}

/// At the loop all three have the same before them.
#[verifier::spinoff_prover]
proof fn lemma_at_the_loop(perf: Performance)
    requires
        perf.blocks_join(),
        perf.engines_agree(),
        forall|k: nat| k < perf.looped ==> #[trigger] perf.answers_join(k),
    ensures
        perf.abreast(perf.looped as nat),
        cut_loop(perf).lengths_fit(),
        cut_loop(perf).first_agrees(),
        cut_loop(perf).second_agrees(),
        cut_loop(perf).short.stage() == perf.program().stages[perf.looped],
        cut_loop(perf).later.stage() == perf.program().stages[perf.looped],
        same_memory(perf.later_at(perf.looped as nat).model.sound, perf.later.model.sound),
        perf.later_at(perf.looped as nat).model.params == perf.later.model.params,
{
    let j = perf.looped as nat;
    let stage = perf.program().stages[j as int];
    let cut = cut_loop(perf);
    lemma_up_to_the_loop(perf, j);
    assert(stage.audio.fits(perf.program().audio_ops.len()));
    assert(reads_are_written(perf.program(), perf.program().stages[j as int], cut.base));
}

/// The first block is through the loop.
#[verifier::spinoff_prover]
proof fn lemma_first_through_loop(perf: Performance)
    requires
        perf.blocks_join(),
        perf.engines_agree(),
        perf.short_is_answered(),
        forall|k: nat| k < perf.looped ==> #[trigger] perf.answers_join(k),
    ensures
        perf.stands(perf.short_at((perf.looped + 1) as nat), perf.first, (perf.looped + 1) as nat),
        same_start(
            perf.short_at(perf.looped as nat).played_on(
                perf.first,
                perf.short_answers[perf.looped],
            ),
            perf.later_at(perf.looped as nat),
        ),
{
    let j = perf.looped as nat;
    let cut = cut_loop(perf);
    let ss = perf.short_answers[j as int];
    lemma_at_the_loop(perf);
    lemma_first_part(cut, ss);
    let two = cut.short.played_on(cut.first, ss);
    lemma_played_keeps(cut.short, cut.first, ss);
    lemma_moved_on(perf, two, j);
    assert(perf.short_at(j + 1) == two.moved_on());
    let tw = cut.first_pair().twins(cut.long.played_on(cut.whole, ss), two);
    assert(tw.bt.fits(two.model.sound.stride));
    assert(perf.stands(perf.short_at(j + 1), perf.first, j + 1));
    lemma_first_is_through(perf, j + 1, perf.stages());
}

/// Where the long block and the second stand behind the loop.
#[verifier::rlimit(60)]
#[verifier::spinoff_prover]
proof fn lemma_stands_behind_the_loop(perf: Performance)
    requires
        perf.blocks_join(),
        perf.engines_agree(),
        perf.short_is_answered(),
        forall|k: nat| k <= perf.looped ==> #[trigger] perf.answers_join(k),
    ensures
        perf.stands(perf.long_at((perf.looped + 1) as nat), perf.whole, (perf.looped + 1) as nat),
        perf.stands(perf.later_at((perf.looped + 1) as nat), perf.second, (perf.looped + 1) as nat),
        perf.long_at((perf.looped + 1) as nat).model.sound.daw_inputs == perf.short_at(
            (perf.looped + 1) as nat,
        ).model.sound.daw_inputs,
{
    let j = perf.looped as nat;
    let cut = cut_loop(perf);
    let ss = perf.short_answers[j as int];
    let ts = perf.later_answers[j as int];
    lemma_at_the_loop(perf);
    lemma_first_through_loop(perf);
    assert(perf.answers_join(j));
    lemma_parts_stand(cut, ss, ts);
    let one = cut.long.played_on(cut.whole, ss + ts);
    let three = cut.later.played_on(cut.second, ts);
    lemma_played_keeps(cut.long, cut.whole, ss + ts);
    lemma_played_keeps(cut.later, cut.second, ts);
    lemma_moved_on(perf, one, j);
    lemma_moved_on(perf, three, j);
    assert(perf.long_at(j + 1) == one.moved_on());
    assert(perf.later_at(j + 1) == three.moved_on());
    assert(perf.short_at(j + 1).model == cut.short.played_on(cut.first, ss).model);
}

/// The loop, in all three.
#[verifier::spinoff_prover]
proof fn lemma_through_the_loop(perf: Performance)
    requires
        perf.blocks_join(),
        perf.engines_agree(),
        perf.short_is_answered(),
        forall|k: nat| k <= perf.looped ==> #[trigger] perf.answers_join(k),
    ensures
        ({
            let j = (perf.looped + 1) as nat;
            &&& perf.abreast(j)
            &&& perf.long_at(j).model.params == perf.later_at(j).model.params
            &&& same_memory(perf.long_at(j).model.sound, perf.later_at(j).model.sound)
        }),
{
    let j = perf.looped as nat;
    let cut = cut_loop(perf);
    let ss = perf.short_answers[j as int];
    let ts = perf.later_answers[j as int];
    lemma_at_the_loop(perf);
    lemma_first_through_loop(perf);
    lemma_stands_behind_the_loop(perf);
    assert(perf.answers_join(j));
    law_block_size_does_not_matter(cut, ss, ts);
    assert(perf.long_at(j + 1).model == cut.long.played_on(cut.whole, ss + ts).model);
    assert(perf.long_at(j + 1).heard == cut.long.played_on(cut.whole, ss + ts).heard);
    assert(perf.short_at(j + 1).model == cut.short.played_on(cut.first, ss).model);
    assert(perf.short_at(j + 1).heard == cut.short.played_on(cut.first, ss).heard);
    assert(perf.later_at(j + 1).model == cut.later.played_on(cut.second, ts).model);
    assert(perf.later_at(j + 1).heard == cut.later.played_on(cut.second, ts).heard);
    assert(cut.full() == written_before(perf.program(), j + 1));
}

/// Behind the loop nothing more is kept.
proof fn lemma_behind_the_loop(perf: Performance, j: nat)
    requires
        perf.blocks_join(),
        perf.engines_agree(),
        perf.looped < j <= perf.stages(),
        perf.short_is_answered(),
        forall|k: nat| k < j ==> #[trigger] perf.answers_join(k),
    ensures
        perf.abreast(j),
        perf.long_at(j).model.params == perf.later_at(j).model.params,
        same_memory(perf.long_at(j).model.sound, perf.later_at(j).model.sound),
    decreases j,
{
    if j == perf.looped + 1 {
        lemma_through_the_loop(perf);
    } else {
        lemma_behind_the_loop(perf, (j - 1) as nat);
        assert(perf.answers_join((j - 1) as nat));
        lemma_one_stage(perf, (j - 1) as nat);
    }
}

/// Running the audio of every stage starts at `run_at`, and a step at the end of a stage
/// does nothing but move on to the next.
pub proof fn law_stages_follow_one_another(p: Playing, given: BlockInput)
    requires
        p.model.program is Some,
        !p.model.program->0.idle(),
        p.model.program->0.stages.len() < usize::MAX,
    ensures
        (BlockRun {
            stage: 0,
            until_stage: p.model.stage_count() as usize,
            first_row: 0,
            until_row: 0,
            params: false,
            audio: true,
            phase: Phase::Over,
        }).entering(p.model, 0) == run_at(p.model.program->0, 0),
        p.run.phase is Audio && p.run.cut(p.model) is Some && p.chunk(given) is None ==> {
            &&& p.run.stepped(p.model, given.frames, given.quantum) == p.moved_on().run
            &&& stepped(
                p.model,
                p.run,
                rows_view(given.rows),
                given.frames,
                given.quantum,
                given.daw_in,
            ).0 == p.moved_on().model
            &&& heard_after(p.model, p.run, given.frames, given.quantum, p.heard)
                == p.moved_on().heard
        },
{
}

/// Whatever the answers are, a long block sounds as two that add up to it, the first made of
/// whole sub-blocks, and leaves the engine as they do.
///
/// That is so where the stages around the loop keep nothing, where nothing is read that
/// has not been written, and where the answers to the two blocks are those to the long one:
/// in the loop one after the other, around it each its part.
pub proof fn law_two_blocks_sound_as_one(perf: Performance)
    requires
        perf.blocks_join(),
        perf.engines_agree(),
        forall|k: nat| k < perf.stages() ==> #[trigger] perf.answers_join(k),
    ensures
        ({
            let one = perf.long_at(perf.stages());
            let two = perf.short_at(perf.stages());
            let three = perf.later_at(perf.stages());
            &&& perf.heard_agree(one, two, three)
            &&& one.model.params == three.model.params
            &&& same_memory(one.model.sound, three.model.sound)
            &&& one.run.phase is Over
            &&& two.run.phase is Over
            &&& three.run.phase is Over
        }),
{
    assert forall|k: int| 0 <= k < perf.stages() && k != perf.looped implies (
    #[trigger] perf.short_answers[k]).len() == steps_in_a_chunk(perf.program().stages[k]) by {
        assert(perf.answers_join(k as nat));
    }
    assert(perf.answers_join(perf.looped as nat));
    lemma_behind_the_loop(perf, perf.stages());
}

/// How many chunks a stage cuts a block into.
pub open spec fn chunks_in(stage: Stage, given: BlockInput) -> nat {
    match stage.chunking {
        Chunking::WholeBlock => 1,
        Chunking::SubBlock => rows_in(given.frames, given.quantum) as nat,
    }
}

/// How many steps a stage takes over a block.
pub open spec fn steps_of_stage(program: ProgramModel, j: int, given: BlockInput) -> nat {
    chunks_in(program.stages[j], given) * steps_in_a_chunk(program.stages[j])
}

impl Playing {
    /// The first `count` stages run, everything they ask for answered.
    pub open spec fn performed(
        self,
        given: BlockInput,
        answer: spec_fn(Shown) -> AudioAnswer,
        count: nat,
    ) -> Playing
        decreases count,
    {
        if count == 0 {
            self
        } else {
            let before = self.performed(given, answer, (count - 1) as nat);
            let steps = steps_of_stage(self.model.program->0, count - 1, given);
            before.played_on(given, before.answers(given, answer, steps)).moved_on()
        }
    }

    /// The answers to each stage.
    spec fn answers_to_stages(
        self,
        given: BlockInput,
        answer: spec_fn(Shown) -> AudioAnswer,
        stages: nat,
    ) -> Seq<Seq<AudioAnswer>> {
        Seq::new(
            stages,
            |j: int|
                self.performed(given, answer, j as nat).answers(
                    given,
                    answer,
                    steps_of_stage(self.model.program->0, j, given),
                ),
        )
    }
}

/// An engine about to run the audio of a block, with nothing handed to the DAW yet.
pub open spec fn block_begun(model: EngineModel, given: BlockInput, channels: nat) -> Playing {
    Playing {
        model,
        run: run_at(model.program->0, 0),
        heard: silence((channels * given.frames) as nat),
    }
}

/// A block run to its end, everything it asks for answered.
pub open spec fn block_played(
    model: EngineModel,
    given: BlockInput,
    channels: nat,
    answer: spec_fn(Shown) -> AudioAnswer,
) -> Playing {
    block_begun(model, given, channels).performed(
        given,
        answer,
        model.program->0.stages.len(),
    )
}

/// A program with one loop whose work, too, reads only what has been written. Around the
/// loop no lane drives a mix.
pub open spec fn closed_loop(program: ProgramModel, looped: int) -> bool {
    &&& one_loop(program, looped)
    &&& forall|j: int|
        0 <= j < program.stages.len() ==> work_is_written(
            program,
            #[trigger] program.stages[j],
            written_before(program, j as nat),
        )
    &&& forall|j: int|
        0 <= j < program.stages.len() && j != looped ==> stays_steady(
            program,
            #[trigger] program.stages[j],
        )
}

pub open spec fn stays_steady(program: ProgramModel, stage: Stage) -> bool {
    forall|k: int|
        stage.audio.start <= k < stage.audio.end ==> steady(#[trigger] program.audio_ops[k])
}

proof fn lemma_stages_answered(
    p: Playing,
    given: BlockInput,
    answer: spec_fn(Shown) -> AudioAnswer,
    stages: nat,
    j: nat,
)
    requires
        j <= stages,
    ensures
        p.stages_played(given, p.answers_to_stages(given, answer, stages), j) == p.performed(
            given,
            answer,
            j,
        ),
    decreases j,
{
    if j > 0 {
        lemma_stages_answered(p, given, answer, stages, (j - 1) as nat);
    }
}

/// One block against the same in two, everything answered alike.
spec fn performance(
    model: EngineModel,
    whole: BlockInput,
    first: BlockInput,
    second: BlockInput,
    channels: nat,
    looped: int,
    answer: spec_fn(Shown) -> AudioAnswer,
) -> Performance {
    let stages = model.program->0.stages.len();
    let long = block_begun(model, whole, channels);
    let short = block_begun(model, first, channels);
    let later = block_begun(
        block_played(model, first, channels, answer).model,
        second,
        channels,
    );
    Performance {
        whole,
        first,
        second,
        channels,
        looped,
        long,
        short,
        later,
        long_answers: long.answers_to_stages(whole, answer, stages),
        short_answers: short.answers_to_stages(first, answer, stages),
        later_answers: later.answers_to_stages(second, answer, stages),
    }
}

/// A stage that runs a sub-block at a time leaves the engine whole.
#[verifier::spinoff_prover]
proof fn lemma_loop_alone(
    perf: Performance,
    p: Playing,
    given: BlockInput,
    answers: Seq<AudioAnswer>,
)
    requires
        one_loop(perf.program(), perf.looped),
        0 < given.frames,
        0 < given.quantum,
        perf.stands(p, given, perf.looped as nat),
    ensures
        perf.stands(
            p.played_on(given, answers).moved_on(),
            given,
            (perf.looped + 1) as nat,
        ),
        p.played_on(given, answers).moved_on().model.sound.daw_inputs == p.model.sound.daw_inputs,
        p.played_on(given, answers).moved_on().model.sound.stride == p.model.sound.stride,
{
    let j = perf.looped as nat;
    let program = perf.program();
    let stage = program.stages[j as int];
    let pair = Pairing {
        p_given: given,
        q_given: given,
        channels: perf.channels,
        shift: 0,
        rows: 0,
        base: written_before(program, j),
        first: p,
    };
    assert(stage.audio.fits(program.audio_ops.len()));
    assert(reads_are_written(program, program.stages[j as int], pair.base));
    assert(0 * given.quantum == 0) by (nonlinear_arith);
    lemma_at_the_start(pair, p, p);
    assert(pair.in_step(p, p));
    lemma_from_there_on(pair, p, p, answers);
    let pp = p.played_on(given, answers);
    let tw = pair.twins(pp, pp);
    assert(tw.bt.fits(pp.model.sound.stride));
    lemma_played_keeps(p, given, answers);
    lemma_moved_on(perf, pp, j);
}

/// A block by itself comes through all of its stages.
proof fn lemma_alone(
    perf: Performance,
    p: Playing,
    given: BlockInput,
    answer: spec_fn(Shown) -> AudioAnswer,
    j: nat,
)
    requires
        one_loop(perf.program(), perf.looped),
        0 < given.frames,
        0 < given.quantum,
        perf.stands(p, given, 0),
        j <= perf.stages(),
    ensures
        perf.stands(p.performed(given, answer, j), given, j),
        p.performed(given, answer, j).model.sound.daw_inputs == p.model.sound.daw_inputs,
        p.performed(given, answer, j).model.sound.stride == p.model.sound.stride,
    decreases j,
{
    if j > 0 {
        let i = (j - 1) as nat;
        lemma_alone(perf, p, given, answer, i);
        let before = p.performed(given, answer, i);
        let steps = steps_of_stage(perf.program(), i as int, given);
        let answers = before.answers(given, answer, steps);
        lemma_answers_len(before, given, answer, steps);
        if i == perf.looped {
            lemma_loop_alone(perf, before, given, answers);
        } else {
            assert(works_by_frame(perf.program(), perf.program().stages[i as int]));
            lemma_keeps_memory(perf, i, before, given, answers);
        }
    }
}

/// What is true of such a performance before it starts.
spec fn well_set(perf: Performance, answer: spec_fn(Shown) -> AudioAnswer) -> bool {
    &&& perf == performance(
        perf.long.model,
        perf.whole,
        perf.first,
        perf.second,
        perf.channels,
        perf.looped,
        answer,
    )
    &&& perf.long.model.wf()
    &&& perf.long.model.program is Some
    &&& closed_loop(perf.program(), perf.looped)
    &&& by_frame(answer)
    &&& perf.blocks_join()
    &&& perf.whole.frames <= perf.long.model.sound.stride
}

proof fn lemma_silent_start(channels: nat, n: int, f: int, from: int)
    requires
        0 <= from,
        0 <= n,
        from + n <= f,
    ensures
        same_frames(
            silence((channels * f) as nat),
            f,
            from,
            silence((channels * n) as nat),
            n,
            channels,
            n,
        ),
        silence((channels * n) as nat).len() == channels * n,
{
    assert(0 <= channels * n) by (nonlinear_arith)
        requires
            0 <= channels,
            0 <= n,
    ;
    assert forall|ch: int, i: int| 0 <= ch < channels && 0 <= i < n implies #[trigger] frame(
        silence((channels * n) as nat),
        n,
        ch,
        i,
    ) == frame(silence((channels * f) as nat), f, ch, from + i) by {
        lemma_silent_frame(channels, n, ch, i);
        lemma_silent_frame(channels, f, ch, from + i);
    }
}

#[verifier::spinoff_prover]
proof fn lemma_engines_agree(perf: Performance, answer: spec_fn(Shown) -> AudioAnswer)
    requires
        well_set(perf, answer),
    ensures
        perf.engines_agree(),
        perf.later.model.program == Some(perf.program()),
        perf.later.model.sound.stride == perf.long.model.sound.stride,
        perf.short_at(perf.stages()) == block_played(
            perf.long.model,
            perf.first,
            perf.channels,
            answer,
        ),
{
    let stages = perf.stages();
    let n = perf.first.frames as int;
    let m = perf.second.frames as int;
    let f = perf.whole.frames as int;
    lemma_silent_start(perf.channels, n, f, 0);
    lemma_silent_start(perf.channels, m, f, n);
    lemma_silent_start(perf.channels, f, f, 0);
    assert(perf.stands(perf.short, perf.first, 0));
    lemma_stages_answered(perf.short, perf.first, answer, stages, stages);
    lemma_alone(perf, perf.short, perf.first, answer, stages);
    assert(perf.stands(perf.long, perf.whole, 0));
    assert(perf.stands(perf.later, perf.second, 0));
    assert(perf.heard_agree(perf.long, perf.short, perf.later));
}

proof fn lemma_silent_frame(channels: nat, frames: int, channel: int, i: int)
    requires
        0 <= channel < channels,
        0 <= i < frames,
    ensures
        frame(silence((channels * frames) as nat), frames, channel, i) == Sample::silent(),
{
    assert(0 <= channel * frames && channel * frames + frames <= channels * frames)
        by (nonlinear_arith)
        requires
            0 <= channel < channels,
            0 <= frames,
    ;
}

/// Around the loop the answers agree frame by frame.
#[verifier::spinoff_prover]
proof fn lemma_joins_around(perf: Performance, answer: spec_fn(Shown) -> AudioAnswer, j: nat)
    requires
        well_set(perf, answer),
        perf.later.model.program == Some(perf.program()),
        j < perf.stages(),
        j != perf.looped,
        perf.abreast(j),
    ensures
        perf.answers_join(j),
{
    let program = perf.program();
    let stage = program.stages[j as int];
    let stages = perf.stages();
    let n = perf.first.frames as int;
    let base = written_before(program, j);
    let steps = steps_in_a_chunk(stage);
    assert(works_by_frame(program, stage));
    assert(work_is_written(program, program.stages[j as int], base));
    assert(stays_steady(program, program.stages[j as int]));
    assert(chunks_in(stage, perf.whole) == 1);
    assert(1 * steps == steps) by (nonlinear_arith);
    lemma_stages_answered(perf.long, perf.whole, answer, stages, j);
    lemma_stages_answered(perf.short, perf.first, answer, stages, j);
    lemma_stages_answered(perf.later, perf.second, answer, stages, j);
    let l = perf.long_at(j);
    let s = perf.short_at(j);
    let t = perf.later_at(j);
    lemma_side_by_side(perf, j, l, s, perf.first, 0);
    lemma_side_by_side(perf, j, l, t, perf.second, n);
    lemma_answers_len(s, perf.first, answer, steps);
    lemma_answers_agree(
        l,
        s,
        perf.whole,
        perf.first,
        perf.channels,
        0,
        base,
        answer,
        steps,
    );
    lemma_answers_agree(
        l,
        t,
        perf.whole,
        perf.second,
        perf.channels,
        n,
        base,
        answer,
        steps,
    );
}

/// A block whose first part is made of whole sub-blocks has as many as its parts.
proof fn lemma_rows_add_up(first: u32, second: u32, whole: u32, quantum: u32)
    requires
        0 < quantum,
        first as int % quantum as int == 0,
        whole == first + second,
    ensures
        rows_in(first, quantum) == first as int / quantum as int,
        rows_in(whole, quantum) == rows_in(first, quantum) + rows_in(second, quantum),
        0 <= rows_in(first, quantum),
        0 <= rows_in(second, quantum),
{
    let q = quantum as int;
    let n = first as int / q;
    vstd::arithmetic::div_mod::lemma_fundamental_div_mod(first as int, q);
    assert(first == q * n);
    vstd::arithmetic::div_mod::lemma_div_pos_is_pos(first as int, q);
    vstd::arithmetic::div_mod::lemma_div_pos_is_pos(second + q - 1, q);
    vstd::arithmetic::div_mod::lemma_div_multiples_vanish_fancy(n, q - 1, q);
    vstd::arithmetic::div_mod::lemma_hoist_over_denominator(second + q - 1, n, q as nat);
    assert(n * q == q * n) by (nonlinear_arith);
}

/// In the loop the answers to the two blocks follow one another.
#[verifier::spinoff_prover]
proof fn lemma_joins_in_the_loop(perf: Performance, answer: spec_fn(Shown) -> AudioAnswer)
    requires
        well_set(perf, answer),
        perf.engines_agree(),
        perf.later.model.program == Some(perf.program()),
        perf.short_is_answered(),
        forall|k: nat| k < perf.looped ==> #[trigger] perf.answers_join(k),
    ensures
        perf.answers_join(perf.looped as nat),
{
    let j = perf.looped as nat;
    let program = perf.program();
    let stage = program.stages[j as int];
    let stages = perf.stages();
    let cut = cut_loop(perf);
    let per = steps_in_a_chunk(stage);
    lemma_at_the_loop(perf);
    lemma_first_through_loop(perf);
    lemma_stages_answered(perf.long, perf.whole, answer, stages, j);
    lemma_stages_answered(perf.short, perf.first, answer, stages, j);
    lemma_stages_answered(perf.later, perf.second, answer, stages, j);
    lemma_rows_add_up(
        perf.first.frames,
        perf.second.frames,
        perf.whole.frames,
        perf.whole.quantum,
    );
    let x = (rows_in(perf.first.frames, perf.first.quantum) * per) as nat;
    let y = (rows_in(perf.second.frames, perf.second.quantum) * per) as nat;
    let rows = rows_in(perf.first.frames, perf.first.quantum);
    let more = rows_in(perf.second.frames, perf.second.quantum);
    assert((rows + more) * per == rows * per + more * per && 0 <= rows * per && 0 <= more * per)
        by (nonlinear_arith)
        requires
            0 <= rows,
            0 <= more,
            0 <= per,
    ;
    assert(work_is_written(program, program.stages[j as int], cut.base));
    let ss = cut.short.answers(perf.first, answer, x);
    let ts = cut.later.answers(perf.second, answer, y);
    assert(perf.short_answers[j as int] == ss);
    assert(perf.later_answers[j as int] == ts);
    lemma_answers_len(cut.short, perf.first, answer, x);
    lemma_answers_len(cut.later, perf.second, answer, y);
    lemma_first_in_step(cut);
    lemma_same_answers(cut.first_pair(), cut.long, cut.short, answer, x);
    lemma_first_part(cut, ss);
    let mid = cut.long.played_on(cut.whole, ss);
    let two = cut.short.played_on(cut.first, ss);
    lemma_second_part(cut, mid, two);
    let pair = cut.second_pair(mid);
    lemma_same_answers(pair, mid, cut.later, answer, y);
    lemma_to_the_end(pair, mid, cut.later, ts);
    lemma_answers_split(cut.long, perf.whole, answer, x, y);
}

proof fn lemma_short_is_answered(perf: Performance, answer: spec_fn(Shown) -> AudioAnswer)
    requires
        well_set(perf, answer),
    ensures
        perf.short_is_answered(),
{
    let program = perf.program();
    assert forall|k: int| 0 <= k < perf.stages() implies (#[trigger] perf.short_answers[k]).len()
        == steps_of_stage(program, k, perf.first) by {
        lemma_answers_len(
            perf.short.performed(perf.first, answer, k as nat),
            perf.first,
            answer,
            steps_of_stage(program, k, perf.first),
        );
    }
    assert forall|k: int| 0 <= k < perf.stages() && k != perf.looped implies (
    #[trigger] perf.short_answers[k]).len() == steps_in_a_chunk(program.stages[k]) by {
        assert(works_by_frame(program, program.stages[k]));
        let per = steps_in_a_chunk(program.stages[k]);
        assert(1 * per == per) by (nonlinear_arith);
    }
    lemma_rows_add_up(
        perf.first.frames,
        perf.second.frames,
        perf.whole.frames,
        perf.whole.quantum,
    );
}

/// Up to a stage the three run abreast.
proof fn lemma_abreast(perf: Performance, j: nat)
    requires
        perf.blocks_join(),
        perf.engines_agree(),
        perf.short_is_answered(),
        j <= perf.stages(),
        forall|k: nat| k < j ==> #[trigger] perf.answers_join(k),
    ensures
        perf.abreast(j),
{
    if j <= perf.looped {
        lemma_up_to_the_loop(perf, j);
    } else {
        lemma_behind_the_loop(perf, j);
    }
}

#[verifier::spinoff_prover]
proof fn lemma_joins_next(perf: Performance, answer: spec_fn(Shown) -> AudioAnswer, j: nat)
    requires
        well_set(perf, answer),
        perf.engines_agree(),
        perf.later.model.program == Some(perf.program()),
        perf.short_is_answered(),
        j < perf.stages(),
        forall|k: nat| k < j ==> #[trigger] perf.answers_join(k),
    ensures
        perf.answers_join(j),
{
    if j == perf.looped {
        lemma_joins_in_the_loop(perf, answer);
    } else {
        lemma_abreast(perf, j);
        lemma_joins_around(perf, answer, j);
    }
}

/// Everything the performance asks for is answered as the law above wants it.
#[verifier::spinoff_prover]
proof fn lemma_all_join(perf: Performance, answer: spec_fn(Shown) -> AudioAnswer, j: nat)
    requires
        well_set(perf, answer),
        perf.engines_agree(),
        perf.later.model.program == Some(perf.program()),
        perf.short_is_answered(),
        j <= perf.stages(),
    ensures
        forall|k: nat| k < j ==> #[trigger] perf.answers_join(k),
    decreases j,
{
    if j > 0 {
        let i = (j - 1) as nat;
        lemma_all_join(perf, answer, i);
        lemma_joins_next(perf, answer, i);
        assert forall|k: nat| k < j implies #[trigger] perf.answers_join(k) by {
            assert(k < i || k == i);
        }
    }
}

/// A long block sounds as two that add up to it, the first made of whole sub-blocks, and
/// leaves the engine as they do, as long as the same request on the same samples gets the
/// same answer.
#[verifier::spinoff_prover]
pub proof fn law_a_block_sounds_as_its_halves(
    model: EngineModel,
    whole: BlockInput,
    first: BlockInput,
    second: BlockInput,
    channels: nat,
    looped: int,
    answer: spec_fn(Shown) -> AudioAnswer,
)
    requires
        model.wf(),
        model.program is Some,
        closed_loop(model.program->0, looped),
        by_frame(answer),
        whole.frames == first.frames + second.frames,
        whole.frames <= model.sound.stride,
        0 < first.frames,
        0 < second.frames,
        first.frames as int % first.quantum as int == 0,
        same_given(whole, first, 0, 0),
        same_given(
            whole,
            second,
            first.frames as int,
            first.frames as int / first.quantum as int,
        ),
    ensures
        ({
            let one = block_played(model, whole, channels, answer);
            let two = block_played(model, first, channels, answer);
            let three = block_played(two.model, second, channels, answer);
            let n = first.frames as int;
            let m = second.frames as int;
            let f = whole.frames as int;
            &&& same_frames(one.heard, f, 0, two.heard, n, channels, n)
            &&& same_frames(one.heard, f, n, three.heard, m, channels, m)
            &&& one.model.params == three.model.params
            &&& same_memory(one.model.sound, three.model.sound)
            &&& two.model.wf()
            &&& two.model.program == model.program
            &&& two.model.sound.stride == model.sound.stride
        }),
{
    let perf = performance(model, whole, first, second, channels, looped, answer);
    let stages = perf.stages();
    lemma_engines_agree(perf, answer);
    lemma_short_is_answered(perf, answer);
    lemma_all_join(perf, answer, stages);
    lemma_behind_the_loop(perf, stages);
    lemma_stages_answered(perf.long, whole, answer, stages, stages);
    lemma_stages_answered(perf.later, second, answer, stages, stages);
}

/// The engine after some blocks, one after the other.
pub open spec fn blocks_played(
    model: EngineModel,
    blocks: Seq<BlockInput>,
    channels: nat,
    answer: spec_fn(Shown) -> AudioAnswer,
) -> EngineModel
    decreases blocks.len(),
{
    if blocks.len() == 0 {
        model
    } else {
        blocks_played(
            block_played(model, blocks[0], channels, answer).model,
            blocks.drop_first(),
            channels,
            answer,
        )
    }
}

/// What the DAW is handed for one of them.
pub open spec fn heard_in_block(
    model: EngineModel,
    blocks: Seq<BlockInput>,
    channels: nat,
    answer: spec_fn(Shown) -> AudioAnswer,
    k: nat,
) -> Seq<Sample>
    decreases k,
{
    let now = block_played(model, blocks[0], channels, answer);
    if k == 0 {
        now.heard
    } else {
        heard_in_block(now.model, blocks.drop_first(), channels, answer, (k - 1) as nat)
    }
}

/// How many frames the first `k` blocks have.
pub open spec fn frames_before(blocks: Seq<BlockInput>, k: nat) -> int
    decreases k,
{
    if k == 0 {
        0
    } else {
        blocks[0].frames + frames_before(blocks.drop_first(), (k - 1) as nat)
    }
}

/// One of the blocks is the part of the long one that lies where it does, and starts at a
/// sub-block.
pub open spec fn is_part(whole: BlockInput, blocks: Seq<BlockInput>, k: nat) -> bool {
    let from = frames_before(blocks, k);
    &&& 0 < blocks[k as int].frames
    &&& from % whole.quantum as int == 0
    &&& same_given(whole, blocks[k as int], from, from / whole.quantum as int)
}

/// A long block, cut into blocks that start where a sub-block does: all of them but the last
/// are made of whole sub-blocks.
pub open spec fn cut_into(whole: BlockInput, blocks: Seq<BlockInput>) -> bool {
    &&& 0 < blocks.len()
    &&& frames_before(blocks, blocks.len()) == whole.frames
    &&& forall|k: nat| k < blocks.len() ==> #[trigger] is_part(whole, blocks, k)
}

/// What is left of a block behind its first frames.
spec fn rest_of(whole: BlockInput, n: int) -> BlockInput {
    let left = whole.frames - n;
    BlockInput {
        frames: left as u32,
        quantum: whole.quantum,
        rows: Seq::new(
            if whole.rows.len() > n / whole.quantum as int {
                (whole.rows.len() - n / whole.quantum as int) as nat
            } else {
                0
            },
            |i: int| whole.rows[i + n / whole.quantum as int],
        ),
        daw_in: Seq::new(
            (whole.daw_in.len() * left) as nat,
            |at: int| frame(whole.daw_in, whole.frames as int, at / left, n + at % left),
        ),
    }
}

proof fn lemma_rest_frame(whole: BlockInput, n: int, c: int, i: int)
    requires
        0 <= n < whole.frames,
        0 <= c,
        0 <= i < whole.frames - n,
    ensures
        frame(rest_of(whole, n).daw_in, whole.frames - n, c, i) == frame(
            whole.daw_in,
            whole.frames as int,
            c,
            n + i,
        ),
{
    let left = whole.frames - n;
    let f = whole.frames as int;
    let len = whole.daw_in.len() as int;
    let at = c * left + i;
    assert(0 <= len * left && 0 <= c * left) by (nonlinear_arith)
        requires
            0 <= len,
            0 < left,
            0 <= c,
    ;
    if c < len {
        assert(at < len * left) by (nonlinear_arith)
            requires
                at == c * left + i,
                i < left,
                c + 1 <= len,
                0 < left,
        ;
        vstd::arithmetic::div_mod::lemma_fundamental_div_mod_converse(at, left, c, i);
    } else {
        assert(at >= len * left && c * f + n + i >= len) by (nonlinear_arith)
            requires
                at == c * left + i,
                0 <= i,
                len <= c,
                0 < left,
                0 <= n,
                1 <= f,
                0 <= c,
        ;
    }
}

/// What a later block has of the whole it has of the rest.
proof fn lemma_rest_given(whole: BlockInput, n: int, block: BlockInput, from: int)
    requires
        0 <= n < whole.frames,
        0 < whole.quantum,
        n % whole.quantum as int == 0,
        0 <= from,
        same_given(whole, block, n + from, (n + from) / whole.quantum as int),
    ensures
        same_given(rest_of(whole, n), block, from, from / whole.quantum as int),
{
    let rest = rest_of(whole, n);
    let q = whole.quantum as int;
    let rows = n / q;
    vstd::arithmetic::div_mod::lemma_fundamental_div_mod(n, q);
    vstd::arithmetic::div_mod::lemma_hoist_over_denominator(from, rows, q as nat);
    vstd::arithmetic::div_mod::lemma_div_pos_is_pos(from, q);
    vstd::arithmetic::div_mod::lemma_div_pos_is_pos(n, q);
    assert(rows * q == q * rows) by (nonlinear_arith);
    assert((n + from) / q == rows + from / q);
    assert forall|c: int, i: int| 0 <= c && 0 <= i < block.frames implies #[trigger] frame(
        block.daw_in,
        block.frames as int,
        c,
        i,
    ) == frame(rest.daw_in, rest.frames as int, c, from + i) by {
        lemma_rest_frame(whole, n, c, from + i);
    }
    assert forall|row: int, lane: Option<u16>|
        0 <= row && row * rest.quantum < block.frames implies #[trigger] lane_in(
        block.rows,
        row,
        lane,
    ) == lane_in(rest.rows, row + from / q, lane) by {
        assert(lane_in(block.rows, row, lane) == lane_in(
            whole.rows,
            row + (n + from) / q,
            lane,
        ));
        lemma_rest_lane(whole, n, row + from / q, lane);
    }
}

proof fn lemma_rest_lane(whole: BlockInput, n: int, row: int, lane: Option<u16>)
    requires
        0 <= n,
        0 < whole.quantum,
        0 <= row,
    ensures
        lane_in(rest_of(whole, n).rows, row, lane) == lane_in(
            whole.rows,
            row + n / whole.quantum as int,
            lane,
        ),
{
    vstd::arithmetic::div_mod::lemma_div_pos_is_pos(n, whole.quantum as int);
}

/// The rest of a block is a part of it.
proof fn lemma_rest_is_part(whole: BlockInput, n: int)
    requires
        0 <= n < whole.frames,
        0 < whole.quantum,
    ensures
        same_given(whole, rest_of(whole, n), n, n / whole.quantum as int),
{
    let rest = rest_of(whole, n);
    vstd::arithmetic::div_mod::lemma_div_pos_is_pos(n, whole.quantum as int);
    assert forall|c: int, i: int| 0 <= c && 0 <= i < rest.frames implies #[trigger] frame(
        rest.daw_in,
        rest.frames as int,
        c,
        i,
    ) == frame(whole.daw_in, whole.frames as int, c, n + i) by {
        lemma_rest_frame(whole, n, c, i);
    }
    assert forall|row: int, lane: Option<u16>|
        0 <= row && row * whole.quantum < rest.frames implies #[trigger] lane_in(
        rest.rows,
        row,
        lane,
    ) == lane_in(whole.rows, row + n / whole.quantum as int, lane) by {
        lemma_rest_lane(whole, n, row, lane);
    }
}

proof fn lemma_frames_grow(blocks: Seq<BlockInput>, k: nat)
    ensures
        0 <= frames_before(blocks, k),
    decreases k,
{
    if k > 0 {
        lemma_frames_grow(blocks.drop_first(), (k - 1) as nat);
    }
}

/// Without its first block the rest is cut into the others.
proof fn lemma_cut_on(whole: BlockInput, blocks: Seq<BlockInput>)
    requires
        0 < whole.quantum,
        cut_into(whole, blocks),
        1 < blocks.len(),
    ensures
        cut_into(rest_of(whole, blocks[0].frames as int), blocks.drop_first()),
        blocks[0].frames < whole.frames,
        blocks[0].frames as int % whole.quantum as int == 0,
{
    let n = blocks[0].frames as int;
    let others = blocks.drop_first();
    let rest = rest_of(whole, n);
    let q = whole.quantum as int;
    assert(frames_before(others, 0) == 0);
    assert(frames_before(blocks, 1) == n);
    assert(is_part(whole, blocks, 1));
    assert(is_part(whole, blocks, 0));
    assert(blocks[1].frames > 0);
    assert forall|k: nat| k < others.len() implies #[trigger] is_part(rest, others, k) by {
        assert(is_part(whole, blocks, k + 1));
        assert(blocks[(k + 1) as int] == others[k as int]);
        let from = frames_before(others, k);
        assert(frames_before(blocks, k + 1) == n + from);
        lemma_frames_grow(others, k);
        lemma_rest_given(whole, n, others[k as int], from);
        vstd::arithmetic::div_mod::lemma_mod_sub_multiples_vanish(n + from, q);
        vstd::arithmetic::div_mod::lemma_sub_mod_noop(n + from, n, q);
    }
}

/// Two engines at the start of a stage, in blocks that are handed the same.
spec fn alike(perf: Performance, p: Playing, q: Playing, given: BlockInput, j: nat) -> bool {
    let f = perf.whole.frames as int;
    &&& perf.stands(p, perf.whole, j)
    &&& perf.stands(q, given, j)
    &&& p.model.params == q.model.params
    &&& same_memory(p.model.sound, q.model.sound)
    &&& same_samples(
        written_before(perf.program(), j),
        p.model.sound,
        stretch(perf.whole, 0, f),
        q.model.sound,
        stretch(given, 0, f),
    )
    &&& same_frames(p.heard, f, 0, q.heard, f, perf.channels, f)
}

#[verifier::spinoff_prover]
proof fn lemma_alike_around(
    perf: Performance,
    p: Playing,
    q: Playing,
    given: BlockInput,
    answer: spec_fn(Shown) -> AudioAnswer,
    j: nat,
)
    requires
        closed_loop(perf.program(), perf.looped),
        by_frame(answer),
        same_given(perf.whole, given, 0, 0),
        given.frames == perf.whole.frames,
        0 < given.frames,
        j < perf.stages(),
        j != perf.looped,
        alike(perf, p, q, given, j),
    ensures
        ({
            let steps = steps_in_a_chunk(perf.program().stages[j as int]);
            alike(
                perf,
                p.played_on(perf.whole, p.answers(perf.whole, answer, steps)).moved_on(),
                q.played_on(given, q.answers(given, answer, steps)).moved_on(),
                given,
                j + 1,
            )
        }),
{
    let program = perf.program();
    let stage = program.stages[j as int];
    let base = written_before(program, j);
    let steps = steps_in_a_chunk(stage);
    assert(work_is_written(program, program.stages[j as int], base));
    assert(stays_steady(program, program.stages[j as int]));
    lemma_side_by_side(perf, j, p, q, given, 0);
    lemma_answers_len(q, given, answer, steps);
    lemma_answers_agree(p, q, perf.whole, given, perf.channels, 0, base, answer, steps);
    lemma_by_frame(
        perf,
        j,
        p,
        q,
        given,
        0,
        p.answers(perf.whole, answer, steps),
        q.answers(given, answer, steps),
    );
}

#[verifier::spinoff_prover]
proof fn lemma_alike_in_the_loop(
    perf: Performance,
    p: Playing,
    q: Playing,
    given: BlockInput,
    answer: spec_fn(Shown) -> AudioAnswer,
)
    requires
        closed_loop(perf.program(), perf.looped),
        same_given(perf.whole, given, 0, 0),
        given.frames == perf.whole.frames,
        0 < given.frames,
        alike(perf, p, q, given, perf.looped as nat),
    ensures
        ({
            let steps = steps_of_stage(perf.program(), perf.looped, given);
            alike(
                perf,
                p.played_on(perf.whole, p.answers(perf.whole, answer, steps)).moved_on(),
                q.played_on(given, q.answers(given, answer, steps)).moved_on(),
                given,
                (perf.looped + 1) as nat,
            )
        }),
{
    let j = perf.looped as nat;
    let program = perf.program();
    let stage = program.stages[j as int];
    let f = given.frames as int;
    let steps = steps_of_stage(program, j as int, given);
    let pair = Pairing {
        p_given: perf.whole,
        q_given: given,
        channels: perf.channels,
        shift: 0,
        rows: 0,
        base: written_before(program, j),
        first: p,
    };
    assert(stage.audio.fits(program.audio_ops.len()));
    assert(reads_are_written(program, program.stages[j as int], pair.base));
    assert(work_is_written(program, program.stages[j as int], pair.base));
    assert(0 * given.quantum == 0) by (nonlinear_arith);
    lemma_rows(given.frames, given.quantum);
    lemma_at_the_start(pair, p, q);
    assert(pair.in_step(p, q));
    lemma_same_answers(pair, p, q, answer, steps);
    lemma_answers_len(q, given, answer, steps);
    let answers = q.answers(given, answer, steps);
    lemma_to_the_end(pair, p, q, answers);
    let pp = p.played_on(perf.whole, answers);
    let qq = q.played_on(given, answers);
    lemma_played_keeps(p, perf.whole, answers);
    lemma_played_keeps(q, given, answers);
    lemma_moved_on(perf, pp, j);
    lemma_moved_on(perf, qq, j);
    let tw = pair.twins(pp, qq);
    assert(tw.at.fits(pp.model.sound.stride));
    assert(tw.bt.fits(qq.model.sound.stride));
    assert(part(tw.at, 0, f) == stretch(perf.whole, 0, f));
    assert(part(tw.bt, 0, f) == stretch(given, 0, f));
    assert(tw.full == written_before(program, j + 1));
}

proof fn lemma_alike(
    perf: Performance,
    p: Playing,
    q: Playing,
    given: BlockInput,
    answer: spec_fn(Shown) -> AudioAnswer,
    j: nat,
)
    requires
        closed_loop(perf.program(), perf.looped),
        by_frame(answer),
        same_given(perf.whole, given, 0, 0),
        given.frames == perf.whole.frames,
        0 < given.frames,
        j <= perf.stages(),
        alike(perf, p, q, given, 0),
    ensures
        alike(perf, p.performed(perf.whole, answer, j), q.performed(given, answer, j), given, j),
    decreases j,
{
    if j > 0 {
        let i = (j - 1) as nat;
        lemma_alike(perf, p, q, given, answer, i);
        let pi = p.performed(perf.whole, answer, i);
        let qi = q.performed(given, answer, i);
        if i == perf.looped {
            lemma_alike_in_the_loop(perf, pi, qi, given, answer);
        } else {
            assert(works_by_frame(perf.program(), perf.program().stages[i as int]));
            let per = steps_in_a_chunk(perf.program().stages[i as int]);
            assert(1 * per == per) by (nonlinear_arith);
            lemma_alike_around(perf, pi, qi, given, answer, i);
        }
    }
}

/// A block that is handed the same sounds the same.
proof fn lemma_same_block(
    model: EngineModel,
    whole: BlockInput,
    given: BlockInput,
    channels: nat,
    looped: int,
    answer: spec_fn(Shown) -> AudioAnswer,
)
    requires
        model.wf(),
        model.program is Some,
        closed_loop(model.program->0, looped),
        by_frame(answer),
        same_given(whole, given, 0, 0),
        given.frames == whole.frames,
        0 < given.frames,
        whole.frames <= model.sound.stride,
    ensures
        ({
            let one = block_played(model, whole, channels, answer);
            let two = block_played(model, given, channels, answer);
            let f = whole.frames as int;
            &&& one.model.params == two.model.params
            &&& same_memory(one.model.sound, two.model.sound)
            &&& same_frames(one.heard, f, 0, two.heard, f, channels, f)
        }),
{
    let perf = performance(model, whole, given, given, channels, looped, answer);
    let f = whole.frames as int;
    lemma_silent_start(channels, f, f, 0);
    lemma_alike(
        perf,
        block_begun(model, whole, channels),
        block_begun(model, given, channels),
        given,
        answer,
        perf.stages(),
    );
}

/// A long block sounds as some blocks do, and leaves the engine as they do: each of them is
/// handed out what the long one is where it lies.
pub open spec fn sounds_as(
    model: EngineModel,
    whole: BlockInput,
    blocks: Seq<BlockInput>,
    channels: nat,
    answer: spec_fn(Shown) -> AudioAnswer,
) -> bool {
    let one = block_played(model, whole, channels, answer);
    let after = blocks_played(model, blocks, channels, answer);
    &&& one.model.params == after.params
    &&& same_memory(one.model.sound, after.sound)
    &&& forall|k: nat|
        k < blocks.len() ==> same_frames(
            one.heard,
            whole.frames as int,
            #[trigger] frames_before(blocks, k),
            heard_in_block(model, blocks, channels, answer, k),
            blocks[k as int].frames as int,
            channels,
            blocks[k as int].frames as int,
        )
}

/// A part of the rest is a part of the whole.
proof fn lemma_heard_on(
    one: Seq<Sample>,
    f: int,
    n: int,
    three: Seq<Sample>,
    others: Seq<BlockInput>,
    heard: Seq<Sample>,
    channels: nat,
    whole: BlockInput,
    k: nat,
)
    requires
        k < others.len(),
        f == whole.frames,
        0 <= n < f,
        is_part(rest_of(whole, n), others, k),
        same_frames(one, f, n, three, f - n, channels, f - n),
        same_frames(
            three,
            f - n,
            frames_before(others, k),
            heard,
            others[k as int].frames as int,
            channels,
            others[k as int].frames as int,
        ),
    ensures
        same_frames(
            one,
            f,
            n + frames_before(others, k),
            heard,
            others[k as int].frames as int,
            channels,
            others[k as int].frames as int,
        ),
{
    let from = frames_before(others, k);
    let m = others[k as int].frames as int;
    lemma_frames_grow(others, k);
    assert forall|c: int, i: int| 0 <= c < channels && 0 <= i < m implies #[trigger] frame(
        heard,
        m,
        c,
        i,
    ) == frame(one, f, c, n + from + i) by {
        assert(frame(heard, m, c, i) == frame(three, f - n, c, from + i));
        assert(frame(three, f - n, c, from + i) == frame(one, f, c, n + (from + i)));
    }
}

#[verifier::spinoff_prover]
proof fn lemma_one_block(
    model: EngineModel,
    whole: BlockInput,
    blocks: Seq<BlockInput>,
    channels: nat,
    looped: int,
    answer: spec_fn(Shown) -> AudioAnswer,
)
    requires
        model.wf(),
        model.program is Some,
        closed_loop(model.program->0, looped),
        by_frame(answer),
        0 < whole.quantum,
        whole.frames <= model.sound.stride,
        cut_into(whole, blocks),
        blocks.len() == 1,
    ensures
        sounds_as(model, whole, blocks, channels, answer),
{
    assert(is_part(whole, blocks, 0));
    assert(frames_before(blocks, 0) == 0);
    assert(frames_before(blocks.drop_first(), 0) == 0);
    assert(frames_before(blocks, 1) == blocks[0].frames);
    lemma_same_block(model, whole, blocks[0], channels, looped, answer);
    let two = block_played(model, blocks[0], channels, answer);
    assert(blocks_played(two.model, blocks.drop_first(), channels, answer) == two.model);
    assert(blocks_played(model, blocks, channels, answer) == two.model);
}

#[verifier::spinoff_prover]
proof fn lemma_one_block_more(
    model: EngineModel,
    whole: BlockInput,
    blocks: Seq<BlockInput>,
    channels: nat,
    looped: int,
    answer: spec_fn(Shown) -> AudioAnswer,
)
    requires
        model.wf(),
        model.program is Some,
        closed_loop(model.program->0, looped),
        by_frame(answer),
        0 < whole.quantum,
        whole.frames <= model.sound.stride,
        cut_into(whole, blocks),
        blocks.len() > 1,
        sounds_as(
            block_played(model, blocks[0], channels, answer).model,
            rest_of(whole, blocks[0].frames as int),
            blocks.drop_first(),
            channels,
            answer,
        ),
        cut_into(rest_of(whole, blocks[0].frames as int), blocks.drop_first()),
        blocks[0].frames < whole.frames,
        blocks[0].frames as int % whole.quantum as int == 0,
    ensures
        sounds_as(model, whole, blocks, channels, answer),
{
    let n = blocks[0].frames as int;
    let f = whole.frames as int;
    let one = block_played(model, whole, channels, answer);
    let others = blocks.drop_first();
    let rest = rest_of(whole, n);
    assert(is_part(whole, blocks, 0));
    assert(frames_before(blocks, 0) == 0);
    lemma_rest_is_part(whole, n);
    law_a_block_sounds_as_its_halves(model, whole, blocks[0], rest, channels, looped, answer);
    let two = block_played(model, blocks[0], channels, answer);
    let three = block_played(two.model, rest, channels, answer);
    assert forall|k: nat| k < blocks.len() implies same_frames(
        one.heard,
        f,
        #[trigger] frames_before(blocks, k),
        heard_in_block(model, blocks, channels, answer, k),
        blocks[k as int].frames as int,
        channels,
        blocks[k as int].frames as int,
    ) by {
        if k > 0 {
            let i = (k - 1) as nat;
            assert(is_part(rest, others, i));
            assert(blocks[k as int] == others[i as int]);
            assert(frames_before(blocks, k) == n + frames_before(others, i));
            lemma_heard_on(
                one.heard,
                f,
                n,
                three.heard,
                others,
                heard_in_block(two.model, others, channels, answer, i),
                channels,
                whole,
                i,
            );
        }
    }
}

/// Behind the first block the others cut up the rest.
#[verifier::spinoff_prover]
proof fn lemma_next_block(
    model: EngineModel,
    whole: BlockInput,
    blocks: Seq<BlockInput>,
    channels: nat,
    looped: int,
    answer: spec_fn(Shown) -> AudioAnswer,
)
    requires
        model.wf(),
        model.program is Some,
        closed_loop(model.program->0, looped),
        by_frame(answer),
        0 < whole.quantum,
        whole.frames <= model.sound.stride,
        cut_into(whole, blocks),
        blocks.len() > 1,
    ensures
        ({
            let next = block_played(model, blocks[0], channels, answer).model;
            let rest = rest_of(whole, blocks[0].frames as int);
            &&& next.wf()
            &&& next.program == model.program
            &&& rest.quantum == whole.quantum
            &&& rest.frames <= next.sound.stride
            &&& cut_into(rest, blocks.drop_first())
            &&& blocks[0].frames < whole.frames
            &&& blocks[0].frames as int % whole.quantum as int == 0
        }),
{
    let n = blocks[0].frames as int;
    lemma_cut_on(whole, blocks);
    assert(is_part(whole, blocks, 0));
    assert(frames_before(blocks, 0) == 0);
    lemma_rest_is_part(whole, n);
    law_a_block_sounds_as_its_halves(
        model,
        whole,
        blocks[0],
        rest_of(whole, n),
        channels,
        looped,
        answer,
    );
}

/// A feedback loop sounds the same at any block size: a long block sounds as any number of
/// blocks that it is cut into, all but the last made of whole sub-blocks, and leaves the
/// engine as they do.
///
/// That is so where the stages around the loop keep nothing and no lane drives their mixes,
/// where nothing is read that has not been written, and where the same request on the same
/// samples gets the same answer.
#[verifier::spinoff_prover]
pub proof fn law_a_feedback_loop_sounds_the_same_at_any_block_size(
    model: EngineModel,
    whole: BlockInput,
    blocks: Seq<BlockInput>,
    channels: nat,
    looped: int,
    answer: spec_fn(Shown) -> AudioAnswer,
)
    requires
        model.wf(),
        model.program is Some,
        closed_loop(model.program->0, looped),
        by_frame(answer),
        0 < whole.quantum,
        whole.frames <= model.sound.stride,
        cut_into(whole, blocks),
    ensures
        sounds_as(model, whole, blocks, channels, answer),
    decreases blocks.len(),
{
    if blocks.len() == 1 {
        lemma_one_block(model, whole, blocks, channels, looped, answer);
    } else {
        lemma_next_block(model, whole, blocks, channels, looped, answer);
        law_a_feedback_loop_sounds_the_same_at_any_block_size(
            block_played(model, blocks[0], channels, answer).model,
            rest_of(whole, blocks[0].frames as int),
            blocks.drop_first(),
            channels,
            looped,
            answer,
        );
        lemma_one_block_more(model, whole, blocks, channels, looped, answer);
    }
}

} // verus!
