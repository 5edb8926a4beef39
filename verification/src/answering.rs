//! Work that is answered from what the one who answers is shown, and from nothing else:
//! the same request on the same samples gets the same answer.
use vstd::prelude::*;
use crate::audio_cx::total_width;
use crate::block_size::{
    law_a_chunk_does_not_see_its_block, lemma_played_split, lemma_whole_sub_blocks, part,
    run_of_channels, steps_in_a_chunk, stretch, written_by, BlockInput, Pairing, Playing,
};
use crate::frames::{
    answers_agree, hands_part, keeps_nothing, law_a_stage_works_frame_by_frame, part_answered,
    side_by_side, written_so_far, Parts,
};
use crate::ir::{AudioStep, Buf, Stage, MAX_AUDIO_TAPS, MAX_BUFFERS, MAX_BUFFER_CHANNELS};
use crate::number::{Real, Sample};
use crate::params::ParamsModel;
use crate::program::ProgramModel;
use crate::run::{lane_in, parts_of, sound_asks, AudioAnswer, AudioTask, ChunkPlace};
use crate::schedule::{lemma_row_starts, rows_in};
use crate::sound::{folds_of, heard_width, Fold, RingModel, SoundModel, Window};

verus! {

/// What the one who works something out is shown: the request, how long the chunk is, the
/// samples it names, the delay line it reads and where that reading stood, and the lane it
/// follows.
#[verifier::ext_equal]
pub struct Shown {
    pub task: AudioTask,
    pub frames: nat,
    pub channels: Map<(Buf, int), Seq<Sample>>,
    pub line: Option<RingModel>,
    pub distance: Option<Real>,
    pub lane: Option<Real>,
}

/// The channels that some folds read.
pub open spec fn folded(list: Seq<Fold>) -> Set<(Buf, int)> {
    Set::new(
        |at: (Buf, int)|
            exists|i: int|
                0 <= i < list.len() && at.0 == (#[trigger] list[i]).from && 0 <= at.1
                    < list[i].width,
    )
}

/// The channels that a request names.
pub open spec fn channels_named(task: AudioTask) -> Set<(Buf, int)> {
    match task {
        AudioTask::Fold { list, .. } => folded(list),
        AudioTask::Plugin { call } => run_of_channels(call.input, 0, call.input_width as int),
        AudioTask::Mix { width, parts, .. } => Set::new(
            |at: (Buf, int)|
                exists|i: int|
                    0 <= i < parts.len() && at.0 == (#[trigger] parts[i]).buf && 0 <= at.1 < width,
        ),
        AudioTask::Fade { a, width, .. } => run_of_channels(a, 0, width as int),
        _ => Set::empty(),
    }
}

/// A channel that there is.
pub open spec fn is_channel(at: (Buf, int)) -> bool {
    at.0 < MAX_BUFFERS && 0 <= at.1 < MAX_BUFFER_CHANNELS
}

pub open spec fn shown_of(
    state: SoundModel,
    task: AudioTask,
    win: Window,
    rows: Seq<Vec<Real>>,
    row: int,
) -> Shown {
    Shown {
        task,
        frames: win.frames as nat,
        channels: Map::new(
            |at: (Buf, int)| channels_named(task).contains(at) && is_channel(at),
            |at: (Buf, int)| state.channel(at.0, at.1, win),
        ),
        line: match task {
            AudioTask::Read { line, .. } => Some(state.lines[line as int]),
            _ => None,
        },
        distance: match task {
            AudioTask::Read { tap, .. } if tap < MAX_AUDIO_TAPS => Some(
                state.tap_distance[tap as int],
            ),
            _ => None,
        },
        lane: match task {
            AudioTask::Fade { lane, .. } => lane_in(rows, row, lane),
            _ => None,
        },
    }
}

impl Playing {
    /// What the one who answers the next step is shown.
    pub open spec fn shown(self, given: BlockInput) -> Shown {
        match self.chunk(given) {
            Some(win) => shown_of(
                self.model.sound,
                self.asked(given),
                win,
                given.rows,
                self.row(),
            ),
            None => Shown {
                task: AudioTask::Nothing,
                frames: 0,
                channels: Map::empty(),
                line: None,
                distance: None,
                lane: None,
            },
        }
    }

    /// The answers to the next `count` steps.
    pub open spec fn answers(
        self,
        given: BlockInput,
        answer: spec_fn(Shown) -> AudioAnswer,
        count: nat,
    ) -> Seq<AudioAnswer>
        decreases count,
    {
        if count == 0 {
            Seq::empty()
        } else {
            let before = self.answers(given, answer, (count - 1) as nat);
            before.push(answer(self.played_on(given, before).shown(given)))
        }
    }
}

/// The channels that the work an operation leaves reads.
pub open spec fn work_reads(step: AudioStep, widths: Seq<u16>) -> Set<(Buf, int)> {
    match step {
        AudioStep::Gather { out, buses, .. } => folded(folds_of(out, buses, widths, buses.len())),
        AudioStep::Plugin { input, input_buses, .. } => run_of_channels(
            input,
            0,
            (total_width(input_buses) as u16) as int,
        ),
        AudioStep::Mix { out, inputs } => Set::new(
            |at: (Buf, int)|
                exists|i: int|
                    0 <= i < inputs.len() && at.0 == (#[trigger] inputs[i]).buf && 0 <= at.1
                        < heard_width(widths[out as int]),
        ),
        AudioStep::Fade { out, a, .. } => run_of_channels(a, 0, heard_width(widths[out as int])),
        _ => Set::empty(),
    }
}

/// The work that a stage leaves reads only what was there before or what an earlier
/// operation has written.
pub open spec fn work_is_written(
    program: ProgramModel,
    stage: Stage,
    base: Set<(Buf, int)>,
) -> bool {
    forall|k: int|
        stage.audio.start <= k < stage.audio.end ==> work_reads(
            #[trigger] program.audio_ops[k],
            program.buffers,
        ).subset_of(
            base.union(
                written_by(program.audio_ops, program.buffers, stage.audio.start as int, k),
            ),
        )
}

/// A request names what its operation says it does.
pub proof fn lemma_named(
    state: SoundModel,
    params: ParamsModel,
    step: AudioStep,
    widths: Seq<u16>,
    place: ChunkPlace,
    rows: Seq<Vec<Real>>,
)
    ensures
        channels_named(sound_asks(state, params, step, widths, place, rows)).subset_of(
            work_reads(step, widths),
        ),
{
    let task = sound_asks(state, params, step, widths, place, rows);
    assert forall|at: (Buf, int)| channels_named(task).contains(at) implies work_reads(
        step,
        widths,
    ).contains(at) by {
        if let AudioStep::Mix { out, inputs } = step {
            if inputs.len() > 0 {
                let parts = parts_of(inputs, rows, place.row as int);
                let i = choose|i: int|
                    0 <= i < parts.len() && at.0 == (#[trigger] parts[i]).buf && 0 <= at.1
                        < heard_width(widths[out as int]) as u16;
                assert(inputs[i].buf == parts[i].buf);
            }
        }
    }
}

/// Two runs in step show the same.
#[verifier::spinoff_prover]
proof fn lemma_shown_alike(pair: Pairing, p: Playing, q: Playing)
    requires
        pair.in_step(p, q),
        p.chunk(pair.p_given) matches Some(long) && q.chunk(pair.q_given) matches Some(short)
            && long.frames == short.frames,
        work_is_written(q.model.program->0, q.stage(), pair.base),
    ensures
        p.shown(pair.p_given) == q.shown(pair.q_given),
{
    law_a_chunk_does_not_see_its_block(pair, p, q, arbitrary());
    let tw = pair.twins(p, q);
    let long = p.chunk(pair.p_given)->0;
    let short = q.chunk(pair.q_given)->0;
    assert(tw.aw() == long);
    assert(tw.bw() == short);
    let program = q.model.program->0;
    let task = q.asked(pair.q_given);
    let x = p.shown(pair.p_given);
    let y = q.shown(pair.q_given);
    assert(p.stage() == q.stage());
    assert forall|at: (Buf, int)| channels_named(task).contains(at) implies tw.live.contains(
        at,
    ) by {
        if q.at() < q.stage().audio.end {
            let step = program.audio_ops[q.at()];
            lemma_named(
                q.model.sound,
                q.model.params,
                step,
                program.buffers,
                ChunkPlace { win: short, row: q.row() as usize, tap: q.tap() as usize },
                pair.q_given.rows,
            );
            assert(work_reads(step, program.buffers).contains(at));
        }
    }
    assert forall|at: (Buf, int)|
        channels_named(task).contains(at) && is_channel(at) implies p.model.sound.channel(
        at.0,
        at.1,
        long,
    ) == q.model.sound.channel(at.0, at.1, short) by {
        assert(tw.live.contains((at.0, at.1)));
    }
    assert(x.channels =~= y.channels);
    if let AudioTask::Fade { lane, .. } = task {
        assert(q.row() * pair.p_given.quantum < pair.q_given.frames);
        assert(lane_in(pair.q_given.rows, q.row(), lane) == lane_in(
            pair.p_given.rows,
            q.row() + pair.rows,
            lane,
        ));
    }
}

/// The chunks of the second block are as long as those of the first beside them: they are
/// whole sub-blocks, or the two blocks end together.
pub open spec fn aligned(pair: Pairing) -> bool {
    ||| pair.q_given.frames as int % pair.q_given.quantum as int == 0
    ||| pair.p_given.frames == pair.shift + pair.q_given.frames
}

proof fn lemma_chunks_alike(pair: Pairing, p: Playing, q: Playing)
    requires
        pair.in_step(p, q),
        aligned(pair),
        q.start() < pair.q_given.frames,
    ensures
        p.chunk(pair.p_given) matches Some(long) && q.chunk(pair.q_given) matches Some(short)
            && long.frames == short.frames,
        (q.chunk(pair.q_given)->0).frames == if pair.q_given.quantum < pair.q_given.frames
            - q.start() {
            pair.q_given.quantum as int
        } else {
            pair.q_given.frames - q.start()
        },
{
    assert(p.stage() == q.stage());
    if pair.q_given.frames as int % pair.q_given.quantum as int == 0 {
        lemma_whole_sub_blocks(
            pair.q_given.frames as int,
            pair.q_given.quantum as int,
            q.row(),
        );
    }
}

/// Where two runs in step stand after so many chunks and so many steps more.
proof fn lemma_places(
    pair: Pairing,
    p: Playing,
    q: Playing,
    answers: Seq<AudioAnswer>,
    chunks: nat,
    more: nat,
)
    requires
        pair.in_step(p, q),
        q.at_the_start(),
        aligned(pair),
        more < steps_in_a_chunk(q.stage()),
        answers.len() == chunks * steps_in_a_chunk(q.stage()) + more,
        chunks * pair.q_given.quantum < pair.q_given.frames,
    ensures
        ({
            let pp = p.played_on(pair.p_given, answers);
            let qq = q.played_on(pair.q_given, answers);
            &&& pair.in_step(pp, qq)
            &&& qq.model.program == q.model.program
            &&& qq.stage() == q.stage()
            &&& qq.start() == chunks * pair.q_given.quantum
            &&& qq.row() == chunks
            &&& qq.at() == q.at() + more
        }),
    decreases chunks, more,
{
    let per = steps_in_a_chunk(q.stage());
    let quantum = pair.q_given.quantum as int;
    if more > 0 {
        let front = answers.drop_last();
        lemma_places(pair, p, q, front, chunks, (more - 1) as nat);
        let pp = p.played_on(pair.p_given, front);
        let qq = q.played_on(pair.q_given, front);
        lemma_chunks_alike(pair, pp, qq);
        law_a_chunk_does_not_see_its_block(pair, pp, qq, answers.last());
    } else if chunks > 0 {
        let before = (chunks - 1) as nat;
        assert(chunks * per == before * per + per && chunks * quantum == before * quantum
            + quantum && 0 <= before * per && 0 <= before * quantum) by (nonlinear_arith)
            requires
                chunks == before + 1,
                0 <= per,
                0 <= quantum,
        ;
        let front = answers.drop_last();
        lemma_places(pair, p, q, front, before, (per - 1) as nat);
        let pp = p.played_on(pair.p_given, front);
        let qq = q.played_on(pair.q_given, front);
        lemma_chunks_alike(pair, pp, qq);
        law_a_chunk_does_not_see_its_block(pair, pp, qq, answers.last());
    } else {
        assert(0 * per == 0 && 0 * quantum == 0) by (nonlinear_arith);
        assert(answers =~= Seq::empty());
    }
}

pub proof fn lemma_answers_len(
    p: Playing,
    given: BlockInput,
    answer: spec_fn(Shown) -> AudioAnswer,
    count: nat,
)
    ensures
        p.answers(given, answer, count).len() == count,
    decreases count,
{
    if count > 0 {
        lemma_answers_len(p, given, answer, (count - 1) as nat);
    }
}

/// Answering goes on from where it stands.
pub proof fn lemma_answers_split(
    p: Playing,
    given: BlockInput,
    answer: spec_fn(Shown) -> AudioAnswer,
    first: nat,
    more: nat,
)
    ensures
        p.answers(given, answer, first + more) == p.answers(given, answer, first) + p.played_on(
            given,
            p.answers(given, answer, first),
        ).answers(given, answer, more),
    decreases more,
{
    let front = p.answers(given, answer, first);
    let mid = p.played_on(given, front);
    if more == 0 {
        assert(front + mid.answers(given, answer, 0) =~= front);
    } else {
        lemma_answers_split(p, given, answer, first, (more - 1) as nat);
        let back = mid.answers(given, answer, (more - 1) as nat);
        lemma_played_split(p, given, front, back);
        assert(front + mid.answers(given, answer, more) =~= p.answers(given, answer, first + more));
    }
}

/// Runs in step are answered alike to the end of the second block.
pub proof fn lemma_same_answers(
    pair: Pairing,
    p: Playing,
    q: Playing,
    answer: spec_fn(Shown) -> AudioAnswer,
    count: nat,
)
    requires
        pair.in_step(p, q),
        q.at_the_start(),
        aligned(pair),
        work_is_written(q.model.program->0, q.stage(), pair.base),
        count <= rows_in(pair.q_given.frames, pair.q_given.quantum) * steps_in_a_chunk(q.stage()),
    ensures
        p.answers(pair.p_given, answer, count) == q.answers(pair.q_given, answer, count),
    decreases count,
{
    if count > 0 {
        let done = (count - 1) as nat;
        lemma_same_answers(pair, p, q, answer, done);
        let answers = q.answers(pair.q_given, answer, done);
        lemma_answers_len(q, pair.q_given, answer, done);
        let per = steps_in_a_chunk(q.stage()) as int;
        let rows = rows_in(pair.q_given.frames, pair.q_given.quantum);
        vstd::arithmetic::div_mod::lemma_fundamental_div_mod(done as int, per);
        let chunks = done as int / per;
        assert(0 <= chunks < rows && done == chunks * per + done as int % per) by (nonlinear_arith)
            requires
                0 < per,
                0 <= done < rows * per,
                done == per * chunks + done as int % per,
                0 <= done as int % per < per,
        ;
        lemma_row_starts(pair.q_given.frames, pair.q_given.quantum, chunks);
        lemma_places(
            pair,
            p,
            q,
            answers,
            chunks as nat,
            (done as int % per) as nat,
        );
        let pp = p.played_on(pair.p_given, answers);
        let qq = q.played_on(pair.q_given, answers);
        lemma_chunks_alike(pair, pp, qq);
        lemma_shown_alike(pair, pp, qq);
    }
}

/// So many answers bring the second block to its end.
pub proof fn lemma_to_the_end(pair: Pairing, p: Playing, q: Playing, answers: Seq<AudioAnswer>)
    requires
        pair.in_step(p, q),
        q.at_the_start(),
        aligned(pair),
        pair.q_given.frames > 0,
        answers.len() == rows_in(pair.q_given.frames, pair.q_given.quantum) * steps_in_a_chunk(
            q.stage(),
        ),
    ensures
        ({
            let pp = p.played_on(pair.p_given, answers);
            let qq = q.played_on(pair.q_given, answers);
            &&& pair.in_step(pp, qq)
            &&& qq.start() == pair.q_given.frames
            &&& qq.chunk(pair.q_given) is None
        }),
{
    let per = steps_in_a_chunk(q.stage()) as int;
    let rows = rows_in(pair.q_given.frames, pair.q_given.quantum);
    let quantum = pair.q_given.quantum as int;
    let frames = pair.q_given.frames as int;
    vstd::arithmetic::div_mod::lemma_fundamental_div_mod(frames + quantum - 1, quantum);
    assert(1 <= rows && frames <= rows * quantum && rows * per == (rows - 1) * per + per
        && rows * quantum == (rows - 1) * quantum + quantum) by (nonlinear_arith)
        requires
            frames + quantum - 1 == quantum * rows + (frames + quantum - 1) % quantum,
            0 <= (frames + quantum - 1) % quantum < quantum,
            0 < frames,
    ;
    lemma_row_starts(pair.q_given.frames, pair.q_given.quantum, rows - 1);
    let front = answers.drop_last();
    lemma_places(pair, p, q, front, (rows - 1) as nat, (per - 1) as nat);
    let pp = p.played_on(pair.p_given, front);
    let qq = q.played_on(pair.q_given, front);
    lemma_chunks_alike(pair, pp, qq);
    law_a_chunk_does_not_see_its_block(pair, pp, qq, answers.last());
}

/// The same request, of which one is shown in a part of its chunk, from `from` on, what the
/// other is shown.
pub open spec fn part_shown(x: Shown, y: Shown, from: int) -> bool {
    &&& x.task == y.task
    &&& 0 <= from
    &&& from + y.frames <= x.frames
    &&& x.channels.dom() == y.channels.dom()
    &&& forall|at: (Buf, int), i: int|
        y.channels.dom().contains(at) && 0 <= i < y.frames ==> x.channels[at][from + i]
            == #[trigger] y.channels[at][i]
}

/// Whether signals are folded and added up frame by frame, and plugins keep nothing.
pub open spec fn by_frame(answer: spec_fn(Shown) -> AudioAnswer) -> bool {
    forall|x: Shown, y: Shown, from: int| #[trigger]
        part_shown(x, y, from) && (x.task is Fold || x.task is Mix || x.task is Plugin)
            ==> part_answered(
            x.task,
            answer(x),
            x.frames as int,
            from,
            y.task,
            answer(y),
            y.frames as int,
        )
}

/// Whether what an operation asks for is the same at any row of lanes: a mix whose gains
/// nothing drives.
pub open spec fn steady(step: AudioStep) -> bool {
    match step {
        AudioStep::Mix { inputs, .. } => forall|i: int|
            0 <= i < inputs.len() ==> (#[trigger] inputs[i]).lane is None,
        _ => true,
    }
}

/// A step of a stage that works frame by frame is answered frame by frame.
#[verifier::spinoff_prover]
proof fn lemma_part_answered(
    p: Playing,
    q: Playing,
    p_given: BlockInput,
    q_given: BlockInput,
    channels: nat,
    shift: int,
    base: Set<(Buf, int)>,
    answer: spec_fn(Shown) -> AudioAnswer,
)
    requires
        side_by_side(p, q, p_given, q_given, channels, shift, base),
        by_frame(answer),
        work_is_written(q.model.program->0, q.stage(), base),
        forall|k: int|
            q.stage().audio.start <= k < q.stage().audio.end ==> steady(
                #[trigger] q.model.program->0.audio_ops[k],
            ),
    ensures
        part_answered(
            p.asked(p_given),
            answer(p.shown(p_given)),
            p_given.frames as int,
            shift,
            q.asked(q_given),
            answer(q.shown(q_given)),
            q_given.frames as int,
        ),
{
    let program = q.model.program->0;
    let cut = q.stage();
    assert(p.stage() == cut);
    if q.start() == 0 && q.at() < cut.audio.end {
        let wide = stretch(p_given, 0, p_given.frames as int);
        let narrow = stretch(q_given, 0, q_given.frames as int);
        assert(p.chunk(p_given) == Some(wide));
        assert(q.chunk(q_given) == Some(narrow));
        let step = program.audio_ops[q.at()];
        assert(keeps_nothing(step));
        assert(steady(step));
        let place = ChunkPlace { win: narrow, row: q.row() as usize, tap: q.tap() as usize };
        lemma_named(
            q.model.sound,
            q.model.params,
            step,
            program.buffers,
            place,
            q_given.rows,
        );
        if let AudioStep::Mix { out, inputs } = step {
            assert(parts_of(inputs, p_given.rows, p.row()) =~= parts_of(
                inputs,
                q_given.rows,
                q.row(),
            )) by {
                assert forall|i: int| 0 <= i < inputs.len() implies #[trigger] parts_of(
                    inputs,
                    p_given.rows,
                    p.row(),
                )[i] == parts_of(inputs, q_given.rows, q.row())[i] by {
                    assert(inputs[i].lane is None);
                }
            }
        }
        let task = q.asked(q_given);
        assert(p.asked(p_given) == task);
        let x = p.shown(p_given);
        let y = q.shown(q_given);
        assert(x.channels.dom() =~= y.channels.dom());
        let parts = Parts {
            a: p.model.sound,
            wide,
            b: q.model.sound,
            narrow,
            from: shift as usize,
            live: written_so_far(q, base),
        };
        assert(part(wide, shift, q_given.frames as int) == stretch(
            p_given,
            shift,
            q_given.frames as int,
        ));
        assert(parts.ok());
        assert forall|at: (Buf, int), i: int|
            y.channels.dom().contains(at) && 0 <= i < y.frames implies x.channels[at][shift + i]
            == #[trigger] y.channels[at][i] by {
            assert(work_reads(step, program.buffers).contains(at));
            assert(parts.live.contains((at.0, at.1)));
            crate::frames::lemma_read(parts, at.0, at.1);
            assert(y.channels[at] == q.model.sound.channel(at.0, at.1, narrow));
            assert(x.channels[at] == p.model.sound.channel(at.0, at.1, wide));
        }
        assert(part_shown(x, y, shift));
    }
}

/// The answers to a stage that works frame by frame agree frame by frame.
pub proof fn lemma_answers_agree(
    p: Playing,
    q: Playing,
    p_given: BlockInput,
    q_given: BlockInput,
    channels: nat,
    shift: int,
    base: Set<(Buf, int)>,
    answer: spec_fn(Shown) -> AudioAnswer,
    count: nat,
)
    requires
        side_by_side(p, q, p_given, q_given, channels, shift, base),
        hands_part(p_given, q_given, shift),
        by_frame(answer),
        work_is_written(q.model.program->0, q.stage(), base),
        forall|k: int|
            q.stage().audio.start <= k < q.stage().audio.end ==> steady(
                #[trigger] q.model.program->0.audio_ops[k],
            ),
    ensures
        answers_agree(
            p,
            q,
            p_given,
            q_given,
            shift,
            p.answers(p_given, answer, count),
            q.answers(q_given, answer, count),
        ),
    decreases count,
{
    if count > 0 {
        let done = (count - 1) as nat;
        lemma_answers_agree(p, q, p_given, q_given, channels, shift, base, answer, done);
        lemma_answers_len(p, p_given, answer, done);
        lemma_answers_len(q, q_given, answer, done);
        let front = p.answers(p_given, answer, done);
        let back = q.answers(q_given, answer, done);
        law_a_stage_works_frame_by_frame(
            p,
            q,
            p_given,
            q_given,
            channels,
            shift,
            base,
            front,
            back,
        );
        let pp = p.played_on(p_given, front);
        let qq = q.played_on(q_given, back);
        assert(qq.stage() == q.stage());
        lemma_part_answered(pp, qq, p_given, q_given, channels, shift, base, answer);
        let xs = p.answers(p_given, answer, count);
        let ys = q.answers(q_given, answer, count);
        assert forall|k: int| 0 <= k < xs.len() implies part_answered(
            p.played_on(p_given, xs.take(k)).asked(p_given),
            #[trigger] xs[k],
            p_given.frames as int,
            shift,
            q.played_on(q_given, ys.take(k)).asked(q_given),
            ys[k],
            q_given.frames as int,
        ) by {
            if k < done {
                assert(xs.take(k) =~= front.take(k));
                assert(ys.take(k) =~= back.take(k));
                assert(xs[k] == front[k]);
            } else {
                assert(xs.take(k) =~= front);
                assert(ys.take(k) =~= back);
            }
        }
    }
}

} // verus!
