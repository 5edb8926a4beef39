//! Stages that run over the whole block at once work frame by frame, as long as none of
//! their operations keeps anything: a part of a long block comes out as a block of that
//! length does.
use vstd::prelude::*;
use crate::audio_cx::{gather_fits, step_fits, total_width, widths_of};
use crate::block_size::{
    bus_reads, bus_writes, channels_read, channels_written, fold_writes, frame, gathered_reads,
    gathered_writes, lemma_asks_fit, lemma_bus_base, lemma_laid_frame, lemma_run, lemma_whole,
    lemma_window, part, reads_are_written, run_of_channels, same_frames, same_memory,
    same_samples, stretch, whole, written_by, BlockInput, Playing,
};
use crate::block::BlockRun;
use crate::emit_audio::lemma_total_width;
use crate::engine::EngineModel;
use crate::ir::{AudioStep, Buf, MAX_BUFFERS, MAX_BUFFER_CHANNELS, MAX_CHANNELS};
use crate::number::Sample;
use crate::run::{
    answer_channel, fitted, folds_fit, lemma_folds_fit, sound_asks, sound_did, AudioAnswer,
    AudioTask, ChunkPlace,
};
use crate::sound::{
    bus_base, folds_of, heard_width, laid, run_of, silence, Fold, SoundModel, Window,
};

verus! {

/// Two engines of which one has in a part of its window, in some channels, what the other
/// has in the whole of its own.
pub struct Parts {
    pub a: SoundModel,
    pub wide: Window,
    pub b: SoundModel,
    pub narrow: Window,
    pub from: usize,
    /// The channels in which they agree.
    pub live: Set<(Buf, int)>,
}

impl Parts {
    pub open spec fn ok(self) -> bool {
        &&& self.a.wf()
        &&& self.b.wf()
        &&& self.wide.fits(self.a.stride)
        &&& self.narrow.fits(self.b.stride)
        &&& self.from + self.narrow.frames <= self.wide.frames
        &&& self.a.daw_inputs == self.b.daw_inputs
        &&& same_samples(
            self.live,
            self.a,
            part(self.wide, self.from as int, self.narrow.frames as int),
            self.b,
            self.narrow,
        )
    }

    pub open spec fn with(self, a: SoundModel, b: SoundModel) -> Parts {
        Parts { a, b, ..self }
    }

    /// The same, agreeing in more channels.
    pub open spec fn and(self, more: Set<(Buf, int)>) -> Parts {
        Parts { live: self.live.union(more), ..self }
    }
}

/// The same memory on both sides as before.
spec fn kept(ps: Parts, next: Parts) -> bool {
    &&& same_memory(next.a, ps.a)
    &&& same_memory(next.b, ps.b)
    &&& next.a.stride == ps.a.stride
    &&& next.b.stride == ps.b.stride
}

pub proof fn lemma_read(ps: Parts, buf: Buf, channel: int)
    requires
        ps.ok(),
        buf < MAX_BUFFERS,
        0 <= channel < MAX_BUFFER_CHANNELS,
        ps.live.contains((buf, channel)),
    ensures
        ps.a.channel(buf, channel, ps.wide).len() == ps.wide.frames,
        ps.b.channel(buf, channel, ps.narrow).len() == ps.narrow.frames,
        forall|i: int|
            0 <= i < ps.narrow.frames ==> ps.a.channel(buf, channel, ps.wide)[ps.from + i]
                == #[trigger] ps.b.channel(buf, channel, ps.narrow)[i],
{
    let inner = part(ps.wide, ps.from as int, ps.narrow.frames as int);
    lemma_window(ps.a, buf, channel, ps.wide);
    lemma_window(ps.a, buf, channel, inner);
    lemma_window(ps.b, buf, channel, ps.narrow);
    assert(whole(inner) == whole(ps.wide));
    let x = ps.a.channel(buf, channel, ps.wide);
    let y = ps.b.channel(buf, channel, ps.narrow);
    assert(ps.a.channel(buf, channel, inner) == y);
    assert forall|i: int| 0 <= i < ps.narrow.frames implies x[ps.from + i] == #[trigger] y[i] by {
        assert(ps.a.channel(buf, channel, inner)[i] == y[i]);
    }
}

proof fn lemma_write(ps: Parts, buf: Buf, channel: int, x: Seq<Sample>, y: Seq<Sample>)
    requires
        ps.ok(),
        buf < MAX_BUFFERS,
        0 <= channel < MAX_BUFFER_CHANNELS,
        x.len() == ps.wide.frames,
        y.len() == ps.narrow.frames,
        forall|i: int| 0 <= i < y.len() ==> x[ps.from + i] == #[trigger] y[i],
    ensures
        ({
            let next = ps.with(
                ps.a.with_channel(buf, channel, ps.wide, x),
                ps.b.with_channel(buf, channel, ps.narrow, y),
            ).and(set![(buf, channel)]);
            next.ok() && kept(ps, next)
        }),
{
    let a = ps.a.with_channel(buf, channel, ps.wide, x);
    let b = ps.b.with_channel(buf, channel, ps.narrow, y);
    let inner = part(ps.wide, ps.from as int, ps.narrow.frames as int);
    lemma_whole(ps.a, buf, channel, ps.wide, x, buf, channel);
    lemma_whole(ps.b, buf, channel, ps.narrow, y, buf, channel);
    assert(whole(inner) == whole(ps.wide));
    let live = ps.live.union(set![(buf, channel)]);
    assert forall|other: Buf, och: int|
        #[trigger] live.contains((other, och)) && other < MAX_BUFFERS && 0 <= och
            < MAX_BUFFER_CHANNELS implies a.channel(other, och, inner) == b.channel(
        other,
        och,
        ps.narrow,
    ) by {
        lemma_whole(ps.a, buf, channel, ps.wide, x, other, och);
        lemma_whole(ps.b, buf, channel, ps.narrow, y, other, och);
        lemma_window(a, other, och, inner);
        lemma_window(b, other, och, ps.narrow);
        lemma_window(ps.a, other, och, inner);
        lemma_window(ps.b, other, och, ps.narrow);
        let u = a.channel(other, och, inner);
        let v = b.channel(other, och, ps.narrow);
        assert forall|i: int| 0 <= i < ps.narrow.frames implies u[i] == v[i] by {
            assert(x[ps.from + i] == y[i]);
            if buf != other || channel != och {
                assert(ps.live.contains((other, och)));
                assert(ps.a.channel(other, och, inner)[i]
                    == ps.b.channel(other, och, ps.narrow)[i]);
            }
        }
        assert(u =~= v);
    }
}

/// Agreeing in fewer channels is agreeing.
proof fn lemma_less(ps: Parts, live: Set<(Buf, int)>)
    requires
        ps.ok(),
        live.subset_of(ps.live),
    ensures
        (Parts { live, ..ps }).ok(),
{
    let inner = part(ps.wide, ps.from as int, ps.narrow.frames as int);
    assert forall|buf: Buf, channel: int|
        #[trigger] live.contains((buf, channel)) && buf < MAX_BUFFERS && 0 <= channel
            < MAX_BUFFER_CHANNELS implies ps.a.channel(buf, channel, inner) == ps.b.channel(
        buf,
        channel,
        ps.narrow,
    ) by {
        assert(ps.live.contains((buf, channel)));
    }
}

proof fn lemma_none(ps: Parts, more: Set<(Buf, int)>)
    requires
        ps.ok(),
        more.subset_of(ps.live),
    ensures
        ps.and(more).ok(),
{
    lemma_less(ps, ps.live.union(more));
}

/// One more channel behind a run of them.
proof fn lemma_run_grows(ps: Parts, buf: Buf, first: int, count: int)
    requires
        0 <= count,
        ps.and(run_of_channels(buf, first, count)).and(set![(buf, first + count)]).ok(),
    ensures
        ps.and(run_of_channels(buf, first, count + 1)).ok(),
{
    let more = ps.and(run_of_channels(buf, first, count)).and(set![(buf, first + count)]);
    lemma_less(more, ps.live.union(run_of_channels(buf, first, count + 1)));
}

proof fn lemma_quiet(ps: Parts, buf: Buf, channel: int)
    requires
        ps.ok(),
        buf < MAX_BUFFERS,
        0 <= channel < MAX_BUFFER_CHANNELS,
    ensures
        ({
            let next = ps.with(
                ps.a.with_channel(buf, channel, ps.wide, silence(ps.wide.frames as nat)),
                ps.b.with_channel(buf, channel, ps.narrow, silence(ps.narrow.frames as nat)),
            ).and(set![(buf, channel)]);
            next.ok() && kept(ps, next)
        }),
{
    lemma_write(
        ps,
        buf,
        channel,
        silence(ps.wide.frames as nat),
        silence(ps.narrow.frames as nat),
    );
}

proof fn lemma_silenced(ps: Parts, buf: Buf)
    requires
        ps.ok(),
        buf < MAX_BUFFERS,
    ensures
        ({
            let next = ps.with(ps.a.silenced(buf, ps.wide), ps.b.silenced(buf, ps.narrow)).and(
                run_of_channels(buf, 0, 2),
            );
            next.ok() && kept(ps, next)
        }),
{
    lemma_quiet(ps, buf, 0);
    let next = ps.with(
        ps.a.with_channel(buf, 0, ps.wide, silence(ps.wide.frames as nat)),
        ps.b.with_channel(buf, 0, ps.narrow, silence(ps.narrow.frames as nat)),
    ).and(set![(buf, 0int)]);
    lemma_quiet(next, buf, 1);
    let last = ps.with(ps.a.silenced(buf, ps.wide), ps.b.silenced(buf, ps.narrow)).and(
        set![(buf, 0int)],
    ).and(set![(buf, 1int)]);
    assert(last.ok());
    lemma_less(last, ps.live.union(run_of_channels(buf, 0, 2)));
}

proof fn lemma_copied(ps: Parts, from: Buf, from_channel: int, to: Buf, to_channel: int)
    requires
        ps.ok(),
        from < MAX_BUFFERS,
        to < MAX_BUFFERS,
        0 <= from_channel < MAX_BUFFER_CHANNELS,
        0 <= to_channel < MAX_BUFFER_CHANNELS,
        ps.live.contains((from, from_channel)),
    ensures
        ({
            let next = ps.with(
                ps.a.copied(from, from_channel, to, to_channel, ps.wide),
                ps.b.copied(from, from_channel, to, to_channel, ps.narrow),
            ).and(set![(to, to_channel)]);
            next.ok() && kept(ps, next)
        }),
{
    lemma_read(ps, from, from_channel);
    lemma_write(
        ps,
        to,
        to_channel,
        ps.a.channel(from, from_channel, ps.wide),
        ps.b.channel(from, from_channel, ps.narrow),
    );
}

/// The DAW hands the part what it hands the other.
pub open spec fn part_given(ps: Parts, x: Seq<Sample>, y: Seq<Sample>) -> bool {
    forall|channel: int, i: int|
        0 <= channel && 0 <= i < ps.narrow.frames ==> #[trigger] frame(
            y,
            ps.narrow.block as int,
            channel,
            ps.narrow.start + i,
        ) == frame(x, ps.wide.block as int, channel, ps.wide.start + ps.from + i)
}

proof fn lemma_taken_in(
    ps: Parts,
    out: Buf,
    bus: u16,
    x: Seq<Sample>,
    y: Seq<Sample>,
    count: nat,
)
    requires
        ps.ok(),
        part_given(ps, x, y),
        out < MAX_BUFFERS,
        bus < ps.a.daw_inputs.len(),
        count <= MAX_CHANNELS,
    ensures
        ({
            let next = ps.with(
                ps.a.taken_in(out, bus, x, ps.wide, count),
                ps.b.taken_in(out, bus, y, ps.narrow, count),
            ).and(run_of_channels(out, 0, count as int));
            next.ok() && kept(ps, next)
        }),
    decreases count,
{
    if count == 0 {
        lemma_none(ps, run_of_channels(out, 0, 0));
    } else {
        lemma_taken_in(ps, out, bus, x, y, (count - 1) as nat);
        let next = ps.with(
            ps.a.taken_in(out, bus, x, ps.wide, (count - 1) as nat),
            ps.b.taken_in(out, bus, y, ps.narrow, (count - 1) as nat),
        ).and(run_of_channels(out, 0, count - 1));
        let channel = count - 1;
        let widths = ps.a.daw_inputs;
        if channel < widths[bus as int] {
            let low = bus_base(widths, bus as nat, 1);
            lemma_bus_base(widths, bus as nat, ps.wide.block as int);
            lemma_bus_base(widths, bus as nat, ps.narrow.block as int);
            let at = bus_base(widths, bus as nat, ps.wide.block as int) + channel * ps.wide.block
                + ps.wide.start;
            let bt = bus_base(widths, bus as nat, ps.narrow.block as int) + channel
                * ps.narrow.block + ps.narrow.start;
            let u = run_of(x, at, ps.wide.frames as nat);
            let v = run_of(y, bt, ps.narrow.frames as nat);
            assert forall|i: int| 0 <= i < v.len() implies u[ps.from + i] == #[trigger] v[i] by {
                lemma_run(x, low, channel, ps.wide, at, ps.from + i);
                lemma_run(y, low, channel, ps.narrow, bt, i);
                assert(frame(y, ps.narrow.block as int, low + channel, ps.narrow.start + i)
                    == frame(
                    x,
                    ps.wide.block as int,
                    low + channel,
                    ps.wide.start + ps.from + i,
                ));
            }
            lemma_write(next, out, channel, u, v);
        } else {
            lemma_quiet(next, out, channel);
        }
        lemma_run_grows(
            ps.with(
                ps.a.taken_in(out, bus, x, ps.wide, count),
                ps.b.taken_in(out, bus, y, ps.narrow, count),
            ),
            out,
            0,
            channel,
        );
    }
}

proof fn lemma_bus_laid(
    ps: Parts,
    out: Buf,
    base: int,
    from: Buf,
    have: u16,
    want: u16,
    count: nat,
)
    requires
        ps.ok(),
        out < MAX_BUFFERS,
        from < MAX_BUFFERS,
        0 <= base,
        count <= want,
        base + want <= MAX_BUFFER_CHANNELS,
        have <= MAX_BUFFER_CHANNELS,
        bus_reads(from, have, want).subset_of(ps.live),
    ensures
        ({
            let next = ps.with(
                ps.a.bus_laid(out, base, from, have, want, ps.wide, count),
                ps.b.bus_laid(out, base, from, have, want, ps.narrow, count),
            ).and(
                if want == 1 && have > 1 {
                    Set::empty()
                } else {
                    run_of_channels(out, base, count as int)
                },
            );
            next.ok() && kept(ps, next)
        }),
    decreases count,
{
    if count == 0 {
        lemma_none(ps, run_of_channels(out, base, 0));
        lemma_none(ps, Set::empty());
    } else {
        lemma_bus_laid(ps, out, base, from, have, want, (count - 1) as nat);
        let wrote = if want == 1 && have > 1 {
            Set::empty()
        } else {
            run_of_channels(out, base, count - 1)
        };
        let next = ps.with(
            ps.a.bus_laid(out, base, from, have, want, ps.wide, (count - 1) as nat),
            ps.b.bus_laid(out, base, from, have, want, ps.narrow, (count - 1) as nat),
        ).and(wrote);
        let channel = count - 1;
        if !(want == 1 && have > 1) {
            if have == 1 && want > 1 {
                assert(bus_reads(from, have, want).contains((from, 0int)));
                lemma_copied(next, from, 0, out, base + channel);
            } else if channel < have {
                assert(bus_reads(from, have, want).contains((from, channel)));
                lemma_copied(next, from, channel, out, base + channel);
            } else {
                lemma_quiet(next, out, base + channel);
            }
            lemma_run_grows(
                ps.with(
                    ps.a.bus_laid(out, base, from, have, want, ps.wide, count),
                    ps.b.bus_laid(out, base, from, have, want, ps.narrow, count),
                ),
                out,
                base,
                channel,
            );
        }
    }
}

proof fn lemma_gathered(
    ps: Parts,
    out: Buf,
    buses: Seq<(Buf, u16)>,
    widths: Seq<u16>,
    count: nat,
)
    requires
        ps.ok(),
        widths.len() <= MAX_BUFFERS,
        forall|i: int| 0 <= i < widths.len() ==> #[trigger] widths[i] <= MAX_BUFFER_CHANNELS,
        gather_fits(out, buses, widths.len()),
        count <= buses.len(),
        gathered_reads(buses, widths).subset_of(ps.live),
    ensures
        ({
            let next = ps.with(
                ps.a.gathered(out, buses, widths, ps.wide, count),
                ps.b.gathered(out, buses, widths, ps.narrow, count),
            ).and(gathered_writes(out, buses, widths, count));
            next.ok() && kept(ps, next)
        }),
    decreases count,
{
    if count == 0 {
        lemma_none(ps, Set::empty());
    } else {
        lemma_gathered(ps, out, buses, widths, (count - 1) as nat);
        let next = ps.with(
            ps.a.gathered(out, buses, widths, ps.wide, (count - 1) as nat),
            ps.b.gathered(out, buses, widths, ps.narrow, (count - 1) as nat),
        ).and(gathered_writes(out, buses, widths, (count - 1) as nat));
        let (from, want) = buses[count - 1];
        let have = widths[from as int];
        let asked = widths_of(buses);
        let base = total_width(asked.take(count - 1)) as int;
        lemma_total_width(asked, count - 1, asked.len() as int);
        assert(asked.take(asked.len() as int) =~= asked);
        assert(have <= MAX_BUFFER_CHANNELS);
        assert forall|at: (Buf, int)| bus_reads(from, have, want).contains(at) implies next.live.contains(
            at,
        ) by {
            assert(buses[count - 1].0 == from);
            assert(gathered_reads(buses, widths).contains(at));
        }
        lemma_bus_laid(next, out, base, from, have, want, want as nat);
        let last = next.with(
            ps.a.gathered(out, buses, widths, ps.wide, count),
            ps.b.gathered(out, buses, widths, ps.narrow, count),
        ).and(bus_writes(out, base, have, want));
        assert(last.ok());
        lemma_less(last, ps.live.union(gathered_writes(out, buses, widths, count)));
    }
}

proof fn lemma_split(ps: Parts, from: Buf, first: int, out: Buf, count: nat)
    requires
        ps.ok(),
        from < MAX_BUFFERS,
        out < MAX_BUFFERS,
        0 <= first,
        first + count <= MAX_BUFFER_CHANNELS,
        run_of_channels(from, first, count as int).subset_of(ps.live),
    ensures
        ({
            let next = ps.with(
                ps.a.split(from, first, out, ps.wide, count),
                ps.b.split(from, first, out, ps.narrow, count),
            ).and(run_of_channels(out, 0, count as int));
            next.ok() && kept(ps, next)
        }),
    decreases count,
{
    if count == 0 {
        lemma_none(ps, run_of_channels(out, 0, 0));
    } else {
        assert(run_of_channels(from, first, count - 1).subset_of(
            run_of_channels(from, first, count as int),
        ));
        lemma_split(ps, from, first, out, (count - 1) as nat);
        let next = ps.with(
            ps.a.split(from, first, out, ps.wide, (count - 1) as nat),
            ps.b.split(from, first, out, ps.narrow, (count - 1) as nat),
        ).and(run_of_channels(out, 0, count - 1));
        assert(run_of_channels(from, first, count as int).contains((from, first + count - 1)));
        lemma_copied(next, from, first + count - 1, out, count - 1);
        lemma_run_grows(
            ps.with(
                ps.a.split(from, first, out, ps.wide, count),
                ps.b.split(from, first, out, ps.narrow, count),
            ),
            out,
            0,
            count - 1,
        );
    }
}

/// Whether an operation keeps nothing from one frame to the next.
pub open spec fn keeps_nothing(step: AudioStep) -> bool {
    match step {
        AudioStep::Silence { .. } => true,
        AudioStep::Input { .. } => true,
        AudioStep::Output { .. } => true,
        AudioStep::Gather { .. } => true,
        AudioStep::Split { .. } => true,
        AudioStep::Plugin { .. } => true,
        AudioStep::Mix { .. } => true,
        _ => false,
    }
}

/// How many channels an answer has to have.
pub open spec fn channels_asked(task: AudioTask) -> nat {
    match task {
        AudioTask::Fold { list, .. } => list.len(),
        AudioTask::Plugin { call } => call.output_width as nat,
        AudioTask::Mix { width, .. } => width as nat,
        _ => 0,
    }
}

/// One frame of one channel of an answer that is `frames` long.
pub open spec fn answered_frame(
    task: AudioTask,
    answer: AudioAnswer,
    frames: int,
    channel: int,
    i: int,
) -> Sample {
    match task {
        AudioTask::Plugin { call } => fitted(
            answer_channel(answer.channels@, 0),
            (call.output_width * frames) as nat,
        )[channel * frames + i],
        _ => fitted(answer_channel(answer.channels@, channel), frames as nat)[i],
    }
}

/// The answer to one has in a part of it what the answer to the other is.
pub open spec fn part_answered(
    one: AudioTask,
    x: AudioAnswer,
    frames: int,
    from: int,
    other: AudioTask,
    y: AudioAnswer,
    count: int,
) -> bool {
    forall|channel: int, i: int|
        0 <= channel < channels_asked(one) && 0 <= i < count ==> #[trigger] answered_frame(
            other,
            y,
            count,
            channel,
            i,
        ) == answered_frame(one, x, frames, channel, from + i)
}

/// The first `count` channels of one answer have in a part of them what those of the other
/// are.
spec fn channels_agree(
    ps: Parts,
    x: Seq<Vec<Sample>>,
    y: Seq<Vec<Sample>>,
    count: nat,
) -> bool {
    forall|channel: int, i: int|
        0 <= channel < count && 0 <= i < ps.narrow.frames ==> fitted(
            answer_channel(x, channel),
            ps.wide.frames as nat,
        )[ps.from + i] == #[trigger] fitted(
            answer_channel(y, channel),
            ps.narrow.frames as nat,
        )[i]
}

proof fn lemma_channels_agree(
    ps: Parts,
    one: AudioTask,
    x: AudioAnswer,
    other: AudioTask,
    y: AudioAnswer,
)
    requires
        one !is Plugin,
        other !is Plugin,
        part_answered(
            one,
            x,
            ps.wide.frames as int,
            ps.from as int,
            other,
            y,
            ps.narrow.frames as int,
        ),
    ensures
        channels_agree(ps, x.channels@, y.channels@, channels_asked(one)),
{
    let f = ps.wide.frames as int;
    let g = ps.narrow.frames as int;
    assert forall|channel: int, i: int|
        0 <= channel < channels_asked(one) && 0 <= i < ps.narrow.frames implies fitted(
        answer_channel(x.channels@, channel),
        ps.wide.frames as nat,
    )[ps.from + i] == #[trigger] fitted(
        answer_channel(y.channels@, channel),
        ps.narrow.frames as nat,
    )[i] by {
        assert(answered_frame(other, y, g, channel, i) == answered_frame(
            one,
            x,
            f,
            channel,
            ps.from + i,
        ));
    }
}

proof fn lemma_channels_set(
    ps: Parts,
    out: Buf,
    x: Seq<Vec<Sample>>,
    y: Seq<Vec<Sample>>,
    count: nat,
)
    requires
        ps.ok(),
        out < MAX_BUFFERS,
        count <= MAX_BUFFER_CHANNELS,
        channels_agree(ps, x, y, count),
    ensures
        ({
            let next = ps.with(
                ps.a.channels_set(out, x, ps.wide, count),
                ps.b.channels_set(out, y, ps.narrow, count),
            ).and(run_of_channels(out, 0, count as int));
            next.ok() && kept(ps, next)
        }),
    decreases count,
{
    if count == 0 {
        lemma_none(ps, run_of_channels(out, 0, 0));
    } else {
        lemma_channels_set(ps, out, x, y, (count - 1) as nat);
        let next = ps.with(
            ps.a.channels_set(out, x, ps.wide, (count - 1) as nat),
            ps.b.channels_set(out, y, ps.narrow, (count - 1) as nat),
        ).and(run_of_channels(out, 0, count - 1));
        lemma_write(
            next,
            out,
            count - 1,
            fitted(answer_channel(x, count - 1), ps.wide.frames as nat),
            fitted(answer_channel(y, count - 1), ps.narrow.frames as nat),
        );
        lemma_run_grows(
            ps.with(
                ps.a.channels_set(out, x, ps.wide, count),
                ps.b.channels_set(out, y, ps.narrow, count),
            ),
            out,
            0,
            count - 1,
        );
    }
}

proof fn lemma_folds_set(
    ps: Parts,
    list: Seq<Fold>,
    x: Seq<Vec<Sample>>,
    y: Seq<Vec<Sample>>,
    count: nat,
)
    requires
        ps.ok(),
        folds_fit(list),
        count <= list.len(),
        channels_agree(ps, x, y, count),
    ensures
        ({
            let next = ps.with(
                ps.a.folds_set(list, x, ps.wide, count),
                ps.b.folds_set(list, y, ps.narrow, count),
            ).and(fold_writes(list, count));
            next.ok() && kept(ps, next)
        }),
    decreases count,
{
    if count == 0 {
        lemma_none(ps, Set::empty());
    } else {
        lemma_folds_set(ps, list, x, y, (count - 1) as nat);
        let next = ps.with(
            ps.a.folds_set(list, x, ps.wide, (count - 1) as nat),
            ps.b.folds_set(list, y, ps.narrow, (count - 1) as nat),
        ).and(fold_writes(list, (count - 1) as nat));
        assert(list[count - 1].out < MAX_BUFFERS);
        lemma_write(
            next,
            list[count - 1].out,
            list[count - 1].channel as int,
            fitted(answer_channel(x, count - 1), ps.wide.frames as nat),
            fitted(answer_channel(y, count - 1), ps.narrow.frames as nat),
        );
        let last = next.with(
            ps.a.folds_set(list, x, ps.wide, count),
            ps.b.folds_set(list, y, ps.narrow, count),
        ).and(set![(list[count - 1].out, list[count - 1].channel as int)]);
        assert(last.ok());
        lemma_less(last, ps.live.union(fold_writes(list, count)));
    }
}

proof fn lemma_unpacked(
    ps: Parts,
    buf: Buf,
    x: Seq<Sample>,
    y: Seq<Sample>,
    count: nat,
    width: nat,
)
    requires
        ps.ok(),
        buf < MAX_BUFFERS,
        count <= width <= MAX_BUFFER_CHANNELS,
        x.len() == width * ps.wide.frames,
        y.len() == width * ps.narrow.frames,
        forall|channel: int, i: int|
            0 <= channel < width && 0 <= i < ps.narrow.frames ==> x[channel * ps.wide.frames
                + ps.from + i] == #[trigger] y[channel * ps.narrow.frames + i],
    ensures
        ({
            let next = ps.with(
                ps.a.unpacked(buf, x, ps.wide, count),
                ps.b.unpacked(buf, y, ps.narrow, count),
            ).and(run_of_channels(buf, 0, count as int));
            next.ok() && kept(ps, next)
        }),
    decreases count,
{
    if count == 0 {
        lemma_none(ps, run_of_channels(buf, 0, 0));
    } else {
        lemma_unpacked(ps, buf, x, y, (count - 1) as nat, width);
        let next = ps.with(
            ps.a.unpacked(buf, x, ps.wide, (count - 1) as nat),
            ps.b.unpacked(buf, y, ps.narrow, (count - 1) as nat),
        ).and(run_of_channels(buf, 0, count - 1));
        let f = ps.wide.frames as int;
        let g = ps.narrow.frames as int;
        let channel = count - 1;
        assert(0 <= channel * f && channel * f + f == count * f && count * f <= width * f && 0
            <= channel * g && channel * g + g == count * g && count * g <= width * g)
            by (nonlinear_arith)
            requires
                0 < count <= width,
                channel == count - 1,
                0 <= f,
                0 <= g,
        ;
        let u = x.subrange(channel * f, count * f);
        let v = y.subrange(channel * g, count * g);
        assert forall|i: int| 0 <= i < v.len() implies u[ps.from + i] == #[trigger] v[i] by {
            assert(v[i] == y[channel * g + i]);
            assert(u[ps.from + i] == x[channel * f + ps.from + i]);
        }
        lemma_write(next, buf, channel, u, v);
        lemma_run_grows(
            ps.with(
                ps.a.unpacked(buf, x, ps.wide, count),
                ps.b.unpacked(buf, y, ps.narrow, count),
            ),
            buf,
            0,
            channel,
        );
    }
}

/// An operation that keeps nothing leaves in a part of its window what it leaves when it
/// runs over that part by itself, given an answer that has in that part what the other's
/// answer is, and it leaves the memory as it is.
#[verifier::spinoff_prover]
pub proof fn law_operations_work_frame_by_frame(
    ps: Parts,
    p: EngineModel,
    q: EngineModel,
    step: AudioStep,
    widths: Seq<u16>,
    p_place: ChunkPlace,
    q_place: ChunkPlace,
    p_given: BlockInput,
    q_given: BlockInput,
    x: AudioAnswer,
    y: AudioAnswer,
)
    requires
        ps.ok(),
        ps.a == p.sound,
        ps.b == q.sound,
        p_place.win == ps.wide,
        q_place.win == ps.narrow,
        keeps_nothing(step),
        part_given(ps, p_given.daw_in, q_given.daw_in),
        widths.len() <= MAX_BUFFERS,
        forall|i: int| 0 <= i < widths.len() ==> #[trigger] widths[i] <= MAX_BUFFER_CHANNELS,
        step_fits(step, widths.len()),
        channels_read(step, widths).subset_of(ps.live),
        part_answered(
            sound_asks(ps.a, p.params, step, widths, p_place, p_given.rows),
            x,
            ps.wide.frames as int,
            ps.from as int,
            sound_asks(ps.b, q.params, step, widths, q_place, q_given.rows),
            y,
            ps.narrow.frames as int,
        ),
    ensures
        ({
            let one = sound_asks(ps.a, p.params, step, widths, p_place, p_given.rows);
            let other = sound_asks(ps.b, q.params, step, widths, q_place, q_given.rows);
            let did_a = sound_did(ps.a, step, widths, ps.wide, p_given.daw_in);
            let did_b = sound_did(ps.b, step, widths, ps.narrow, q_given.daw_in);
            let a = (EngineModel { sound: did_a, ..p }).sound_answered(one, ps.wide, x);
            let b = (EngineModel { sound: did_b, ..q }).sound_answered(other, ps.narrow, y);
            &&& ps.with(a.sound, b.sound).and(channels_written(step, widths)).ok()
            &&& same_memory(a.sound, p.sound)
            &&& same_memory(b.sound, q.sound)
            &&& a.sound.stride == p.sound.stride
            &&& b.sound.stride == q.sound.stride
            &&& a == (EngineModel { sound: a.sound, ..p })
            &&& b == (EngineModel { sound: b.sound, ..q })
        }),
{
    let one = sound_asks(ps.a, p.params, step, widths, p_place, p_given.rows);
    let other = sound_asks(ps.b, q.params, step, widths, q_place, q_given.rows);
    lemma_asks_fit(ps.a, p.params, step, widths, p_place, p_given.rows);
    let wrote = ps.live.union(channels_written(step, widths));
    match step {
        AudioStep::Silence { out } => {
            lemma_silenced(ps, out);
        },
        AudioStep::Input { out, bus } => {
            let count = heard_width(widths[out as int]) as nat;
            if bus < ps.a.daw_inputs.len() {
                lemma_taken_in(ps, out, bus, p_given.daw_in, q_given.daw_in, count);
            } else {
                lemma_silenced(ps, out);
                let next = ps.with(
                    ps.a.silenced(out, ps.wide),
                    ps.b.silenced(out, ps.narrow),
                ).and(run_of_channels(out, 0, 2));
                lemma_less(next, wrote);
            }
        },
        AudioStep::Gather { out, buses, .. } => {
            lemma_gathered(ps, out, buses, widths, buses.len());
            let next = ps.with(
                ps.a.gathered(out, buses, widths, ps.wide, buses.len()),
                ps.b.gathered(out, buses, widths, ps.narrow, buses.len()),
            ).and(gathered_writes(out, buses, widths, buses.len()));
            let list = folds_of(out, buses, widths, buses.len());
            lemma_folds_fit(out, buses, widths, buses.len());
            if list.len() > 0 {
                lemma_channels_agree(next, one, x, other, y);
            }
            lemma_folds_set(next, list, x.channels@, y.channels@, list.len());
            let last = next.with(
                next.a.folds_set(list, x.channels@, ps.wide, list.len()),
                next.b.folds_set(list, y.channels@, ps.narrow, list.len()),
            ).and(fold_writes(list, list.len()));
            lemma_less(last, wrote);
        },
        AudioStep::Split { from, out, channel, width } => {
            lemma_split(ps, from, channel as int, out, width as nat);
        },
        AudioStep::Plugin { output, output_buses, .. } => {
            let width = total_width(output_buses) as nat;
            let f = ps.wide.frames as int;
            let g = ps.narrow.frames as int;
            let u = fitted(answer_channel(x.channels@, 0), (width as u16 * f) as nat);
            let v = fitted(answer_channel(y.channels@, 0), (width as u16 * g) as nat);
            assert(0 <= width * f && 0 <= width * g) by (nonlinear_arith)
                requires
                    0 <= f,
                    0 <= g,
            ;
            assert forall|channel: int, i: int|
                0 <= channel < width && 0 <= i < g implies u[channel * f + ps.from + i]
                == #[trigger] v[channel * g + i] by {
                assert(answered_frame(other, y, g, channel, i) == answered_frame(
                    one,
                    x,
                    f,
                    channel,
                    ps.from + i,
                ));
            }
            lemma_unpacked(ps, output, u, v, width, width);
        },
        AudioStep::Mix { out, inputs } => {
            if inputs.len() == 0 {
                lemma_silenced(ps, out);
                let next = ps.with(
                    ps.a.silenced(out, ps.wide),
                    ps.b.silenced(out, ps.narrow),
                ).and(run_of_channels(out, 0, 2));
                lemma_less(next, wrote);
            } else {
                lemma_channels_agree(ps, one, x, other, y);
                lemma_channels_set(
                    ps,
                    out,
                    x.channels@,
                    y.channels@,
                    heard_width(widths[out as int]) as nat,
                );
            }
        },
        _ => {
            lemma_none(ps, Set::empty());
        },
    }
}

impl Playing {
    /// A place in the audio of a stage that runs over the whole block at once and keeps
    /// nothing.
    pub open spec fn in_whole_block(self) -> bool {
        &&& self.run.phase is Audio
        &&& self.run.cut(self.model) is Some
        &&& self.stage().chunking is WholeBlock
        &&& self.model.wf()
        &&& self.stage().audio.start <= self.at() <= self.stage().audio.end
        &&& self.row() <= self.start()
        &&& self.tap() == 0
        &&& forall|k: int|
            self.stage().audio.start <= k < self.stage().audio.end ==> keeps_nothing(
                #[trigger] self.model.program->0.audio_ops[k],
            )
    }
}

/// What has been written when a run stands where it does. Behind the last operation the
/// run starts over, at the end of the block.
pub open spec fn written_so_far(q: Playing, base: Set<(Buf, int)>) -> Set<(Buf, int)> {
    let program = q.model.program->0;
    let audio = q.stage().audio;
    base.union(
        written_by(
            program.audio_ops,
            program.buffers,
            audio.start as int,
            if q.start() == 0 {
                q.at()
            } else {
                audio.end as int
            },
        ),
    )
}

/// Two runs of such a stage at the same operation: the block of one has in a part of it,
/// from `shift` on, what the block of the other is.
pub open spec fn side_by_side(
    p: Playing,
    q: Playing,
    p_given: BlockInput,
    q_given: BlockInput,
    channels: nat,
    shift: int,
    base: Set<(Buf, int)>,
) -> bool {
    &&& p.in_whole_block()
    &&& q.in_whole_block()
    &&& p.model.program == q.model.program
    &&& p.run.stage == q.run.stage
    &&& p.at() == q.at()
    &&& 0 <= shift
    &&& 0 < q_given.frames <= q.model.sound.stride
    &&& shift + q_given.frames <= p_given.frames <= p.model.sound.stride
    &&& p.start() == 0 && q.start() == 0 || p.start() == p_given.frames && q.start()
        == q_given.frames
    &&& p.model.sound.daw_inputs == q.model.sound.daw_inputs
    &&& reads_are_written(q.model.program->0, q.stage(), base)
    &&& same_samples(
        written_so_far(q, base),
        p.model.sound,
        stretch(p_given, shift, q_given.frames as int),
        q.model.sound,
        stretch(q_given, 0, q_given.frames as int),
    )
    &&& p.heard.len() == channels * p_given.frames
    &&& q.heard.len() == channels * q_given.frames
    &&& same_frames(
        p.heard,
        p_given.frames as int,
        shift,
        q.heard,
        q_given.frames as int,
        channels,
        q_given.frames as int,
    )
}

/// The part of what one block is handed that the other is handed.
pub open spec fn hands_part(p: BlockInput, q: BlockInput, shift: int) -> bool {
    forall|c: int, i: int|
        0 <= c && 0 <= i < q.frames ==> #[trigger] frame(q.daw_in, q.frames as int, c, i) == frame(
            p.daw_in,
            p.frames as int,
            c,
            shift + i,
        )
}

proof fn lemma_handed_out(
    ps: Parts,
    p: Seq<Sample>,
    q: Seq<Sample>,
    channels: nat,
    buf: Buf,
    count: nat,
)
    requires
        ps.ok(),
        ps.wide.start == 0,
        ps.narrow.start == 0,
        ps.wide.frames == ps.wide.block,
        ps.narrow.frames == ps.narrow.block,
        0 < ps.narrow.frames,
        buf < MAX_BUFFERS,
        count <= MAX_CHANNELS,
        run_of_channels(buf, 0, count as int).subset_of(ps.live),
        p.len() == channels * ps.wide.frames,
        q.len() == channels * ps.narrow.frames,
        same_frames(
            p,
            ps.wide.frames as int,
            ps.from as int,
            q,
            ps.narrow.frames as int,
            channels,
            ps.narrow.frames as int,
        ),
    ensures
        ({
            let x = ps.a.handed_out(p, buf, ps.wide, count);
            let y = ps.b.handed_out(q, buf, ps.narrow, count);
            &&& x.len() == p.len()
            &&& y.len() == q.len()
            &&& same_frames(
                x,
                ps.wide.frames as int,
                ps.from as int,
                y,
                ps.narrow.frames as int,
                channels,
                ps.narrow.frames as int,
            )
        }),
    decreases count,
{
    if count > 0 {
        assert(run_of_channels(buf, 0, count - 1).subset_of(run_of_channels(buf, 0, count as int)));
        assert(run_of_channels(buf, 0, count as int).contains((buf, count - 1)));
        lemma_handed_out(ps, p, q, channels, buf, (count - 1) as nat);
        let x = ps.a.handed_out(p, buf, ps.wide, (count - 1) as nat);
        let y = ps.b.handed_out(q, buf, ps.narrow, (count - 1) as nat);
        let channel = count - 1;
        let f = ps.wide.frames as int;
        let g = ps.narrow.frames as int;
        let u = ps.a.channel(buf, channel, ps.wide);
        let v = ps.b.channel(buf, channel, ps.narrow);
        lemma_read(ps, buf, channel);
        if channel < channels {
            assert(channel * f + f <= channels * f && channel * g + g <= channels * g)
                by (nonlinear_arith)
                requires
                    channel < channels,
                    0 <= f,
                    0 <= g,
            ;
            let xx = laid(x, channel * f + 0, u);
            let yy = laid(y, channel * g + 0, v);
            assert forall|c: int, i: int| 0 <= c < channels && 0 <= i < g implies #[trigger] frame(
                yy,
                g,
                c,
                i,
            ) == frame(xx, f, c, ps.from + i) by {
                lemma_laid_frame(y, g, channels, channel, 0, v, c, i);
                lemma_laid_frame(x, f, channels, channel, 0, u, c, ps.from + i);
                assert(frame(y, g, c, i) == frame(x, f, c, ps.from + i));
            }
        } else {
            assert(channel * f >= channels * f && channel * g >= channels * g)
                by (nonlinear_arith)
                requires
                    channel >= channels,
                    0 <= f,
                    0 <= g,
            ;
        }
    }
}

/// A step of a stage that works frame by frame does to a part of the long block what it
/// does to a block that is that part, and keeps nothing.
#[verifier::rlimit(50)]
#[verifier::spinoff_prover]
proof fn lemma_side_by_side(
    p: Playing,
    q: Playing,
    p_given: BlockInput,
    q_given: BlockInput,
    channels: nat,
    shift: int,
    base: Set<(Buf, int)>,
    x: AudioAnswer,
    y: AudioAnswer,
)
    requires
        side_by_side(p, q, p_given, q_given, channels, shift, base),
        hands_part(p_given, q_given, shift),
        part_answered(
            p.asked(p_given),
            x,
            p_given.frames as int,
            shift,
            q.asked(q_given),
            y,
            q_given.frames as int,
        ),
    ensures
        ({
            let pp = p.played(p_given, x);
            let qq = q.played(q_given, y);
            &&& side_by_side(pp, qq, p_given, q_given, channels, shift, base)
            &&& same_memory(pp.model.sound, p.model.sound)
            &&& same_memory(qq.model.sound, q.model.sound)
            &&& pp.model == (EngineModel { sound: pp.model.sound, ..p.model })
            &&& qq.model == (EngineModel { sound: qq.model.sound, ..q.model })
            &&& pp.model.sound.stride == p.model.sound.stride
            &&& qq.model.sound.stride == q.model.sound.stride
            &&& pp.run == (BlockRun { phase: pp.run.phase, ..p.run })
            &&& qq.run == (BlockRun { phase: qq.run.phase, ..q.run })
            &&& q.start() == 0 && q.at() < q.stage().audio.end ==> qq.start() == 0 && qq.at()
                == q.at() + 1
            &&& q.start() == 0 && q.at() == q.stage().audio.end ==> qq.start() == q_given.frames
            &&& q.start() > 0 ==> qq == q && pp == p
        }),
{
    let program = p.model.program->0;
    let cut = p.stage();
    assert(program.stages[p.run.stage as int] == cut);
    assert(cut.audio.fits(program.audio_ops.len()));
    if q.start() == 0 {
        let ps = Parts {
            a: p.model.sound,
            wide: stretch(p_given, 0, p_given.frames as int),
            b: q.model.sound,
            narrow: stretch(q_given, 0, q_given.frames as int),
            from: shift as usize,
            live: written_so_far(q, base),
        };
        assert(part(ps.wide, shift, q_given.frames as int) == stretch(
            p_given,
            shift,
            q_given.frames as int,
        ));
        assert(ps.ok());
        assert(p.chunk(p_given) == Some(ps.wide));
        assert(q.chunk(q_given) == Some(ps.narrow));
        let at = p.at();
        if at < cut.audio.end {
            let step = program.audio_ops[at];
            assert(keeps_nothing(step));
            assert(step_fits(step, program.buffers.len()));
            assert(part_given(ps, p_given.daw_in, q_given.daw_in)) by {
                assert forall|c: int, i: int| 0 <= c && 0 <= i < ps.narrow.frames implies #[trigger] frame(
                    q_given.daw_in,
                    ps.narrow.block as int,
                    c,
                    ps.narrow.start + i,
                ) == frame(
                    p_given.daw_in,
                    ps.wide.block as int,
                    c,
                    ps.wide.start + ps.from + i,
                ) by {
                    assert(frame(q_given.daw_in, q_given.frames as int, c, i) == frame(
                        p_given.daw_in,
                        p_given.frames as int,
                        c,
                        shift + i,
                    ));
                }
            }
            law_operations_work_frame_by_frame(
                ps,
                p.model,
                q.model,
                step,
                program.buffers,
                ChunkPlace { win: ps.wide, row: p.row() as usize, tap: 0 },
                ChunkPlace { win: ps.narrow, row: q.row() as usize, tap: 0 },
                p_given,
                q_given,
                x,
                y,
            );
            let pp = p.played(p_given, x);
            let qq = q.played(q_given, y);
            assert(written_so_far(qq, base) =~= ps.live.union(
                channels_written(step, program.buffers),
            ));
            if let AudioStep::Output { a, bus } = step {
                if bus == 0 {
                    lemma_handed_out(
                        ps,
                        p.heard,
                        q.heard,
                        channels,
                        a,
                        heard_width(program.buffers[a as int]) as nat,
                    );
                }
            }
        }
    }
}

/// Answer by answer, those to one run have in a part of them what those to the other are.
pub open spec fn answers_agree(
    p: Playing,
    q: Playing,
    p_given: BlockInput,
    q_given: BlockInput,
    shift: int,
    xs: Seq<AudioAnswer>,
    ys: Seq<AudioAnswer>,
) -> bool {
    &&& xs.len() == ys.len()
    &&& forall|k: int|
        0 <= k < xs.len() ==> part_answered(
            p.played_on(p_given, xs.take(k)).asked(p_given),
            #[trigger] xs[k],
            p_given.frames as int,
            shift,
            q.played_on(q_given, ys.take(k)).asked(q_given),
            ys[k],
            q_given.frames as int,
        )
}

/// A stage that runs over the whole block at once and keeps nothing does to a part of a
/// long block what it does to a block that is that part, and leaves the memory as it is.
pub proof fn law_a_stage_works_frame_by_frame(
    p: Playing,
    q: Playing,
    p_given: BlockInput,
    q_given: BlockInput,
    channels: nat,
    shift: int,
    base: Set<(Buf, int)>,
    xs: Seq<AudioAnswer>,
    ys: Seq<AudioAnswer>,
)
    requires
        side_by_side(p, q, p_given, q_given, channels, shift, base),
        hands_part(p_given, q_given, shift),
        answers_agree(p, q, p_given, q_given, shift, xs, ys),
    ensures
        ({
            let pp = p.played_on(p_given, xs);
            let qq = q.played_on(q_given, ys);
            let left = q.stage().audio.end - q.at();
            &&& side_by_side(pp, qq, p_given, q_given, channels, shift, base)
            &&& same_memory(pp.model.sound, p.model.sound)
            &&& same_memory(qq.model.sound, q.model.sound)
            &&& pp.model == (EngineModel { sound: pp.model.sound, ..p.model })
            &&& qq.model == (EngineModel { sound: qq.model.sound, ..q.model })
            &&& pp.model.sound.stride == p.model.sound.stride
            &&& qq.model.sound.stride == q.model.sound.stride
            &&& pp.run == (BlockRun { phase: pp.run.phase, ..p.run })
            &&& qq.run == (BlockRun { phase: qq.run.phase, ..q.run })
            &&& q.start() == 0 && ys.len() <= left ==> qq.start() == 0 && qq.at() == q.at()
                + ys.len()
            &&& q.start() == 0 && ys.len() > left ==> qq.start() == q_given.frames
        }),
    decreases xs.len(),
{
    if xs.len() > 0 {
        let front = xs.drop_last();
        let back = ys.drop_last();
        assert(answers_agree(p, q, p_given, q_given, shift, front, back)) by {
            assert forall|k: int| 0 <= k < front.len() implies part_answered(
                p.played_on(p_given, front.take(k)).asked(p_given),
                #[trigger] front[k],
                p_given.frames as int,
                shift,
                q.played_on(q_given, back.take(k)).asked(q_given),
                back[k],
                q_given.frames as int,
            ) by {
                assert(front.take(k) =~= xs.take(k));
                assert(back.take(k) =~= ys.take(k));
                assert(front[k] == xs[k]);
            }
        }
        law_a_stage_works_frame_by_frame(
            p,
            q,
            p_given,
            q_given,
            channels,
            shift,
            base,
            front,
            back,
        );
        assert(xs.take(xs.len() - 1) =~= front);
        assert(ys.take(ys.len() - 1) =~= back);
        assert(xs[xs.len() - 1] == xs.last());
        lemma_side_by_side(
            p.played_on(p_given, front),
            q.played_on(q_given, back),
            p_given,
            q_given,
            channels,
            shift,
            base,
            xs.last(),
            ys.last(),
        );
    }
}

} // verus!
