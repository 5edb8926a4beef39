//! Where a delay line feeds back, the block the DAW asks for makes no difference:
//! a long block sounds as short ones that add up to it.
use vstd::prelude::*;
use crate::audio_cx::{gather_fits, step_fits, total_width, widths_of};
use crate::emit_audio::lemma_total_width;
use crate::ir::{
    AudioStep, Buf, Stage, MAX_AUDIO_DELAY_LINES, MAX_AUDIO_TAPS, MAX_BUFFERS,
    MAX_BUFFER_CHANNELS, MAX_CHANNELS, MAX_COMPENSATION, MAX_COMPENSATORS,
};
use crate::number::{Real, Sample};
use crate::block::{heard_after, stepped, BlockRun, Phase};
use crate::engine::EngineModel;
use crate::params::ParamsModel;
use crate::program::ProgramModel;
use crate::run::{
    answer_channel, fitted, folds_fit, lane_in, lemma_folds_fit, parts_of, sound_asks, sound_did,
    task_fits, AudioAnswer, AudioTask, ChunkPlace,
};
use crate::schedule::rows_view;
use crate::sound::{
    bus_base, compensation_size, delayed, folds_of, heard_width, laid, law_channels_lie_apart,
    run_of, silence, Fold, SoundModel, Window,
};

verus! {

/// A stretch of a window.
pub open spec fn part(win: Window, from: int, frames: int) -> Window {
    Window { block: win.block, start: (win.start + from) as usize, frames: frames as usize }
}

/// The same memory but for the buffers.
pub open spec fn same_memory(a: SoundModel, b: SoundModel) -> bool {
    &&& a.daw_inputs == b.daw_inputs
    &&& a.lines == b.lines
    &&& a.line_nodes == b.line_nodes
    &&& a.line_order == b.line_order
    &&& a.tap_distance == b.tap_distance
    &&& a.compensators == b.compensators
    &&& a.compensator_heads == b.compensator_heads
}

/// The same samples in some channels, each over a window of its own.
pub open spec fn same_samples(
    live: Set<(Buf, int)>,
    a: SoundModel,
    at: Window,
    b: SoundModel,
    bt: Window,
) -> bool {
    forall|buf: Buf, channel: int|
        #[trigger] live.contains((buf, channel)) && buf < MAX_BUFFERS && 0 <= channel
            < MAX_BUFFER_CHANNELS ==> a.channel(buf, channel, at) == b.channel(buf, channel, bt)
}

/// Every channel of every buffer holds what it held at first.
pub open spec fn untouched(a: SoundModel, first: SoundModel, win: Window) -> bool {
    forall|buf: Buf, channel: int|
        buf < MAX_BUFFERS && 0 <= channel < MAX_BUFFER_CHANNELS ==> #[trigger] a.channel(
            buf,
            channel,
            win,
        ) == first.channel(buf, channel, win)
}

/// Two engines at the same place of the same sound, in blocks of their own: what
/// one has in one window the other has in another.
///
/// They agree on some channels from the start, and the chunks they have been through
/// are the same in all that the stage writes. In the chunk at hand they agree on what
/// has been written so far. Before and behind its window the first holds what it held
/// at first, and its room and the DAW's buses are as they were.
pub struct Twins {
    pub a: SoundModel,
    pub at: Window,
    pub b: SoundModel,
    pub bt: Window,
    pub from: usize,
    pub frames: usize,
    pub base: Set<(Buf, int)>,
    pub live: Set<(Buf, int)>,
    pub full: Set<(Buf, int)>,
    pub past: Window,
    pub rest: Window,
    pub first: SoundModel,
}

impl Twins {
    /// The chunk in the first engine's block.
    pub open spec fn aw(self) -> Window {
        part(self.at, self.from as int, self.frames as int)
    }

    pub open spec fn bw(self) -> Window {
        part(self.bt, self.from as int, self.frames as int)
    }

    pub open spec fn ok(self) -> bool {
        &&& self.a.wf()
        &&& self.b.wf()
        &&& self.a.stride > 0
        &&& self.b.stride > 0
        &&& self.at.fits(self.a.stride)
        &&& self.bt.fits(self.b.stride)
        &&& self.at.frames == self.bt.frames
        &&& self.from + self.frames <= self.at.frames
        &&& self.past.fits(self.a.stride)
        &&& self.past.block == self.at.block
        &&& self.past.start + self.past.frames <= self.at.start
        &&& self.rest.fits(self.a.stride)
        &&& self.rest.block == self.at.block
        &&& self.at.start + self.at.frames <= self.rest.start
        &&& same_memory(self.a, self.b)
        &&& self.a.daw_inputs == self.first.daw_inputs
        &&& self.a.stride == self.first.stride
        &&& same_samples(self.base, self.a, self.at, self.b, self.bt)
        &&& same_samples(self.live, self.a, self.aw(), self.b, self.bw())
        &&& same_samples(
            self.full,
            self.a,
            part(self.at, 0, self.from as int),
            self.b,
            part(self.bt, 0, self.from as int),
        )
        &&& untouched(self.a, self.first, self.past)
        &&& untouched(self.a, self.first, self.rest)
    }

    pub open spec fn with(self, a: SoundModel, b: SoundModel) -> Twins {
        Twins { a, b, ..self }
    }

    /// The same, agreeing on more in the chunk at hand.
    pub open spec fn and(self, more: Set<(Buf, int)>) -> Twins {
        Twins { live: self.live.union(more), ..self }
    }
}

pub open spec fn whole(win: Window) -> Window {
    Window { start: 0, frames: win.block, ..win }
}

/// Any window on a channel shows a part of the whole block.
pub proof fn lemma_window(state: SoundModel, buf: Buf, channel: int, win: Window)
    requires
        state.wf(),
        win.fits(state.stride),
        buf < MAX_BUFFERS,
        0 <= channel < MAX_BUFFER_CHANNELS,
    ensures
        state.channel(buf, channel, win).len() == win.frames,
        state.channel(buf, channel, whole(win)).len() == win.block,
        forall|i: int|
            0 <= i < win.frames ==> #[trigger] state.channel(buf, channel, win)[i]
                == state.channel(buf, channel, whole(win))[win.start + i],
{
    crate::sound::lemma_place(state, buf, channel, win);
    crate::sound::lemma_place(state, buf, channel, whole(win));
}

/// Writing a window of a channel writes that part of the whole block, and no other
/// channel.
pub proof fn lemma_whole(
    state: SoundModel,
    buf: Buf,
    channel: int,
    win: Window,
    samples: Seq<Sample>,
    other: Buf,
    other_channel: int,
)
    requires
        state.wf(),
        win.fits(state.stride),
        buf < MAX_BUFFERS,
        0 <= channel < MAX_BUFFER_CHANNELS,
        other < MAX_BUFFERS,
        0 <= other_channel < MAX_BUFFER_CHANNELS,
        samples.len() == win.frames,
    ensures
        ({
            let after = state.with_channel(buf, channel, win, samples);
            &&& after.wf()
            &&& after.channel(other, other_channel, whole(win)) == if buf == other && channel
                == other_channel {
                laid(state.channel(buf, channel, whole(win)), win.start as int, samples)
            } else {
                state.channel(other, other_channel, whole(win))
            }
        }),
{
    crate::sound::lemma_place(state, buf, channel, win);
    crate::sound::lemma_place(state, buf, channel, whole(win));
    let line = laid(state.channel(buf, channel, whole(win)), win.start as int, samples);
    let after = state.with_channel(buf, channel, win, samples);
    let same = state.with_channel(buf, channel, whole(win), line);
    assert(after.pool =~= same.pool);
    law_channels_lie_apart(state, buf, channel, whole(win), line, other, other_channel);
}

/// Channels that agree over a window agree over any part of it.
proof fn lemma_narrower(
    live: Set<(Buf, int)>,
    a: SoundModel,
    at: Window,
    b: SoundModel,
    bt: Window,
    from: int,
    frames: int,
)
    requires
        a.wf(),
        b.wf(),
        at.fits(a.stride),
        bt.fits(b.stride),
        at.frames == bt.frames,
        0 <= from,
        0 <= frames,
        from + frames <= at.frames,
        same_samples(live, a, at, b, bt),
    ensures
        same_samples(live, a, part(at, from, frames), b, part(bt, from, frames)),
{
    let aw = part(at, from, frames);
    let bw = part(bt, from, frames);
    assert forall|buf: Buf, channel: int|
        #[trigger] live.contains((buf, channel)) && buf < MAX_BUFFERS && 0 <= channel
            < MAX_BUFFER_CHANNELS implies a.channel(buf, channel, aw) == b.channel(
        buf,
        channel,
        bw,
    ) by {
        lemma_window(a, buf, channel, at);
        lemma_window(a, buf, channel, aw);
        lemma_window(b, buf, channel, bt);
        lemma_window(b, buf, channel, bw);
        let x = a.channel(buf, channel, aw);
        let y = b.channel(buf, channel, bw);
        assert(whole(at) == whole(aw));
        assert(whole(bt) == whole(bw));
        assert forall|i: int| 0 <= i < frames implies x[i] == y[i] by {
            assert(a.channel(buf, channel, at)[from + i] == x[i]);
            assert(b.channel(buf, channel, bt)[from + i] == y[i]);
        }
        assert(x =~= y);
    }
}

/// Channels that agree over two stretches, one behind the other, agree over both.
proof fn lemma_wider(
    live: Set<(Buf, int)>,
    a: SoundModel,
    at: Window,
    b: SoundModel,
    bt: Window,
    from: int,
    frames: int,
)
    requires
        a.wf(),
        b.wf(),
        at.fits(a.stride),
        bt.fits(b.stride),
        at.frames == bt.frames,
        0 <= from,
        0 <= frames,
        from + frames <= at.frames,
        same_samples(live, a, part(at, 0, from), b, part(bt, 0, from)),
        same_samples(live, a, part(at, from, frames), b, part(bt, from, frames)),
    ensures
        same_samples(live, a, part(at, 0, from + frames), b, part(bt, 0, from + frames)),
{
    let aw = part(at, 0, from + frames);
    let bw = part(bt, 0, from + frames);
    assert forall|buf: Buf, channel: int|
        #[trigger] live.contains((buf, channel)) && buf < MAX_BUFFERS && 0 <= channel
            < MAX_BUFFER_CHANNELS implies a.channel(buf, channel, aw) == b.channel(
        buf,
        channel,
        bw,
    ) by {
        lemma_window(a, buf, channel, part(at, 0, from));
        lemma_window(a, buf, channel, part(at, from, frames));
        lemma_window(a, buf, channel, aw);
        lemma_window(b, buf, channel, part(bt, 0, from));
        lemma_window(b, buf, channel, part(bt, from, frames));
        lemma_window(b, buf, channel, bw);
        let x = a.channel(buf, channel, aw);
        let y = b.channel(buf, channel, bw);
        assert forall|i: int| 0 <= i < from + frames implies x[i] == y[i] by {
            if i < from {
                assert(a.channel(buf, channel, part(at, 0, from))[i] == x[i]);
                assert(b.channel(buf, channel, part(bt, 0, from))[i] == y[i]);
            } else {
                assert(a.channel(buf, channel, part(at, from, frames))[i - from] == x[i]);
                assert(b.channel(buf, channel, part(bt, from, frames))[i - from] == y[i]);
            }
        }
        assert(x =~= y);
    }
}

/// Writing the same to the same place of both leaves a channel that agreed agreeing.
proof fn lemma_still(
    a: SoundModel,
    aw: Window,
    b: SoundModel,
    bw: Window,
    buf: Buf,
    channel: int,
    samples: Seq<Sample>,
    at: Window,
    bt: Window,
    other: Buf,
    och: int,
)
    requires
        a.wf(),
        b.wf(),
        aw.fits(a.stride),
        bw.fits(b.stride),
        at.fits(a.stride),
        bt.fits(b.stride),
        aw.block == at.block,
        bw.block == bt.block,
        at.frames == bt.frames,
        aw.frames == bw.frames == samples.len(),
        aw.start - at.start == bw.start - bt.start,
        buf < MAX_BUFFERS,
        0 <= channel < MAX_BUFFER_CHANNELS,
        other < MAX_BUFFERS,
        0 <= och < MAX_BUFFER_CHANNELS,
        a.channel(other, och, at) == b.channel(other, och, bt),
    ensures
        a.with_channel(buf, channel, aw, samples).channel(other, och, at) == b.with_channel(
            buf,
            channel,
            bw,
            samples,
        ).channel(other, och, bt),
{
    let aa = a.with_channel(buf, channel, aw, samples);
    let bb = b.with_channel(buf, channel, bw, samples);
    lemma_whole(a, buf, channel, aw, samples, other, och);
    lemma_whole(b, buf, channel, bw, samples, other, och);
    lemma_window(aa, other, och, at);
    lemma_window(bb, other, och, bt);
    lemma_window(a, other, och, at);
    lemma_window(b, other, och, bt);
    assert(whole(at) == whole(aw));
    assert(whole(bt) == whole(bw));
    let x = aa.channel(other, och, at);
    let y = bb.channel(other, och, bt);
    let u = a.channel(other, och, whole(at));
    let v = b.channel(other, och, whole(bt));
    let same = buf == other && channel == och;
    assert forall|i: int| 0 <= i < at.frames implies x[i] == y[i] by {
        assert(a.channel(other, och, at)[i] == u[at.start + i]);
        assert(b.channel(other, och, bt)[i] == v[bt.start + i]);
        assert(x[i] == aa.channel(other, och, whole(at))[at.start + i]);
        assert(y[i] == bb.channel(other, och, whole(bt))[bt.start + i]);
        if same && aw.start <= at.start + i < aw.start + samples.len() {
            assert(x[i] == samples[at.start + i - aw.start]);
            assert(y[i] == samples[bt.start + i - bw.start]);
        } else {
            assert(x[i] == u[at.start + i]);
            assert(y[i] == v[bt.start + i]);
        }
    }
    assert(x =~= y);
}

/// Writing in one window leaves another that it does not meet as it was.
proof fn lemma_apart(
    a: SoundModel,
    aw: Window,
    buf: Buf,
    channel: int,
    samples: Seq<Sample>,
    win: Window,
    first: SoundModel,
)
    requires
        a.wf(),
        aw.fits(a.stride),
        win.fits(a.stride),
        aw.block == win.block,
        aw.frames == samples.len(),
        aw.start + aw.frames <= win.start || win.start + win.frames <= aw.start,
        buf < MAX_BUFFERS,
        0 <= channel < MAX_BUFFER_CHANNELS,
        untouched(a, first, win),
    ensures
        untouched(a.with_channel(buf, channel, aw, samples), first, win),
{
    let aa = a.with_channel(buf, channel, aw, samples);
    assert(whole(win) == whole(aw));
    assert forall|other: Buf, och: int|
        other < MAX_BUFFERS && 0 <= och < MAX_BUFFER_CHANNELS implies #[trigger] aa.channel(
        other,
        och,
        win,
    ) == first.channel(other, och, win) by {
        lemma_whole(a, buf, channel, aw, samples, other, och);
        lemma_window(aa, other, och, win);
        lemma_window(a, other, och, win);
        let x = aa.channel(other, och, win);
        let y = a.channel(other, och, win);
        assert forall|i: int| 0 <= i < win.frames implies x[i] == y[i] by {}
        assert(x =~= y);
    }
}

proof fn lemma_read(tw: Twins, buf: Buf, channel: int)
    requires
        tw.ok(),
        buf < MAX_BUFFERS,
        0 <= channel < MAX_BUFFER_CHANNELS,
        tw.live.contains((buf, channel)),
    ensures
        tw.a.channel(buf, channel, tw.aw()) == tw.b.channel(buf, channel, tw.bw()),
        tw.a.channel(buf, channel, tw.aw()).len() == tw.frames,
{
    lemma_window(tw.a, buf, channel, tw.aw());
}

proof fn lemma_write(tw: Twins, buf: Buf, channel: int, samples: Seq<Sample>)
    requires
        tw.ok(),
        buf < MAX_BUFFERS,
        0 <= channel < MAX_BUFFER_CHANNELS,
        samples.len() == tw.frames,
    ensures
        tw.with(
            tw.a.with_channel(buf, channel, tw.aw(), samples),
            tw.b.with_channel(buf, channel, tw.bw(), samples),
        ).and(set![(buf, channel)]).ok(),
{
    let aw = tw.aw();
    let bw = tw.bw();
    let a = tw.a.with_channel(buf, channel, aw, samples);
    let b = tw.b.with_channel(buf, channel, bw, samples);
    let done_a = part(tw.at, 0, tw.from as int);
    let done_b = part(tw.bt, 0, tw.from as int);
    let live = tw.live.union(set![(buf, channel)]);
    lemma_whole(tw.a, buf, channel, aw, samples, buf, channel);
    lemma_whole(tw.b, buf, channel, bw, samples, buf, channel);
    law_channels_lie_apart(tw.a, buf, channel, aw, samples, buf, channel);
    law_channels_lie_apart(tw.b, buf, channel, bw, samples, buf, channel);
    assert forall|other: Buf, och: int|
        #[trigger] tw.base.contains((other, och)) && other < MAX_BUFFERS && 0 <= och
            < MAX_BUFFER_CHANNELS implies a.channel(other, och, tw.at) == b.channel(
        other,
        och,
        tw.bt,
    ) by {
        lemma_still(tw.a, aw, tw.b, bw, buf, channel, samples, tw.at, tw.bt, other, och);
    }
    assert forall|other: Buf, och: int|
        #[trigger] live.contains((other, och)) && other < MAX_BUFFERS && 0 <= och
            < MAX_BUFFER_CHANNELS implies a.channel(other, och, aw) == b.channel(
        other,
        och,
        bw,
    ) by {
        if tw.live.contains((other, och)) {
            lemma_still(tw.a, aw, tw.b, bw, buf, channel, samples, aw, bw, other, och);
        }
    }
    assert forall|other: Buf, och: int|
        #[trigger] tw.full.contains((other, och)) && other < MAX_BUFFERS && 0 <= och
            < MAX_BUFFER_CHANNELS implies a.channel(other, och, done_a) == b.channel(
        other,
        och,
        done_b,
    ) by {
        lemma_still(tw.a, aw, tw.b, bw, buf, channel, samples, done_a, done_b, other, och);
    }
    lemma_apart(tw.a, aw, buf, channel, samples, tw.past, tw.first);
    lemma_apart(tw.a, aw, buf, channel, samples, tw.rest, tw.first);
}

/// Agreeing on less is agreeing.
proof fn lemma_less(tw: Twins, live: Set<(Buf, int)>)
    requires
        tw.ok(),
        live.subset_of(tw.live),
    ensures
        (Twins { live, ..tw }).ok(),
{
    assert forall|buf: Buf, channel: int|
        #[trigger] live.contains((buf, channel)) && buf < MAX_BUFFERS && 0 <= channel
            < MAX_BUFFER_CHANNELS implies tw.a.channel(buf, channel, tw.aw()) == tw.b.channel(
        buf,
        channel,
        tw.bw(),
    ) by {
        assert(tw.live.contains((buf, channel)));
    }
}

/// The channels `first..first + count` of a buffer.
pub open spec fn run_of_channels(buf: Buf, first: int, count: int) -> Set<(Buf, int)> {
    Set::new(|at: (Buf, int)| at.0 == buf && first <= at.1 < first + count)
}

proof fn lemma_silence(tw: Twins, buf: Buf)
    requires
        tw.ok(),
        buf < MAX_BUFFERS,
    ensures
        tw.with(tw.a.silenced(buf, tw.aw()), tw.b.silenced(buf, tw.bw())).and(
            run_of_channels(buf, 0, 2),
        ).ok(),
{
    let quiet = silence(tw.frames as nat);
    lemma_write(tw, buf, 0, quiet);
    let next = tw.with(
        tw.a.with_channel(buf, 0, tw.aw(), quiet),
        tw.b.with_channel(buf, 0, tw.bw(), quiet),
    ).and(set![(buf, 0int)]);
    lemma_write(next, buf, 1, quiet);
    let last = next.with(
        next.a.with_channel(buf, 1, tw.aw(), quiet),
        next.b.with_channel(buf, 1, tw.bw(), quiet),
    ).and(set![(buf, 1int)]);
    lemma_less(last, tw.live.union(run_of_channels(buf, 0, 2)));
}

proof fn lemma_copy(tw: Twins, from: Buf, from_channel: int, to: Buf, to_channel: int)
    requires
        tw.ok(),
        from < MAX_BUFFERS,
        to < MAX_BUFFERS,
        0 <= from_channel < MAX_BUFFER_CHANNELS,
        0 <= to_channel < MAX_BUFFER_CHANNELS,
        tw.live.contains((from, from_channel)),
    ensures
        tw.with(
            tw.a.copied(from, from_channel, to, to_channel, tw.aw()),
            tw.b.copied(from, from_channel, to, to_channel, tw.bw()),
        ).and(set![(to, to_channel)]).ok(),
{
    lemma_read(tw, from, from_channel);
    lemma_write(tw, to, to_channel, tw.a.channel(from, from_channel, tw.aw()));
}

/// One more channel behind a run of them.
proof fn lemma_run_grows(tw: Twins, buf: Buf, first: int, count: int)
    requires
        0 <= count,
        tw.and(run_of_channels(buf, first, count)).and(set![(buf, first + count)]).ok(),
    ensures
        tw.and(run_of_channels(buf, first, count + 1)).ok(),
{
    let more = tw.and(run_of_channels(buf, first, count)).and(set![(buf, first + count)]);
    lemma_less(more, tw.live.union(run_of_channels(buf, first, count + 1)));
}

proof fn lemma_none(tw: Twins, more: Set<(Buf, int)>)
    requires
        tw.ok(),
        more.subset_of(tw.live),
    ensures
        tw.and(more).ok(),
{
    lemma_less(tw, tw.live.union(more));
}

/// One frame of one channel of planar samples packed at the block's length, silent
/// where there is none.
pub open spec fn frame(samples: Seq<Sample>, block: int, channel: int, i: int) -> Sample {
    if channel * block + i < samples.len() {
        samples[channel * block + i]
    } else {
        Sample::silent()
    }
}

/// The DAW hands both the same over the chunk.
spec fn same_input(tw: Twins, given_a: Seq<Sample>, given_b: Seq<Sample>) -> bool {
    forall|channel: int, i: int|
        0 <= channel && tw.bw().start <= i < tw.bw().start + tw.frames ==> #[trigger] frame(
            given_b,
            tw.bt.block as int,
            channel,
            i,
        ) == frame(given_a, tw.at.block as int, channel, i + tw.at.start - tw.bt.start)
}

pub proof fn lemma_bus_base(widths: Seq<u16>, bus: nat, block: int)
    requires
        0 <= block,
        bus <= widths.len(),
    ensures
        bus_base(widths, bus, block) == bus_base(widths, bus, 1) * block,
        0 <= bus_base(widths, bus, 1),
    decreases bus,
{
    if bus > 0 {
        lemma_bus_base(widths, (bus - 1) as nat, block);
        let low = bus_base(widths, (bus - 1) as nat, 1);
        let width = widths[bus - 1] as int;
        assert((low + width) * block == low * block + width * block) by (nonlinear_arith);
    } else {
        assert(0 * block == 0) by (nonlinear_arith);
    }
}

pub proof fn lemma_run(samples: Seq<Sample>, base: int, channel: int, win: Window, at: int, i: int)
    requires
        0 <= base,
        0 <= channel,
        at == base * win.block + channel * win.block + win.start,
        0 <= i < win.frames,
    ensures
        run_of(samples, at, win.frames as nat)[i] == frame(
            samples,
            win.block as int,
            base + channel,
            win.start + i,
        ),
{
    let block = win.block as int;
    assert((base + channel) * block == base * block + channel * block) by (nonlinear_arith);
}

proof fn lemma_taken_in(
    tw: Twins,
    out: Buf,
    bus: u16,
    given_a: Seq<Sample>,
    given_b: Seq<Sample>,
    count: nat,
)
    requires
        tw.ok(),
        same_input(tw, given_a, given_b),
        out < MAX_BUFFERS,
        bus < tw.a.daw_inputs.len(),
        count <= MAX_CHANNELS,
    ensures
        tw.with(
            tw.a.taken_in(out, bus, given_a, tw.aw(), count),
            tw.b.taken_in(out, bus, given_b, tw.bw(), count),
        ).and(run_of_channels(out, 0, count as int)).ok(),
    decreases count,
{
    if count == 0 {
        lemma_none(tw, run_of_channels(out, 0, 0));
    } else {
        lemma_taken_in(tw, out, bus, given_a, given_b, (count - 1) as nat);
        let next = tw.with(
            tw.a.taken_in(out, bus, given_a, tw.aw(), (count - 1) as nat),
            tw.b.taken_in(out, bus, given_b, tw.bw(), (count - 1) as nat),
        ).and(run_of_channels(out, 0, count - 1));
        let channel = count - 1;
        let widths = tw.a.daw_inputs;
        let low = bus_base(widths, bus as nat, 1);
        lemma_bus_base(widths, bus as nat, tw.at.block as int);
        lemma_bus_base(widths, bus as nat, tw.bt.block as int);
        let at = bus_base(widths, bus as nat, tw.at.block as int) + channel * tw.at.block
            + tw.aw().start;
        let bt = bus_base(widths, bus as nat, tw.bt.block as int) + channel * tw.bt.block
            + tw.bw().start;
        let x = run_of(given_a, at, tw.frames as nat);
        let y = run_of(given_b, bt, tw.frames as nat);
        assert forall|i: int| 0 <= i < tw.frames implies x[i] == y[i] by {
            lemma_run(given_a, low, channel, tw.aw(), at, i);
            lemma_run(given_b, low, channel, tw.bw(), bt, i);
            assert(frame(given_b, tw.bt.block as int, low + channel, tw.bw().start + i) == frame(
                given_a,
                tw.at.block as int,
                low + channel,
                tw.bw().start + i + tw.at.start - tw.bt.start,
            ));
        }
        assert(x =~= y);
        let samples = if channel < widths[bus as int] {
            x
        } else {
            silence(tw.frames as nat)
        };
        lemma_write(next, out, channel, samples);
        lemma_run_grows(
            tw.with(
                next.a.with_channel(out, channel, tw.aw(), samples),
                next.b.with_channel(out, channel, tw.bw(), samples),
            ),
            out,
            0,
            channel,
        );
    }
}

/// The channels that laying a bus side by side with others reads.
pub open spec fn bus_reads(from: Buf, have: u16, want: u16) -> Set<(Buf, int)> {
    Set::new(
        |at: (Buf, int)|
            at.0 == from && 0 <= at.1 < have && !(want == 1 && have > 1) && (have == 1 && want > 1
                || at.1 < want),
    )
}

/// The channels that it writes.
pub open spec fn bus_writes(out: Buf, base: int, have: u16, want: u16) -> Set<(Buf, int)> {
    if want == 1 && have > 1 {
        Set::empty()
    } else {
        run_of_channels(out, base, want as int)
    }
}

proof fn lemma_bus_laid(
    tw: Twins,
    out: Buf,
    base: int,
    from: Buf,
    have: u16,
    want: u16,
    count: nat,
)
    requires
        tw.ok(),
        out < MAX_BUFFERS,
        from < MAX_BUFFERS,
        0 <= base,
        count <= want,
        base + want <= MAX_BUFFER_CHANNELS,
        have <= MAX_BUFFER_CHANNELS,
        bus_reads(from, have, want).subset_of(tw.live),
    ensures
        tw.with(
            tw.a.bus_laid(out, base, from, have, want, tw.aw(), count),
            tw.b.bus_laid(out, base, from, have, want, tw.bw(), count),
        ).and(
            if want == 1 && have > 1 {
                Set::empty()
            } else {
                run_of_channels(out, base, count as int)
            },
        ).ok(),
    decreases count,
{
    if count == 0 {
        lemma_none(tw, run_of_channels(out, base, 0));
        lemma_none(tw, Set::empty());
    } else {
        lemma_bus_laid(tw, out, base, from, have, want, (count - 1) as nat);
        let wrote = if want == 1 && have > 1 {
            Set::empty()
        } else {
            run_of_channels(out, base, count - 1)
        };
        let next = tw.with(
            tw.a.bus_laid(out, base, from, have, want, tw.aw(), (count - 1) as nat),
            tw.b.bus_laid(out, base, from, have, want, tw.bw(), (count - 1) as nat),
        ).and(wrote);
        let channel = count - 1;
        if !(want == 1 && have > 1) {
            if have == 1 && want > 1 {
                assert(bus_reads(from, have, want).contains((from, 0int)));
                lemma_copy(next, from, 0, out, base + channel);
            } else if channel < have {
                assert(bus_reads(from, have, want).contains((from, channel)));
                lemma_copy(next, from, channel, out, base + channel);
            } else {
                lemma_write(next, out, base + channel, silence(tw.frames as nat));
            }
            lemma_run_grows(
                tw.with(
                    tw.a.bus_laid(out, base, from, have, want, tw.aw(), count),
                    tw.b.bus_laid(out, base, from, have, want, tw.bw(), count),
                ),
                out,
                base,
                channel,
            );
        }
    }
}

/// What gathering the first `count` buses writes.
pub open spec fn gathered_writes(
    out: Buf,
    buses: Seq<(Buf, u16)>,
    widths: Seq<u16>,
    count: nat,
) -> Set<(Buf, int)>
    decreases count,
{
    if count == 0 {
        Set::empty()
    } else {
        let (from, want) = buses[count - 1];
        gathered_writes(out, buses, widths, (count - 1) as nat).union(
            bus_writes(
                out,
                total_width(widths_of(buses).take(count - 1)) as int,
                widths[from as int],
                want,
            ),
        )
    }
}

pub open spec fn gathered_reads(buses: Seq<(Buf, u16)>, widths: Seq<u16>) -> Set<(Buf, int)> {
    Set::new(
        |at: (Buf, int)|
            exists|i: int|
                0 <= i < buses.len() && bus_reads(
                    (#[trigger] buses[i]).0,
                    widths[buses[i].0 as int],
                    buses[i].1,
                ).contains(at),
    )
}

proof fn lemma_gathered(
    tw: Twins,
    out: Buf,
    buses: Seq<(Buf, u16)>,
    widths: Seq<u16>,
    count: nat,
)
    requires
        tw.ok(),
        widths.len() <= MAX_BUFFERS,
        forall|i: int| 0 <= i < widths.len() ==> #[trigger] widths[i] <= MAX_BUFFER_CHANNELS,
        gather_fits(out, buses, widths.len()),
        count <= buses.len(),
        gathered_reads(buses, widths).subset_of(tw.live),
    ensures
        tw.with(
            tw.a.gathered(out, buses, widths, tw.aw(), count),
            tw.b.gathered(out, buses, widths, tw.bw(), count),
        ).and(gathered_writes(out, buses, widths, count)).ok(),
    decreases count,
{
    if count == 0 {
        lemma_none(tw, Set::empty());
    } else {
        lemma_gathered(tw, out, buses, widths, (count - 1) as nat);
        let wrote = gathered_writes(out, buses, widths, (count - 1) as nat);
        let next = tw.with(
            tw.a.gathered(out, buses, widths, tw.aw(), (count - 1) as nat),
            tw.b.gathered(out, buses, widths, tw.bw(), (count - 1) as nat),
        ).and(wrote);
        let (from, want) = buses[count - 1];
        let have = widths[from as int];
        let asked = widths_of(buses);
        let base = total_width(asked.take(count - 1)) as int;
        lemma_total_width(asked, count - 1, asked.len() as int);
        assert(asked.take(asked.len() as int) =~= asked);
        assert(have <= MAX_BUFFER_CHANNELS);
        assert forall|at: (Buf, int)| bus_reads(from, have, want).contains(at) implies next.live.contains(
            at,
        ) by {
            assert(buses[count - 1].0 == from);
            assert(gathered_reads(buses, widths).contains(at));
        }
        lemma_bus_laid(next, out, base, from, have, want, want as nat);
        let last = next.with(
            tw.a.gathered(out, buses, widths, tw.aw(), count),
            tw.b.gathered(out, buses, widths, tw.bw(), count),
        ).and(bus_writes(out, base, have, want));
        assert(last.ok());
        lemma_less(last, tw.live.union(gathered_writes(out, buses, widths, count)));
    }
}

proof fn lemma_split(tw: Twins, from: Buf, first: int, out: Buf, count: nat)
    requires
        tw.ok(),
        from < MAX_BUFFERS,
        out < MAX_BUFFERS,
        0 <= first,
        first + count <= MAX_BUFFER_CHANNELS,
        run_of_channels(from, first, count as int).subset_of(tw.live),
    ensures
        tw.with(
            tw.a.split(from, first, out, tw.aw(), count),
            tw.b.split(from, first, out, tw.bw(), count),
        ).and(run_of_channels(out, 0, count as int)).ok(),
    decreases count,
{
    if count == 0 {
        lemma_none(tw, run_of_channels(out, 0, 0));
    } else {
        assert(run_of_channels(from, first, count - 1).subset_of(
            run_of_channels(from, first, count as int),
        ));
        lemma_split(tw, from, first, out, (count - 1) as nat);
        let next = tw.with(
            tw.a.split(from, first, out, tw.aw(), (count - 1) as nat),
            tw.b.split(from, first, out, tw.bw(), (count - 1) as nat),
        ).and(run_of_channels(out, 0, count - 1));
        assert(run_of_channels(from, first, count as int).contains((from, first + count - 1)));
        lemma_copy(next, from, first + count - 1, out, count - 1);
        lemma_run_grows(
            tw.with(
                tw.a.split(from, first, out, tw.aw(), count),
                tw.b.split(from, first, out, tw.bw(), count),
            ),
            out,
            0,
            count - 1,
        );
    }
}

proof fn lemma_delayed_len(
    signal: Seq<Sample>,
    ring: Seq<Sample>,
    head: int,
    samples: int,
    count: nat,
)
    requires
        count <= signal.len(),
        ring.len() == MAX_COMPENSATION,
    ensures
        delayed(signal, ring, head, samples, count).signal.len() == signal.len(),
        delayed(signal, ring, head, samples, count).ring.len() == ring.len(),
    decreases count,
{
    if count > 0 {
        lemma_delayed_len(signal, ring, head, samples, (count - 1) as nat);
    }
}

proof fn lemma_channels_delayed(tw: Twins, buf: Buf, slot: int, samples: int, count: nat)
    requires
        tw.ok(),
        buf < MAX_BUFFERS,
        0 <= slot < MAX_COMPENSATORS,
        count <= MAX_CHANNELS,
        run_of_channels(buf, 0, count as int).subset_of(tw.live),
    ensures
        tw.with(
            tw.a.channels_delayed(buf, slot, samples, tw.aw(), count),
            tw.b.channels_delayed(buf, slot, samples, tw.bw(), count),
        ).ok(),
    decreases count,
{
    if count > 0 {
        assert(run_of_channels(buf, 0, count - 1).subset_of(run_of_channels(buf, 0, count as int)));
        lemma_channels_delayed(tw, buf, slot, samples, (count - 1) as nat);
        let next = tw.with(
            tw.a.channels_delayed(buf, slot, samples, tw.aw(), (count - 1) as nat),
            tw.b.channels_delayed(buf, slot, samples, tw.bw(), (count - 1) as nat),
        );
        let channel = count - 1;
        assert(run_of_channels(buf, 0, count as int).contains((buf, channel)));
        lemma_read(next, buf, channel);
        let base = SoundModel::ring_base(slot, channel);
        assert(next.a.compensators.len() == compensation_size());
        assert(0 <= base && base + MAX_COMPENSATION <= compensation_size()) by (nonlinear_arith)
            requires
                0 <= slot < MAX_COMPENSATORS,
                0 <= channel < MAX_CHANNELS,
                base == slot * (MAX_CHANNELS * MAX_COMPENSATION) + channel * MAX_COMPENSATION,
                compensation_size() == MAX_COMPENSATORS * MAX_CHANNELS * MAX_COMPENSATION,
        ;
        let after = delayed(
            next.a.channel(buf, channel, tw.aw()),
            next.a.compensators.subrange(base, base + MAX_COMPENSATION),
            next.a.compensator_heads[slot] as int,
            samples,
            tw.frames as nat,
        );
        lemma_delayed_len(
            next.a.channel(buf, channel, tw.aw()),
            next.a.compensators.subrange(base, base + MAX_COMPENSATION),
            next.a.compensator_heads[slot] as int,
            samples,
            tw.frames as nat,
        );
        lemma_write(next, buf, channel, after.signal);
        let written = next.with(
            next.a.with_channel(buf, channel, tw.aw(), after.signal),
            next.b.with_channel(buf, channel, tw.bw(), after.signal),
        );
        lemma_less(written.and(set![(buf, channel)]), tw.live);
        let ring = laid(next.a.compensators, base, after.ring);
        lemma_pool(
            written,
            SoundModel { compensators: ring, ..written.a },
            SoundModel { compensators: ring, ..written.b },
        );
    }
}

/// Twins stay twins where both change the same of their memory and nothing of their
/// buffers.
proof fn lemma_pool(tw: Twins, a: SoundModel, b: SoundModel)
    requires
        tw.ok(),
        a.wf(),
        b.wf(),
        a.pool == tw.a.pool,
        b.pool == tw.b.pool,
        a.stride == tw.a.stride,
        b.stride == tw.b.stride,
        a.daw_inputs == tw.a.daw_inputs,
        same_memory(a, b),
    ensures
        tw.with(a, b).ok(),
{
    let next = tw.with(a, b);
    let done_a = part(tw.at, 0, tw.from as int);
    let done_b = part(tw.bt, 0, tw.from as int);
    assert forall|buf: Buf, channel: int, win: Window| #[trigger]
        a.channel(buf, channel, win) == tw.a.channel(buf, channel, win) by {}
    assert forall|buf: Buf, channel: int, win: Window| #[trigger]
        b.channel(buf, channel, win) == tw.b.channel(buf, channel, win) by {}
    assert(same_samples(next.base, a, tw.at, b, tw.bt));
    assert(same_samples(next.live, a, tw.aw(), b, tw.bw()));
    assert(same_samples(next.full, a, done_a, b, done_b));
    assert(untouched(a, tw.first, tw.past));
    assert(untouched(a, tw.first, tw.rest));
}

proof fn lemma_compensated(tw: Twins, buf: Buf, slot: u16, samples: u32, width: u16)
    requires
        tw.ok(),
        buf < MAX_BUFFERS,
        run_of_channels(buf, 0, heard_width(width)).subset_of(tw.live),
    ensures
        tw.with(
            tw.a.compensated(buf, slot, samples, width, tw.aw()),
            tw.b.compensated(buf, slot, samples, width, tw.bw()),
        ).ok(),
{
    if slot < MAX_COMPENSATORS && 0 < samples < MAX_COMPENSATION && width > 0 {
        let count = heard_width(width) as nat;
        lemma_channels_delayed(tw, buf, slot as int, samples as int, count);
        let next = tw.with(
            tw.a.channels_delayed(buf, slot as int, samples as int, tw.aw(), count),
            tw.b.channels_delayed(buf, slot as int, samples as int, tw.bw(), count),
        );
        let a = tw.a.compensated(buf, slot, samples, width, tw.aw());
        let b = tw.b.compensated(buf, slot, samples, width, tw.bw());
        assert(next.a.wf());
        assert(a.wf());
        assert(b.wf());
        lemma_pool(next, a, b);
    }
}

proof fn lemma_appended(tw: Twins, line: int, left: Seq<Sample>, right: Seq<Sample>)
    requires
        tw.ok(),
        0 <= line < MAX_AUDIO_DELAY_LINES,
        tw.a.lines[line].usable(),
    ensures
        ({
            let lines = tw.a.lines.update(line, tw.a.lines[line].appended(left, right));
            tw.with(SoundModel { lines, ..tw.a }, SoundModel { lines, ..tw.b }).ok()
        }),
{
    let after = tw.a.lines[line].appended(left, right);
    let lines = tw.a.lines.update(line, after);
    let a = SoundModel { lines, ..tw.a };
    let b = SoundModel { lines, ..tw.b };
    assert(tw.a.lines[line].wf());
    assert(after.wf());
    assert(a.wf());
    assert(b.wf());
    lemma_pool(tw, a, b);
}

proof fn lemma_line_written(tw: Twins, line: int, buf: Buf, width: u16)
    requires
        tw.ok(),
        buf < MAX_BUFFERS,
        run_of_channels(buf, 0, heard_width(width)).subset_of(tw.live),
        0 <= line < MAX_AUDIO_DELAY_LINES,
    ensures
        tw.with(
            tw.a.line_written(line, buf, width, tw.aw()),
            tw.b.line_written(line, buf, width, tw.bw()),
        ).ok(),
{
    if tw.a.lines[line].usable() {
        if 0 < width {
            assert(run_of_channels(buf, 0, heard_width(width)).contains((buf, 0int)));
            lemma_read(tw, buf, 0);
        }
        if 1 < width {
            assert(run_of_channels(buf, 0, heard_width(width)).contains((buf, 1int)));
            lemma_read(tw, buf, 1);
        }
        let quiet = silence(tw.frames as nat);
        lemma_appended(
            tw,
            line,
            if 0 < width {
                tw.a.channel(buf, 0, tw.aw())
            } else {
                quiet
            },
            if 1 < width {
                tw.a.channel(buf, 1, tw.aw())
            } else {
                quiet
            },
        );
    }
}

proof fn lemma_channels_set(tw: Twins, out: Buf, channels: Seq<Vec<Sample>>, count: nat)
    requires
        tw.ok(),
        out < MAX_BUFFERS,
        count <= MAX_BUFFER_CHANNELS,
    ensures
        tw.with(
            tw.a.channels_set(out, channels, tw.aw(), count),
            tw.b.channels_set(out, channels, tw.bw(), count),
        ).and(run_of_channels(out, 0, count as int)).ok(),
    decreases count,
{
    if count == 0 {
        lemma_none(tw, run_of_channels(out, 0, 0));
    } else {
        lemma_channels_set(tw, out, channels, (count - 1) as nat);
        let next = tw.with(
            tw.a.channels_set(out, channels, tw.aw(), (count - 1) as nat),
            tw.b.channels_set(out, channels, tw.bw(), (count - 1) as nat),
        ).and(run_of_channels(out, 0, count - 1));
        lemma_write(
            next,
            out,
            count - 1,
            fitted(answer_channel(channels, count - 1), tw.frames as nat),
        );
        lemma_run_grows(
            tw.with(
                tw.a.channels_set(out, channels, tw.aw(), count),
                tw.b.channels_set(out, channels, tw.bw(), count),
            ),
            out,
            0,
            count - 1,
        );
    }
}

/// The channels that the first `count` folds go to.
pub open spec fn fold_writes(list: Seq<Fold>, count: nat) -> Set<(Buf, int)>
    decreases count,
{
    if count == 0 {
        Set::empty()
    } else {
        fold_writes(list, (count - 1) as nat).union(
            set![(list[count - 1].out, list[count - 1].channel as int)],
        )
    }
}

proof fn lemma_folds_set(tw: Twins, list: Seq<Fold>, channels: Seq<Vec<Sample>>, count: nat)
    requires
        tw.ok(),
        folds_fit(list),
        count <= list.len(),
    ensures
        tw.with(
            tw.a.folds_set(list, channels, tw.aw(), count),
            tw.b.folds_set(list, channels, tw.bw(), count),
        ).and(fold_writes(list, count)).ok(),
    decreases count,
{
    if count == 0 {
        lemma_none(tw, Set::empty());
    } else {
        lemma_folds_set(tw, list, channels, (count - 1) as nat);
        let next = tw.with(
            tw.a.folds_set(list, channels, tw.aw(), (count - 1) as nat),
            tw.b.folds_set(list, channels, tw.bw(), (count - 1) as nat),
        ).and(fold_writes(list, (count - 1) as nat));
        let fold = list[count - 1];
        assert(fold.out < MAX_BUFFERS);
        lemma_write(
            next,
            fold.out,
            fold.channel as int,
            fitted(answer_channel(channels, count - 1), tw.frames as nat),
        );
        let last = next.with(
            tw.a.folds_set(list, channels, tw.aw(), count),
            tw.b.folds_set(list, channels, tw.bw(), count),
        ).and(set![(fold.out, fold.channel as int)]);
        assert(last.ok());
        lemma_less(last, tw.live.union(fold_writes(list, count)));
    }
}

proof fn lemma_unpacked(tw: Twins, buf: Buf, samples: Seq<Sample>, count: nat, width: nat)
    requires
        tw.ok(),
        buf < MAX_BUFFERS,
        count <= width <= MAX_BUFFER_CHANNELS,
        samples.len() == width * tw.frames,
    ensures
        tw.with(
            tw.a.unpacked(buf, samples, tw.aw(), count),
            tw.b.unpacked(buf, samples, tw.bw(), count),
        ).and(run_of_channels(buf, 0, count as int)).ok(),
    decreases count,
{
    if count == 0 {
        lemma_none(tw, run_of_channels(buf, 0, 0));
    } else {
        lemma_unpacked(tw, buf, samples, (count - 1) as nat, width);
        let next = tw.with(
            tw.a.unpacked(buf, samples, tw.aw(), (count - 1) as nat),
            tw.b.unpacked(buf, samples, tw.bw(), (count - 1) as nat),
        ).and(run_of_channels(buf, 0, count - 1));
        let frames = tw.frames as int;
        assert(0 <= (count - 1) * frames && (count - 1) * frames + frames == count * frames
            && count * frames <= width * frames) by (nonlinear_arith)
            requires
                0 < count <= width,
                0 <= frames,
        ;
        lemma_write(
            next,
            buf,
            count - 1,
            samples.subrange((count - 1) * frames, count * frames),
        );
        lemma_run_grows(
            tw.with(
                tw.a.unpacked(buf, samples, tw.aw(), count),
                tw.b.unpacked(buf, samples, tw.bw(), count),
            ),
            buf,
            0,
            count - 1,
        );
    }
}

/// The channels that an operation reads by itself. What its work reads is up to the
/// caller.
pub open spec fn channels_read(step: AudioStep, widths: Seq<u16>) -> Set<(Buf, int)> {
    match step {
        AudioStep::Gather { buses, .. } => gathered_reads(buses, widths),
        AudioStep::Split { from, channel, width, .. } => run_of_channels(
            from,
            channel as int,
            width as int,
        ),
        AudioStep::Output { a, .. } => run_of_channels(a, 0, heard_width(widths[a as int])),
        AudioStep::Compensate { buf, .. } => run_of_channels(
            buf,
            0,
            heard_width(widths[buf as int]),
        ),
        AudioStep::DelayWrite { a, .. } => run_of_channels(a, 0, heard_width(widths[a as int])),
        _ => Set::empty(),
    }
}

/// The channels that hold what an operation made of them once its work is answered.
pub open spec fn channels_written(step: AudioStep, widths: Seq<u16>) -> Set<(Buf, int)> {
    match step {
        AudioStep::Silence { out } => run_of_channels(out, 0, MAX_CHANNELS as int),
        AudioStep::Input { out, .. } => run_of_channels(out, 0, heard_width(widths[out as int])),
        AudioStep::Gather { out, buses, .. } => {
            let list = folds_of(out, buses, widths, buses.len());
            gathered_writes(out, buses, widths, buses.len()).union(fold_writes(list, list.len()))
        },
        AudioStep::Split { out, width, .. } => run_of_channels(out, 0, width as int),
        AudioStep::Plugin { output, output_buses, .. } => run_of_channels(
            output,
            0,
            total_width(output_buses) as int,
        ),
        AudioStep::Mix { out, .. } => run_of_channels(out, 0, heard_width(widths[out as int])),
        AudioStep::Fade { out, .. } => run_of_channels(out, 0, heard_width(widths[out as int])),
        AudioStep::DelayRead { out, .. } => run_of_channels(
            out,
            0,
            heard_width(widths[out as int]),
        ),
        _ => Set::empty(),
    }
}

/// What an audio operation does by itself does the same to both, and so does the answer
/// to what it asks for.
#[verifier::spinoff_prover]
proof fn lemma_ran(
    tw: Twins,
    one: EngineModel,
    other: EngineModel,
    step: AudioStep,
    widths: Seq<u16>,
    place: ChunkPlace,
    rows: Seq<Vec<Real>>,
    given_a: Seq<Sample>,
    given_b: Seq<Sample>,
    answer: AudioAnswer,
)
    requires
        tw.ok(),
        tw.a == one.sound,
        tw.b == other.sound,
        one.params == other.params,
        same_input(tw, given_a, given_b),
        widths.len() <= MAX_BUFFERS,
        forall|i: int| 0 <= i < widths.len() ==> #[trigger] widths[i] <= MAX_BUFFER_CHANNELS,
        step_fits(step, widths.len()),
        channels_read(step, widths).subset_of(tw.live),
    ensures
        ({
            let did_a = sound_did(tw.a, step, widths, tw.aw(), given_a);
            let did_b = sound_did(tw.b, step, widths, tw.bw(), given_b);
            let task = sound_asks(tw.b, other.params, step, widths, place, rows);
            let a = (EngineModel { sound: did_a, ..one }).sound_answered(task, tw.aw(), answer);
            let b = (EngineModel { sound: did_b, ..other }).sound_answered(task, tw.bw(), answer);
            &&& tw.with(a.sound, b.sound).and(channels_written(step, widths)).ok()
            &&& a.params == b.params
        }),
{
    let task = sound_asks(tw.b, other.params, step, widths, place, rows);
    let channels = answer.channels@;
    lemma_asks_fit(tw.b, other.params, step, widths, place, rows);
    let wrote = tw.live.union(channels_written(step, widths));
    match step {
        AudioStep::Silence { out } => {
            lemma_silence(tw, out);
        },
        AudioStep::Input { out, bus } => {
            let count = heard_width(widths[out as int]) as nat;
            if bus < tw.a.daw_inputs.len() {
                lemma_taken_in(tw, out, bus, given_a, given_b, count);
            } else {
                lemma_silence(tw, out);
                let next = tw.with(
                    tw.a.silenced(out, tw.aw()),
                    tw.b.silenced(out, tw.bw()),
                ).and(run_of_channels(out, 0, 2));
                lemma_less(next, wrote);
            }
        },
        AudioStep::Gather { out, buses, .. } => {
            lemma_gathered(tw, out, buses, widths, buses.len());
            let next = tw.with(
                tw.a.gathered(out, buses, widths, tw.aw(), buses.len()),
                tw.b.gathered(out, buses, widths, tw.bw(), buses.len()),
            ).and(gathered_writes(out, buses, widths, buses.len()));
            let list = folds_of(out, buses, widths, buses.len());
            lemma_folds_fit(out, buses, widths, buses.len());
            lemma_folds_set(next, list, channels, list.len());
            let last = next.with(
                next.a.folds_set(list, channels, tw.aw(), list.len()),
                next.b.folds_set(list, channels, tw.bw(), list.len()),
            ).and(fold_writes(list, list.len()));
            lemma_less(last, wrote);
        },
        AudioStep::Split { from, out, channel, width } => {
            lemma_split(tw, from, channel as int, out, width as nat);
        },
        AudioStep::Plugin { output, output_buses, .. } => {
            let width = total_width(output_buses) as nat;
            lemma_unpacked(
                tw,
                output,
                fitted(answer_channel(channels, 0), (width as u16 * tw.frames) as nat),
                width,
                width,
            );
        },
        AudioStep::Mix { out, inputs } => {
            if inputs.len() == 0 {
                lemma_silence(tw, out);
                let next = tw.with(
                    tw.a.silenced(out, tw.aw()),
                    tw.b.silenced(out, tw.bw()),
                ).and(run_of_channels(out, 0, 2));
                lemma_less(next, wrote);
            } else {
                lemma_channels_set(tw, out, channels, heard_width(widths[out as int]) as nat);
            }
        },
        AudioStep::Fade { out, .. } => {
            lemma_channels_set(tw, out, channels, heard_width(widths[out as int]) as nat);
        },
        AudioStep::Compensate { buf, slot, samples } => {
            lemma_compensated(tw, buf, slot, samples, widths[buf as int]);
            let next = tw.with(
                tw.a.compensated(buf, slot, samples, widths[buf as int], tw.aw()),
                tw.b.compensated(buf, slot, samples, widths[buf as int], tw.bw()),
            );
            lemma_none(next, Set::empty());
        },
        AudioStep::DelayRead { out, line, .. } => {
            let count = heard_width(widths[out as int]) as nat;
            if !tw.a.lines[line as int].usable() {
                lemma_silence(tw, out);
                let next = tw.with(
                    tw.a.silenced(out, tw.aw()),
                    tw.b.silenced(out, tw.bw()),
                ).and(run_of_channels(out, 0, 2));
                lemma_less(next, wrote);
            } else {
                lemma_channels_set(tw, out, channels, count);
                let a = tw.a.channels_set(out, channels, tw.aw(), count);
                let b = tw.b.channels_set(out, channels, tw.bw(), count);
                let next = tw.with(a, b).and(run_of_channels(out, 0, count as int));
                if place.tap < MAX_AUDIO_TAPS {
                    let taps = a.tap_distance.update(place.tap as int, answer.value);
                    lemma_pool(
                        next,
                        SoundModel { tap_distance: taps, ..a },
                        SoundModel { tap_distance: taps, ..b },
                    );
                }
            }
        },
        AudioStep::DelayWrite { line, a } => {
            lemma_line_written(tw, line as int, a, widths[a as int]);
            let next = tw.with(
                tw.a.line_written(line as int, a, widths[a as int], tw.aw()),
                tw.b.line_written(line as int, a, widths[a as int], tw.bw()),
            );
            lemma_none(next, Set::empty());
        },
        AudioStep::DelaySilence { line } => {
            let quiet = silence(tw.frames as nat);
            if tw.a.lines[line as int].usable() {
                lemma_appended(tw, line as int, quiet, quiet);
            }
            let next = tw.with(
                tw.a.line_drained(line as int, tw.frames as nat),
                tw.b.line_drained(line as int, tw.frames as nat),
            );
            lemma_none(next, Set::empty());
        },
        AudioStep::Output { .. } => {
            lemma_none(tw, Set::empty());
        },
    }
}

/// What one block is run on: its length, where it is cut, its lanes, and what the
/// DAW hands in.
pub struct BlockInput {
    pub frames: u32,
    pub quantum: u32,
    pub rows: Seq<Vec<Real>>,
    pub daw_in: Seq<Sample>,
}

/// The audio of one stage being run: the engine, where the run stands, and what the
/// DAW has been handed.
#[verifier::ext_equal]
pub struct Playing {
    pub model: EngineModel,
    pub run: BlockRun,
    pub heard: Seq<Sample>,
}

impl Playing {
    /// The chunk at hand, until the stage is through.
    pub open spec fn chunk(self, input: BlockInput) -> Option<Window> {
        match (self.run.cut(self.model), self.run.phase) {
            (Some(cut), Phase::Audio { start, .. }) => self.model.chunk_at(
                cut,
                input.frames,
                input.quantum,
                start as int,
            ),
            _ => None,
        }
    }

    /// What the next step leaves to be worked out.
    pub open spec fn asked(self, input: BlockInput) -> AudioTask {
        match (self.run.cut(self.model), self.run.phase, self.chunk(input)) {
            (Some(cut), Phase::Audio { row, at, tap, .. }, Some(win)) if at < cut.audio.end => {
                sound_asks(
                    self.model.sound,
                    self.model.params,
                    self.model.program->0.audio_ops[at as int],
                    self.model.program->0.buffers,
                    ChunkPlace { win, row, tap },
                    input.rows,
                )
            },
            _ => AudioTask::Nothing,
        }
    }

    /// One step taken and its work answered. A stage that is through stays so.
    pub open spec fn played(self, input: BlockInput, answer: AudioAnswer) -> Playing {
        match self.chunk(input) {
            None => self,
            Some(win) => Playing {
                model: stepped(
                    self.model,
                    self.run,
                    rows_view(input.rows),
                    input.frames,
                    input.quantum,
                    input.daw_in,
                ).0.sound_answered(self.asked(input), win, answer),
                run: self.run.stepped(self.model, input.frames, input.quantum),
                heard: heard_after(
                    self.model,
                    self.run,
                    input.frames,
                    input.quantum,
                    self.heard,
                ),
            },
        }
    }

    /// A step taken for each answer.
    pub open spec fn played_on(self, input: BlockInput, answers: Seq<AudioAnswer>) -> Playing
        decreases answers.len(),
    {
        if answers.len() == 0 {
            self
        } else {
            self.played_on(input, answers.drop_last()).played(input, answers.last())
        }
    }
}

/// Planar samples packed at a block's length, `channels` of them, that agree over
/// `limit` frames, those of the first from `shift` on. Outside of those frames the
/// first is as it was at first.
pub open spec fn same_heard(
    p: Seq<Sample>,
    p_frames: int,
    q: Seq<Sample>,
    q_frames: int,
    channels: nat,
    shift: int,
    limit: int,
    first: Seq<Sample>,
) -> bool {
    &&& p.len() == channels * p_frames
    &&& q.len() == channels * q_frames
    &&& first.len() == p.len()
    &&& forall|c: int, i: int|
        0 <= c < channels && 0 <= i < limit ==> #[trigger] frame(q, q_frames, c, i) == frame(
            p,
            p_frames,
            c,
            shift + i,
        )
    &&& forall|c: int, i: int|
        0 <= c < channels && 0 <= i < p_frames && !(shift <= i < shift + limit)
            ==> #[trigger] frame(p, p_frames, c, i) == frame(first, p_frames, c, i)
}

/// One channel of a block laid over, seen frame by frame.
pub proof fn lemma_laid_frame(
    list: Seq<Sample>,
    block: int,
    channels: nat,
    channel: int,
    start: int,
    samples: Seq<Sample>,
    c: int,
    i: int,
)
    requires
        list.len() == channels * block,
        0 <= channel < channels,
        0 <= c < channels,
        0 <= i < block,
        0 <= start,
        start + samples.len() <= block,
    ensures
        frame(laid(list, channel * block + start, samples), block, c, i) == if c == channel && start
            <= i < start + samples.len() {
            samples[i - start]
        } else {
            frame(list, block, c, i)
        },
{
    assert(0 <= c * block && c * block + block <= channels * block) by (nonlinear_arith)
        requires
            0 <= c < channels,
            0 <= block,
    ;
    assert(0 <= channel * block) by (nonlinear_arith)
        requires
            0 <= channel,
            0 <= block,
    ;
    if c < channel {
        assert(c * block + block <= channel * block) by (nonlinear_arith)
            requires
                c < channel,
                0 <= block,
        ;
    }
    if c > channel {
        assert(channel * block + block <= c * block) by (nonlinear_arith)
            requires
                channel < c,
                0 <= block,
        ;
    }
}

/// Handing out a chunk hands out the same of both.
proof fn lemma_handed_out(
    tw: Twins,
    p: Seq<Sample>,
    q: Seq<Sample>,
    channels: nat,
    shift: int,
    limit: int,
    first: Seq<Sample>,
    buf: Buf,
    count: nat,
)
    requires
        tw.ok(),
        tw.frames > 0,
        buf < MAX_BUFFERS,
        count <= MAX_CHANNELS,
        run_of_channels(buf, 0, count as int).subset_of(tw.live),
        0 <= shift,
        tw.at.start == tw.bt.start + shift,
        tw.bt.start + tw.at.frames <= limit <= tw.bt.block,
        shift + limit <= tw.at.block,
        same_heard(
            p,
            tw.at.block as int,
            q,
            tw.bt.block as int,
            channels,
            shift,
            limit,
            first,
        ),
    ensures
        same_heard(
            tw.a.handed_out(p, buf, tw.aw(), count),
            tw.at.block as int,
            tw.b.handed_out(q, buf, tw.bw(), count),
            tw.bt.block as int,
            channels,
            shift,
            limit,
            first,
        ),
    decreases count,
{
    if count > 0 {
        assert(run_of_channels(buf, 0, count - 1).subset_of(run_of_channels(buf, 0, count as int)));
        assert(run_of_channels(buf, 0, count as int).contains((buf, count - 1)));
        lemma_handed_out(tw, p, q, channels, shift, limit, first, buf, (count - 1) as nat);
        let x = tw.a.handed_out(p, buf, tw.aw(), (count - 1) as nat);
        let y = tw.b.handed_out(q, buf, tw.bw(), (count - 1) as nat);
        let channel = count - 1;
        let f = tw.at.block as int;
        let g = tw.bt.block as int;
        let s = tw.aw().start as int;
        let t = tw.bw().start as int;
        let samples = tw.a.channel(buf, channel, tw.aw());
        lemma_read(tw, buf, channel);
        if channel < channels {
            assert(channel * f + f <= channels * f && channel * g + g <= channels * g)
                by (nonlinear_arith)
                requires
                    channel < channels,
                    0 <= f,
                    0 <= g,
            ;
            let xx = laid(x, channel * f + s, samples);
            let yy = laid(y, channel * g + t, samples);
            assert forall|c: int, i: int| 0 <= c < channels && 0 <= i < limit implies #[trigger] frame(
                yy,
                g,
                c,
                i,
            ) == frame(xx, f, c, shift + i) by {
                lemma_laid_frame(y, g, channels, channel, t, samples, c, i);
                lemma_laid_frame(x, f, channels, channel, s, samples, c, shift + i);
                assert(frame(y, g, c, i) == frame(x, f, c, shift + i));
            }
            assert forall|c: int, i: int|
                0 <= c < channels && 0 <= i < f && !(shift <= i < shift
                    + limit) implies #[trigger] frame(xx, f, c, i) == frame(first, f, c, i) by {
                lemma_laid_frame(x, f, channels, channel, s, samples, c, i);
                assert(frame(x, f, c, i) == frame(first, f, c, i));
            }
        } else {
            assert(channel * f >= channels * f && channel * g >= channels * g)
                by (nonlinear_arith)
                requires
                    channel >= channels,
                    0 <= f,
                    0 <= g,
            ;
        }
    }
}

pub proof fn lemma_asks_fit(
    state: SoundModel,
    params: ParamsModel,
    step: AudioStep,
    widths: Seq<u16>,
    place: ChunkPlace,
    rows: Seq<Vec<Real>>,
)
    requires
        widths.len() <= MAX_BUFFERS,
        forall|i: int| 0 <= i < widths.len() ==> #[trigger] widths[i] <= MAX_BUFFER_CHANNELS,
        step_fits(step, widths.len()),
    ensures
        task_fits(sound_asks(state, params, step, widths, place, rows)),
{
    match step {
        AudioStep::Gather { out, buses, .. } => {
            lemma_folds_fit(out, buses, widths, buses.len());
        },
        AudioStep::Mix { out, inputs } => {
            let parts = parts_of(inputs, rows, place.row as int);
            assert forall|i: int| 0 <= i < parts.len() implies (#[trigger] parts[i]).buf
                < MAX_BUFFERS by {
                assert(inputs[i].buf < widths.len());
            }
        },
        _ => {},
    }
}

impl Playing {
    pub open spec fn start(self) -> int {
        match self.run.phase {
            Phase::Audio { start, .. } => start as int,
            _ => 0,
        }
    }

    pub open spec fn row(self) -> int {
        match self.run.phase {
            Phase::Audio { row, .. } => row as int,
            _ => 0,
        }
    }

    pub open spec fn at(self) -> int {
        match self.run.phase {
            Phase::Audio { at, .. } => at as int,
            _ => 0,
        }
    }

    pub open spec fn tap(self) -> int {
        match self.run.phase {
            Phase::Audio { tap, .. } => tap as int,
            _ => 0,
        }
    }

    /// The stage whose audio runs.
    pub open spec fn stage(self) -> Stage {
        self.run.cut(self.model)->0
    }

    /// A place in the audio of a stage that runs a sub-block at a time.
    pub open spec fn in_sub_blocks(self) -> bool {
        &&& self.run.phase is Audio
        &&& self.run.cut(self.model) is Some
        &&& self.stage().chunking is SubBlock
        &&& self.model.wf()
        &&& self.stage().audio.start <= self.at() <= self.stage().audio.end
        &&& self.tap() <= self.at() - self.stage().audio.start
        &&& self.row() <= self.start()
    }

    /// The start of the audio of such a stage.
    pub open spec fn at_the_start(self) -> bool {
        &&& self.in_sub_blocks()
        &&& self.start() == 0
        &&& self.row() == 0
        &&& self.tap() == 0
        &&& self.at() == self.stage().audio.start
    }
}

/// What the operations `from..to` leave written.
pub open spec fn written_by(
    ops: Seq<AudioStep>,
    widths: Seq<u16>,
    from: int,
    to: int,
) -> Set<(Buf, int)>
    decreases to - from,
{
    if to <= from {
        Set::empty()
    } else {
        written_by(ops, widths, from, to - 1).union(channels_written(ops[to - 1], widths))
    }
}

/// Every operation of a stage reads only channels that were there before or that an
/// earlier one has written.
pub open spec fn reads_are_written(
    program: ProgramModel,
    stage: Stage,
    base: Set<(Buf, int)>,
) -> bool {
    forall|k: int|
        stage.audio.start <= k < stage.audio.end ==> channels_read(
            #[trigger] program.audio_ops[k],
            program.buffers,
        ).subset_of(
            base.union(
                written_by(program.audio_ops, program.buffers, stage.audio.start as int, k),
            ),
        )
}

/// Two blocks of which the first has in a part of it, from `shift` on, where `rows` of its
/// sub-blocks have gone by, what the second is: the same of the DAW's samples, the same
/// lanes, and the same in some channels of the buffers.
pub struct Pairing {
    pub p_given: BlockInput,
    pub q_given: BlockInput,
    /// Of what the DAW is handed.
    pub channels: nat,
    pub shift: int,
    pub rows: int,
    pub base: Set<(Buf, int)>,
    /// The first run at its start.
    pub first: Playing,
}

/// Two blocks that are handed the same.
pub open spec fn same_given(p: BlockInput, q: BlockInput, shift: int, rows: int) -> bool {
    &&& p.quantum == q.quantum
    &&& p.quantum > 0
    &&& 0 <= shift
    &&& 0 <= rows
    &&& shift + q.frames <= p.frames
    &&& forall|c: int, i: int|
        0 <= c && 0 <= i < q.frames ==> #[trigger] frame(q.daw_in, q.frames as int, c, i) == frame(
            p.daw_in,
            p.frames as int,
            c,
            shift + i,
        )
    &&& forall|row: int, lane: Option<u16>|
        0 <= row && row * p.quantum < q.frames ==> #[trigger] lane_in(q.rows, row, lane) == lane_in(
            p.rows,
            row + rows,
            lane,
        )
}

impl Pairing {
    pub open spec fn twins(self, p: Playing, q: Playing) -> Twins {
        let program = q.model.program->0;
        let audio = q.stage().audio;
        let limit = self.q_given.frames;
        Twins {
            a: p.model.sound,
            at: stretch(self.p_given, self.shift, limit as int),
            b: q.model.sound,
            bt: stretch(self.q_given, 0, limit as int),
            from: q.start() as usize,
            frames: match q.chunk(self.q_given) {
                Some(win) => win.frames,
                None => 0,
            },
            base: self.base,
            live: self.base.union(
                written_by(program.audio_ops, program.buffers, audio.start as int, q.at()),
            ),
            full: self.base.union(
                written_by(
                    program.audio_ops,
                    program.buffers,
                    audio.start as int,
                    audio.end as int,
                ),
            ),
            past: stretch(self.p_given, 0, self.shift),
            rest: stretch(
                self.p_given,
                self.shift + limit,
                self.p_given.frames - self.shift - limit,
            ),
            first: self.first.model.sound,
        }
    }

    /// Two runs at the same place of the same sound.
    pub open spec fn in_step(self, p: Playing, q: Playing) -> bool {
        &&& same_given(self.p_given, self.q_given, self.shift, self.rows)
        &&& p.in_sub_blocks()
        &&& q.in_sub_blocks()
        &&& p.model.program == q.model.program
        &&& p.model.params == q.model.params
        &&& p.run.stage == q.run.stage
        &&& p.start() == q.start() + self.shift
        &&& p.row() == q.row() + self.rows
        &&& p.at() == q.at()
        &&& p.tap() == q.tap()
        &&& q.start() <= self.q_given.frames
        &&& q.start() < self.q_given.frames ==> q.row() * self.q_given.quantum == q.start()
        &&& reads_are_written(q.model.program->0, q.stage(), self.base)
        &&& self.twins(p, q).ok()
        &&& same_heard(
            p.heard,
            self.p_given.frames as int,
            q.heard,
            self.q_given.frames as int,
            self.channels,
            self.shift,
            self.q_given.frames as int,
            self.first.heard,
        )
    }
}

/// An audio operation, and what it leaves to be worked out, do not see the block
/// around the chunk: two runs in step ask for the same, and are in step again once
/// they have been given the same answer.
#[verifier::rlimit(60)]
#[verifier::spinoff_prover]
pub proof fn law_a_chunk_does_not_see_its_block(
    pair: Pairing,
    p: Playing,
    q: Playing,
    answer: AudioAnswer,
)
    requires
        pair.in_step(p, q),
        p.chunk(pair.p_given) matches Some(long) && q.chunk(pair.q_given) matches Some(short)
            && long.frames == short.frames,
    ensures
        p.asked(pair.p_given) == q.asked(pair.q_given),
        ({
            let pp = p.played(pair.p_given, answer);
            let qq = q.played(pair.q_given, answer);
            &&& pair.in_step(pp, qq)
            &&& qq.model.program == q.model.program
            &&& qq.run == (BlockRun { phase: qq.run.phase, ..q.run })
            &&& pp.run == (BlockRun { phase: pp.run.phase, ..p.run })
            &&& q.at() < q.stage().audio.end ==> qq.start() == q.start() && qq.at() == q.at() + 1
                && qq.row() == q.row()
            &&& q.at() == q.stage().audio.end ==> qq.start() == q.start() + (q.chunk(
                pair.q_given,
            )->0).frames && qq.at() == q.stage().audio.start && qq.row() == q.row() + 1 && qq.tap()
                == 0
        }),
{
    let tw = pair.twins(p, q);
    let p_given = pair.p_given;
    let q_given = pair.q_given;
    let long = p.chunk(p_given)->0;
    let short = q.chunk(q_given)->0;
    let program = p.model.program->0;
    let cut = p.stage();
    assert(q.stage() == cut);
    assert(program.stages[p.run.stage as int] == cut);
    assert(cut.audio.fits(program.audio_ops.len()));
    assert(tw.aw() == long);
    assert(tw.bw() == short);
    let pp = p.played(p_given, answer);
    let qq = q.played(q_given, answer);
    let at = p.at();
    let start = cut.audio.start as int;
    if at < cut.audio.end {
        let step = program.audio_ops[at];
        assert(step_fits(step, program.buffers.len()));
        assert(same_input(tw, p_given.daw_in, q_given.daw_in)) by {
            assert forall|c: int, i: int|
                0 <= c && tw.bw().start <= i < tw.bw().start + tw.frames implies #[trigger] frame(
                q_given.daw_in,
                tw.bt.block as int,
                c,
                i,
            ) == frame(p_given.daw_in, tw.at.block as int, c, i + tw.at.start - tw.bt.start) by {
                assert(i + tw.at.start - tw.bt.start == pair.shift + i);
            }
        }
        let p_place = ChunkPlace { win: long, row: p.row() as usize, tap: p.tap() as usize };
        let q_place = ChunkPlace { win: short, row: q.row() as usize, tap: q.tap() as usize };
        lemma_asks_alike(
            p.model.sound,
            q.model.sound,
            p.model.params,
            step,
            program.buffers,
            p_place,
            q_place,
            p_given.rows,
            q_given.rows,
            pair.rows,
        );
        lemma_ran(
            tw,
            p.model,
            q.model,
            step,
            program.buffers,
            q_place,
            q_given.rows,
            p_given.daw_in,
            q_given.daw_in,
            answer,
        );
        if let AudioStep::Output { a, bus } = step {
            if bus == 0 {
                lemma_handed_out(
                    tw,
                    p.heard,
                    q.heard,
                    pair.channels,
                    pair.shift,
                    q_given.frames as int,
                    pair.first.heard,
                    a,
                    heard_width(program.buffers[a as int]) as nat,
                );
            }
        }
        let after = tw.with(pp.model.sound, qq.model.sound).and(
            channels_written(step, program.buffers),
        );
        assert(after.ok());
        let next = pair.twins(pp, qq);
        assert(qq.chunk(q_given) == Some(short));
        assert(next.live =~= after.live);
        assert(next == after);
    } else {
        let next = pair.twins(pp, qq);
        assert(written_by(program.audio_ops, program.buffers, start, start) =~= Set::empty());
        assert(next.live =~= pair.base);
        assert(tw.live =~= tw.full);
        assert(qq.start() + next.frames <= q_given.frames);
        lemma_narrower(
            pair.base,
            tw.a,
            tw.at,
            tw.b,
            tw.bt,
            qq.start(),
            next.frames as int,
        );
        lemma_wider(
            tw.full,
            tw.a,
            tw.at,
            tw.b,
            tw.bt,
            tw.from as int,
            tw.frames as int,
        );
        assert(next.ok());
        assert((q.row() + 1) * q_given.quantum == q.row() * q_given.quantum + q_given.quantum)
            by (nonlinear_arith);
    }
}

/// What is asked for hangs on the lines, the latches, the lanes and the length of the
/// chunk.
proof fn lemma_asks_alike(
    a: SoundModel,
    b: SoundModel,
    params: ParamsModel,
    step: AudioStep,
    widths: Seq<u16>,
    p: ChunkPlace,
    q: ChunkPlace,
    p_rows: Seq<Vec<Real>>,
    q_rows: Seq<Vec<Real>>,
    rows: int,
)
    requires
        a.lines == b.lines,
        p.win.frames == q.win.frames,
        p.tap == q.tap,
        p.row == q.row + rows,
        forall|lane: Option<u16>| #[trigger]
            lane_in(q_rows, q.row as int, lane) == lane_in(p_rows, q.row + rows, lane),
    ensures
        sound_asks(a, params, step, widths, p, p_rows) == sound_asks(
            b,
            params,
            step,
            widths,
            q,
            q_rows,
        ),
{
    match step {
        AudioStep::Mix { out, inputs } => {
            assert forall|i: int| 0 <= i < inputs.len() implies #[trigger] parts_of(
                inputs,
                p_rows,
                p.row as int,
            )[i] == parts_of(inputs, q_rows, q.row as int)[i] by {
                assert(lane_in(q_rows, q.row as int, inputs[i].lane) == lane_in(
                    p_rows,
                    q.row + rows,
                    inputs[i].lane,
                ));
            }
            assert(parts_of(inputs, p_rows, p.row as int) =~= parts_of(
                inputs,
                q_rows,
                q.row as int,
            ));
        },
        AudioStep::DelayRead { lane, .. } => {
            assert(lane_in(q_rows, q.row as int, lane) == lane_in(p_rows, q.row + rows, lane));
        },
        _ => {},
    }
}

/// A block whose first part is made of whole sub-blocks is cut as two blocks are:
/// up to there as a block that ends there, and from there on as one that starts
/// there.
pub proof fn law_chunks_join(
    model: EngineModel,
    stage: Stage,
    frames: u32,
    first: u32,
    quantum: u32,
    index: int,
)
    requires
        stage.chunking is SubBlock,
        quantum > 0,
        first <= frames <= model.sound.stride,
        first as int % quantum as int == 0,
        0 <= index,
    ensures
        index * quantum < first ==> {
            let long = model.chunk_at(stage, frames, quantum, index * quantum);
            let short = model.chunk_at(stage, first, quantum, index * quantum);
            &&& long is Some && short is Some
            &&& (long->0).start == (short->0).start
            &&& (long->0).frames == (short->0).frames == quantum
        },
        index < frames - first ==> {
            let long = model.chunk_at(stage, frames, quantum, first + index);
            let short = model.chunk_at(stage, (frames - first) as u32, quantum, index);
            &&& long is Some && short is Some
            &&& (long->0).start == first + (short->0).start
            &&& (long->0).frames == (short->0).frames
        },
{
    if index * quantum < first {
        lemma_whole_sub_blocks(first as int, quantum as int, index);
    }
}

pub proof fn lemma_whole_sub_blocks(first: int, quantum: int, index: int)
    requires
        0 < quantum,
        first % quantum == 0,
        0 <= index,
        index * quantum < first,
    ensures
        0 <= index * quantum,
        index * quantum + quantum <= first,
        index < first / quantum,
        first == (first / quantum) * quantum,
{
    vstd::arithmetic::div_mod::lemma_fundamental_div_mod(first, quantum);
    let whole = first / quantum;
    assert(first == quantum * whole);
    assert(index < whole && 0 <= index * quantum && index * quantum + quantum <= whole * quantum
        && whole * quantum == quantum * whole) by (nonlinear_arith)
        requires
            index * quantum < quantum * whole,
            0 < quantum,
            0 <= index,
    ;
}

pub proof fn lemma_played_split(
    p: Playing,
    given: BlockInput,
    answers: Seq<AudioAnswer>,
    more: Seq<AudioAnswer>,
)
    ensures
        p.played_on(given, answers + more) == p.played_on(given, answers).played_on(given, more),
    decreases more.len(),
{
    if more.len() == 0 {
        assert(answers + more =~= answers);
    } else {
        lemma_played_split(p, given, answers, more.drop_last());
        assert((answers + more).drop_last() =~= answers + more.drop_last());
        assert((answers + more).last() == more.last());
    }
}

/// How many steps a chunk takes: one for each operation, and one to turn to the next
/// chunk.
pub open spec fn steps_in_a_chunk(stage: Stage) -> nat {
    (stage.audio.end - stage.audio.start + 1) as nat
}

/// The steps of one chunk of the shorter block.
proof fn lemma_through_a_chunk(
    pair: Pairing,
    p: Playing,
    q: Playing,
    answers: Seq<AudioAnswer>,
)
    requires
        pair.in_step(p, q),
        pair.shift == 0,
        pair.rows == 0,
        pair.q_given.frames as int % pair.q_given.quantum as int == 0,
        q.start() < pair.q_given.frames,
        q.at() == q.stage().audio.start,
        answers.len() <= steps_in_a_chunk(q.stage()),
    ensures
        ({
            let pp = p.played_on(pair.p_given, answers);
            let qq = q.played_on(pair.q_given, answers);
            let per = steps_in_a_chunk(q.stage());
            &&& pair.in_step(pp, qq)
            &&& qq.stage() == q.stage()
            &&& answers.len() < per ==> qq.start() == q.start() && qq.at() == q.at()
                + answers.len() && qq.row() == q.row()
            &&& answers.len() == per ==> qq.start() == q.start() + pair.q_given.quantum && qq.at()
                == q.at() && qq.row() == q.row() + 1 && qq.tap() == 0
        }),
    decreases answers.len(),
{
    if answers.len() > 0 {
        lemma_through_a_chunk(pair, p, q, answers.drop_last());
        let pp = p.played_on(pair.p_given, answers.drop_last());
        let qq = q.played_on(pair.q_given, answers.drop_last());
        lemma_whole_sub_blocks(
            pair.q_given.frames as int,
            pair.q_given.quantum as int,
            qq.row(),
        );
        assert(pp.stage() == qq.stage());
        law_a_chunk_does_not_see_its_block(pair, pp, qq, answers.last());
    }
}

/// The first `count` chunks of the shorter block.
proof fn lemma_through_chunks(
    pair: Pairing,
    p: Playing,
    q: Playing,
    answers: Seq<AudioAnswer>,
    count: nat,
)
    requires
        pair.in_step(p, q),
        pair.shift == 0,
        pair.rows == 0,
        pair.q_given.frames as int % pair.q_given.quantum as int == 0,
        q.at_the_start(),
        count * pair.q_given.quantum <= pair.q_given.frames,
        answers.len() == count * steps_in_a_chunk(q.stage()),
    ensures
        ({
            let pp = p.played_on(pair.p_given, answers);
            let qq = q.played_on(pair.q_given, answers);
            &&& pair.in_step(pp, qq)
            &&& qq.stage() == q.stage()
            &&& qq.start() == count * pair.q_given.quantum
            &&& qq.row() == count
            &&& qq.tap() == 0
            &&& qq.at() == q.at()
        }),
    decreases count,
{
    let per = steps_in_a_chunk(q.stage());
    let quantum = pair.q_given.quantum as int;
    if count == 0 {
        assert(0 * per == 0 && 0 * quantum == 0) by (nonlinear_arith);
    } else {
        let before = (count - 1) as nat;
        assert(count * per == before * per + per && count * quantum == before * quantum + quantum
            && 0 <= before * per) by (nonlinear_arith)
            requires
                count == before + 1,
                0 <= per,
        ;
        let front = answers.take((before * per) as int);
        let back = answers.skip((before * per) as int);
        assert(front + back =~= answers);
        lemma_through_chunks(pair, p, q, front, before);
        lemma_through_a_chunk(
            pair,
            p.played_on(pair.p_given, front),
            q.played_on(pair.q_given, front),
            back,
        );
        lemma_played_split(p, pair.p_given, front, back);
        lemma_played_split(q, pair.q_given, front, back);
    }
}

/// From the end of the first block on the long block and the second run in step.
pub proof fn lemma_from_there_on(
    pair: Pairing,
    p: Playing,
    q: Playing,
    answers: Seq<AudioAnswer>,
)
    requires
        pair.in_step(p, q),
        pair.p_given.frames == pair.shift + pair.q_given.frames,
    ensures
        pair.in_step(p.played_on(pair.p_given, answers), q.played_on(pair.q_given, answers)),
    decreases answers.len(),
{
    if answers.len() > 0 {
        lemma_from_there_on(pair, p, q, answers.drop_last());
        let pp = p.played_on(pair.p_given, answers.drop_last());
        let qq = q.played_on(pair.q_given, answers.drop_last());
        assert(pp.stage() == qq.stage());
        if qq.start() < pair.q_given.frames {
            law_a_chunk_does_not_see_its_block(pair, pp, qq, answers.last());
        }
    }
}

/// Runs in step to the end of their blocks ask for the same and end together.
proof fn lemma_in_step_asks(pair: Pairing, p: Playing, q: Playing)
    requires
        pair.in_step(p, q),
        pair.p_given.frames == pair.shift + pair.q_given.frames,
    ensures
        p.chunk(pair.p_given) is None <==> q.chunk(pair.q_given) is None,
        p.asked(pair.p_given) == q.asked(pair.q_given),
{
    assert(p.stage() == q.stage());
    if q.start() < pair.q_given.frames {
        law_a_chunk_does_not_see_its_block(pair, p, q, arbitrary());
    }
}

/// Stepping through a stage does not change what runs.
pub proof fn lemma_played_keeps(p: Playing, given: BlockInput, answers: Seq<AudioAnswer>)
    requires
        p.run.phase is Audio,
    ensures
        ({
            let pp = p.played_on(given, answers);
            &&& pp.run.phase is Audio
            &&& pp.model.program == p.model.program
            &&& pp.run == (BlockRun { phase: pp.run.phase, ..p.run })
        }),
    decreases answers.len(),
{
    if answers.len() > 0 {
        lemma_played_keeps(p, given, answers.drop_last());
    }
}

/// A stretch of a block: so many frames from `start` on.
pub open spec fn stretch(given: BlockInput, start: int, frames: int) -> Window {
    Window { block: given.frames as usize, start: start as usize, frames: frames as usize }
}

/// Two runs of the same stage, of engines with the same program, the same parameters and
/// the same memory.
pub open spec fn same_start(p: Playing, q: Playing) -> bool {
    &&& p.run.stage == q.run.stage
    &&& p.model.program == q.model.program
    &&& p.model.params == q.model.params
    &&& same_memory(p.model.sound, q.model.sound)
}

/// The planar samples that one has in some frames of its block the other has in some
/// of its.
pub open spec fn same_frames(
    p: Seq<Sample>,
    p_frames: int,
    from: int,
    q: Seq<Sample>,
    q_frames: int,
    channels: nat,
    count: int,
) -> bool {
    forall|c: int, i: int|
        0 <= c < channels && 0 <= i < count ==> #[trigger] frame(q, q_frames, c, i) == frame(
            p,
            p_frames,
            c,
            from + i,
        )
}

/// One block, and the same sound in two blocks of which the first is made of whole
/// sub-blocks. Each gets of the DAW's samples, of the lanes, and of what earlier stages
/// left in the buffers what the one block has in its part.
pub struct Cutting {
    pub whole: BlockInput,
    pub first: BlockInput,
    pub second: BlockInput,
    /// Of what the DAW is handed.
    pub channels: nat,
    /// What earlier stages have written.
    pub base: Set<(Buf, int)>,
    pub long: Playing,
    pub short: Playing,
    pub later: Playing,
}

impl Cutting {
    /// How many sub-blocks the first block has.
    pub open spec fn rows(self) -> int {
        self.first.frames as int / self.first.quantum as int
    }

    pub open spec fn lengths_fit(self) -> bool {
        &&& self.whole.frames == self.first.frames + self.second.frames
        &&& 0 < self.whole.frames <= self.long.model.sound.stride
        &&& self.first.frames <= self.short.model.sound.stride
        &&& 0 < self.short.model.sound.stride
        &&& self.second.frames <= self.later.model.sound.stride
        &&& 0 < self.later.model.sound.stride
        &&& self.long.heard.len() == self.channels * self.whole.frames
        &&& self.short.heard.len() == self.channels * self.first.frames
        &&& self.later.heard.len() == self.channels * self.second.frames
    }

    /// The first block has what the long one has in its first part.
    pub open spec fn first_agrees(self) -> bool {
        let n = self.first.frames as int;
        &&& n % (self.first.quantum as int) == 0
        &&& self.long.at_the_start()
        &&& self.short.at_the_start()
        &&& same_start(self.long, self.short)
        &&& same_given(self.whole, self.first, 0, 0)
        &&& reads_are_written(self.long.model.program->0, self.long.stage(), self.base)
        &&& same_samples(
            self.base,
            self.long.model.sound,
            stretch(self.whole, 0, n),
            self.short.model.sound,
            stretch(self.first, 0, n),
        )
        &&& same_frames(
            self.long.heard,
            self.whole.frames as int,
            0,
            self.short.heard,
            n,
            self.channels,
            n,
        )
    }

    /// The second block has what the long one has in its second part.
    pub open spec fn second_agrees(self) -> bool {
        let n = self.first.frames as int;
        let m = self.second.frames as int;
        &&& self.later.at_the_start()
        &&& same_given(self.whole, self.second, n, self.rows())
        &&& same_samples(
            self.base,
            self.long.model.sound,
            stretch(self.whole, n, m),
            self.later.model.sound,
            stretch(self.second, 0, m),
        )
        &&& same_frames(
            self.long.heard,
            self.whole.frames as int,
            n,
            self.later.heard,
            m,
            self.channels,
            m,
        )
    }

    /// What is written once the stage is through.
    pub open spec fn full(self) -> Set<(Buf, int)> {
        let program = self.long.model.program->0;
        let audio = self.long.stage().audio;
        self.base.union(
            written_by(
                program.audio_ops,
                program.buffers,
                audio.start as int,
                audio.end as int,
            ),
        )
    }

    pub open spec fn first_pair(self) -> Pairing {
        Pairing {
            p_given: self.whole,
            q_given: self.first,
            channels: self.channels,
            shift: 0,
            rows: 0,
            base: self.base,
            first: self.long,
        }
    }

    pub open spec fn second_pair(self, mid: Playing) -> Pairing {
        Pairing {
            p_given: self.whole,
            q_given: self.second,
            channels: self.channels,
            shift: self.first.frames as int,
            rows: self.rows(),
            base: self.base,
            first: mid,
        }
    }
}

/// The first block and the long one start in step.
pub proof fn lemma_first_in_step(cut: Cutting)
    requires
        cut.lengths_fit(),
        cut.first_agrees(),
    ensures
        cut.first_pair().in_step(cut.long, cut.short),
{
    assert(0 * cut.first.quantum == 0) by (nonlinear_arith);
    lemma_at_the_start(cut.first_pair(), cut.long, cut.short);
}

/// The first block and the first part of the long one run in step to their end.
pub proof fn lemma_first_part(cut: Cutting, answers: Seq<AudioAnswer>)
    requires
        cut.lengths_fit(),
        cut.first_agrees(),
        answers.len() == cut.rows() * steps_in_a_chunk(cut.short.stage()),
    ensures
        ({
            let mid = cut.long.played_on(cut.whole, answers);
            let two = cut.short.played_on(cut.first, answers);
            &&& cut.first_pair().in_step(mid, two)
            &&& two.start() == cut.first.frames
            &&& two.row() == cut.rows()
            &&& two.stage() == cut.short.stage()
            &&& two.at() == two.stage().audio.start
            &&& two.tap() == 0
        }),
{
    let n = cut.first.frames as int;
    let quantum = cut.first.quantum as int;
    let count = cut.rows();
    vstd::arithmetic::div_mod::lemma_fundamental_div_mod(n, quantum);
    vstd::arithmetic::div_mod::lemma_div_pos_is_pos(n, quantum);
    assert(count * quantum == n) by (nonlinear_arith)
        requires
            n == quantum * count + 0,
    ;
    let pair = cut.first_pair();
    lemma_first_in_step(cut);
    lemma_through_chunks(pair, cut.long, cut.short, answers, count as nat);
}

/// At the start of a stage nothing of it has been written.
pub proof fn lemma_at_the_start(pair: Pairing, p: Playing, q: Playing)
    requires
        q.at_the_start(),
        p.model.wf(),
        same_memory(p.model.sound, q.model.sound),
        p.model.sound.daw_inputs == pair.first.model.sound.daw_inputs,
        p.model.sound.stride == pair.first.model.sound.stride,
        same_given(pair.p_given, pair.q_given, pair.shift, pair.rows),
        0 < pair.p_given.frames <= p.model.sound.stride,
        pair.q_given.frames <= q.model.sound.stride,
        0 < q.model.sound.stride,
        same_samples(
            pair.base,
            p.model.sound,
            stretch(pair.p_given, pair.shift, pair.q_given.frames as int),
            q.model.sound,
            stretch(pair.q_given, 0, pair.q_given.frames as int),
        ),
        untouched(p.model.sound, pair.first.model.sound, stretch(pair.p_given, 0, pair.shift)),
        untouched(
            p.model.sound,
            pair.first.model.sound,
            stretch(
                pair.p_given,
                pair.shift + pair.q_given.frames,
                pair.p_given.frames - pair.shift - pair.q_given.frames,
            ),
        ),
    ensures
        pair.twins(p, q).ok(),
{
    let tw = pair.twins(p, q);
    let program = q.model.program->0;
    let start = q.stage().audio.start as int;
    assert(written_by(program.audio_ops, program.buffers, start, start) =~= Set::empty());
    assert(tw.live =~= pair.base);
    lemma_narrower(pair.base, tw.a, tw.at, tw.b, tw.bt, 0, tw.frames as int);
    assert forall|buf: Buf, channel: int|
        #[trigger] tw.full.contains((buf, channel)) && buf < MAX_BUFFERS && 0 <= channel
            < MAX_BUFFER_CHANNELS implies tw.a.channel(buf, channel, part(tw.at, 0, 0))
        == tw.b.channel(buf, channel, part(tw.bt, 0, 0)) by {
        lemma_window(tw.a, buf, channel, part(tw.at, 0, 0));
        lemma_window(tw.b, buf, channel, part(tw.bt, 0, 0));
        assert(tw.a.channel(buf, channel, part(tw.at, 0, 0)) =~= tw.b.channel(
            buf,
            channel,
            part(tw.bt, 0, 0),
        ));
    }
}

/// Where the first block ends the second takes the long one up.
pub proof fn lemma_second_part(cut: Cutting, mid: Playing, two: Playing)
    requires
        cut.lengths_fit(),
        cut.second_agrees(),
        cut.first_pair().in_step(mid, two),
        two.start() == cut.first.frames,
        two.row() == cut.rows(),
        two.at() == two.stage().audio.start,
        two.tap() == 0,
        same_start(two, cut.later),
    ensures
        cut.second_pair(mid).in_step(mid, cut.later),
{
    let n = cut.first.frames as int;
    let m = cut.second.frames as int;
    let f = cut.whole.frames as int;
    let later = cut.later;
    let tw = cut.first_pair().twins(mid, two);
    let pair = cut.second_pair(mid);
    assert(tw.rest == stretch(cut.whole, n, m));
    assert(0 * cut.second.quantum == 0) by (nonlinear_arith);
    assert(same_samples(
        cut.base,
        mid.model.sound,
        stretch(cut.whole, n, m),
        later.model.sound,
        stretch(cut.second, 0, m),
    )) by {
        assert forall|buf: Buf, channel: int|
            #[trigger] cut.base.contains((buf, channel)) && buf < MAX_BUFFERS && 0 <= channel
                < MAX_BUFFER_CHANNELS implies mid.model.sound.channel(buf, channel, tw.rest)
            == later.model.sound.channel(buf, channel, stretch(cut.second, 0, m)) by {
            assert(mid.model.sound.channel(buf, channel, tw.rest)
                == cut.long.model.sound.channel(buf, channel, tw.rest));
        }
    }
    assert(later.stage() == two.stage());
    lemma_at_the_start(pair, mid, later);
    assert(same_heard(mid.heard, f, later.heard, m, cut.channels, n, m, mid.heard)) by {
        assert forall|c: int, i: int|
            0 <= c < cut.channels && 0 <= i < m implies #[trigger] frame(later.heard, m, c, i)
            == frame(mid.heard, f, c, n + i) by {
            assert(frame(mid.heard, f, c, n + i) == frame(cut.long.heard, f, c, n + i));
        }
    }
}

/// Both parts run in step with the long block to the end of the stage.
pub proof fn lemma_both_parts(
    cut: Cutting,
    answers: Seq<AudioAnswer>,
    more: Seq<AudioAnswer>,
)
    requires
        cut.lengths_fit(),
        cut.first_agrees(),
        cut.second_agrees(),
        answers.len() == cut.rows() * steps_in_a_chunk(cut.short.stage()),
        same_start(cut.short.played_on(cut.first, answers), cut.later),
    ensures
        ({
            let mid = cut.long.played_on(cut.whole, answers);
            let one = cut.long.played_on(cut.whole, answers + more);
            let two = cut.short.played_on(cut.first, answers);
            let three = cut.later.played_on(cut.second, more);
            &&& cut.first_pair().in_step(mid, two)
            &&& cut.second_pair(mid).in_step(one, three)
            &&& two.start() == cut.first.frames
        }),
{
    lemma_first_part(cut, answers);
    let mid = cut.long.played_on(cut.whole, answers);
    let two = cut.short.played_on(cut.first, answers);
    lemma_second_part(cut, mid, two);
    lemma_from_there_on(cut.second_pair(mid), mid, cut.later, more);
    lemma_played_split(cut.long, cut.whole, answers, more);
}

/// The engines stay whole, and so does what the DAW has been handed.
pub proof fn lemma_parts_stand(cut: Cutting, answers: Seq<AudioAnswer>, more: Seq<AudioAnswer>)
    requires
        cut.lengths_fit(),
        cut.first_agrees(),
        cut.second_agrees(),
        answers.len() == cut.rows() * steps_in_a_chunk(cut.short.stage()),
        same_start(cut.short.played_on(cut.first, answers), cut.later),
    ensures
        ({
            let one = cut.long.played_on(cut.whole, answers + more);
            let two = cut.short.played_on(cut.first, answers);
            let three = cut.later.played_on(cut.second, more);
            &&& one.model.wf()
            &&& three.model.wf()
            &&& cut.whole.frames <= one.model.sound.stride
            &&& cut.second.frames <= three.model.sound.stride
            &&& one.heard.len() == cut.channels * cut.whole.frames
            &&& three.heard.len() == cut.channels * cut.second.frames
            &&& one.model.sound.daw_inputs == cut.long.model.sound.daw_inputs
            &&& two.model.sound.daw_inputs == cut.long.model.sound.daw_inputs
        }),
{
    lemma_both_parts(cut, answers, more);
    let mid = cut.long.played_on(cut.whole, answers);
    let one = cut.long.played_on(cut.whole, answers + more);
    let three = cut.later.played_on(cut.second, more);
    let end = cut.second_pair(mid).twins(one, three);
    assert(end.at.fits(one.model.sound.stride));
    assert(end.bt.fits(three.model.sound.stride));
}

/// How a block is cut into blocks makes no difference to a stage with a delay line's
/// two ends in it, as long as the first of them is made of whole sub-blocks.
///
/// The second block goes on from the memory that the first left. Then, given the same
/// answers, the memory that they leave is that of the one long block, the work they ask
/// for is the same, what they leave in the buffers is the same once they are through,
/// and the DAW hears the same.
pub proof fn law_block_size_does_not_matter(
    cut: Cutting,
    answers: Seq<AudioAnswer>,
    more: Seq<AudioAnswer>,
)
    requires
        cut.lengths_fit(),
        cut.first_agrees(),
        cut.second_agrees(),
        answers.len() == cut.rows() * steps_in_a_chunk(cut.short.stage()),
        same_start(cut.short.played_on(cut.first, answers), cut.later),
    ensures
        ({
            let one = cut.long.played_on(cut.whole, answers + more);
            let two = cut.short.played_on(cut.first, answers);
            let three = cut.later.played_on(cut.second, more);
            let n = cut.first.frames as int;
            let m = cut.second.frames as int;
            let f = cut.whole.frames as int;
            &&& two.chunk(cut.first) is None
            &&& one.chunk(cut.whole) is None <==> three.chunk(cut.second) is None
            &&& one.asked(cut.whole) == three.asked(cut.second)
            &&& one.model.params == three.model.params
            &&& same_memory(one.model.sound, three.model.sound)
            &&& same_samples(
                cut.full(),
                one.model.sound,
                stretch(cut.whole, 0, n),
                two.model.sound,
                stretch(cut.first, 0, n),
            )
            &&& three.chunk(cut.second) is None ==> same_samples(
                cut.full(),
                one.model.sound,
                stretch(cut.whole, n, m),
                three.model.sound,
                stretch(cut.second, 0, m),
            )
            &&& same_frames(one.heard, f, 0, two.heard, n, cut.channels, n)
            &&& same_frames(one.heard, f, n, three.heard, m, cut.channels, m)
        }),
{
    let n = cut.first.frames as int;
    let m = cut.second.frames as int;
    let f = cut.whole.frames as int;
    lemma_both_parts(cut, answers, more);
    let mid = cut.long.played_on(cut.whole, answers);
    let two = cut.short.played_on(cut.first, answers);
    let one = cut.long.played_on(cut.whole, answers + more);
    let three = cut.later.played_on(cut.second, more);
    lemma_in_step_asks(cut.second_pair(mid), one, three);
    lemma_played_keeps(cut.long, cut.whole, answers);
    lemma_played_keeps(cut.long, cut.whole, answers + more);
    let tw = cut.first_pair().twins(mid, two);
    let end = cut.second_pair(mid).twins(one, three);
    assert(tw.full == cut.full());
    assert(end.full == cut.full());
    assert(part(tw.at, 0, n) == stretch(cut.whole, 0, n));
    assert(part(tw.bt, 0, n) == stretch(cut.first, 0, n));
    assert(end.past == stretch(cut.whole, 0, n));
    assert(same_samples(cut.full(), one.model.sound, end.past, two.model.sound, tw.bt)) by {
        assert forall|buf: Buf, channel: int|
            #[trigger] cut.full().contains((buf, channel)) && buf < MAX_BUFFERS && 0 <= channel
                < MAX_BUFFER_CHANNELS implies one.model.sound.channel(buf, channel, end.past)
            == two.model.sound.channel(buf, channel, tw.bt) by {
            assert(one.model.sound.channel(buf, channel, end.past)
                == mid.model.sound.channel(buf, channel, end.past));
            assert(mid.model.sound.channel(buf, channel, part(tw.at, 0, n))
                == two.model.sound.channel(buf, channel, part(tw.bt, 0, n)));
        }
    }
    if three.chunk(cut.second) is None {
        assert(three.start() == m);
        assert(part(end.at, 0, m) == stretch(cut.whole, n, m));
        assert(part(end.bt, 0, m) == stretch(cut.second, 0, m));
    }
    assert(same_frames(one.heard, f, 0, two.heard, n, cut.channels, n)) by {
        assert forall|c: int, i: int|
            0 <= c < cut.channels && 0 <= i < n implies #[trigger] frame(two.heard, n, c, i)
            == frame(one.heard, f, c, 0 + i) by {
            assert(frame(two.heard, n, c, i) == frame(mid.heard, f, c, 0 + i));
            assert(frame(one.heard, f, c, i) == frame(mid.heard, f, c, i));
        }
    }
}

} // verus!
