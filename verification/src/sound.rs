//! The audio half of a running program: the buffer pool, the delay lines and
//! the rings that make up for latency.
//!
//! Everything that only moves samples is done here. What does arithmetic on
//! them is done by the caller, who is told which samples.
use vstd::prelude::*;
use crate::audio_cx::{gather_fits, total_width, widths_of};
use crate::emit_audio::lemma_total_width;
use crate::ir::{
    Buf, NodeId, MAX_AUDIO_DELAY_LINES, MAX_AUDIO_TAPS, MAX_BUFFERS, MAX_BUFFER_CHANNELS,
    MAX_CHANNELS, MAX_COMPENSATION, MAX_COMPENSATORS, NO_NODE,
};
use crate::lines::{
    asked, copy_ring, distinct_writers, kept_of, law_reorder_keeps_rings, lemma_asked, lemma_settle_mapped, lines_of,
    recopied, reorder, settle, Settling, NOT_PRESENT,
};
use crate::number::{Real, Sample};
use crate::program::{asked_for, rings_of};

verus! {

/// Where one chunk of a block lies inside a buffer.
///
/// Channels are packed at the block's length, never at the chunk's, so where a
/// sample lives does not depend on how much the call that wrote it covered.
#[derive(Debug, Clone, Copy, PartialEq, Eq, Structural)]
pub struct Window {
    pub block: usize,
    pub start: usize,
    pub frames: usize,
}

impl Window {
    pub open spec fn fits(self, stride: usize) -> bool {
        self.start + self.frames <= self.block <= stride
    }
}

/// An audio delay line: its samples, how many there are a channel, and where the
/// next one goes.
#[derive(Debug)]
pub struct AudioLine {
    pub ring: Vec<Sample>,
    pub len: usize,
    pub head: usize,
}

#[verifier::ext_equal]
pub struct RingModel {
    pub ring: Seq<Sample>,
    pub len: usize,
    pub head: usize,
}

impl View for AudioLine {
    type V = RingModel;

    open spec fn view(&self) -> RingModel {
        RingModel { ring: self.ring@, len: self.len, head: self.head }
    }
}

#[derive(Debug)]
pub struct SoundState {
    /// One region a buffer, each as large as the longest block needs.
    pub pool: Vec<Sample>,
    /// The longest block, in frames. Nothing until the engine is prepared.
    pub stride: usize,
    /// Channels of each of the wrapper's own input buses, the main one first.
    pub daw_inputs: Vec<u16>,
    pub lines: Vec<AudioLine>,
    /// Which node writes each line.
    pub line_nodes: Vec<NodeId>,
    /// Where each line's ring lies while they are put in order.
    pub line_order: Vec<usize>,
    /// How far back each read was at the end of the last chunk, in samples, or
    /// NaN if there was none.
    pub tap_distance: Vec<Real>,
    pub compensators: Vec<Sample>,
    pub compensator_heads: Vec<usize>,
}

#[verifier::ext_equal]
pub struct SoundModel {
    pub pool: Seq<Sample>,
    pub stride: usize,
    pub daw_inputs: Seq<u16>,
    pub lines: Seq<RingModel>,
    pub line_nodes: Seq<NodeId>,
    pub line_order: Seq<usize>,
    pub tap_distance: Seq<Real>,
    pub compensators: Seq<Sample>,
    pub compensator_heads: Seq<usize>,
}

pub open spec fn rings_view(lines: Seq<AudioLine>) -> Seq<RingModel> {
    Seq::new(lines.len(), |i: int| lines[i]@)
}

impl View for SoundState {
    type V = SoundModel;

    open spec fn view(&self) -> SoundModel {
        SoundModel {
            pool: self.pool@,
            stride: self.stride,
            daw_inputs: self.daw_inputs@,
            lines: rings_view(self.lines@),
            line_nodes: self.line_nodes@,
            line_order: self.line_order@,
            tap_distance: self.tap_distance@,
            compensators: self.compensators@,
            compensator_heads: self.compensator_heads@,
        }
    }
}

/// How many samples the rings that make up for latency hold together.
pub open spec fn compensation_size() -> int {
    MAX_COMPENSATORS * MAX_CHANNELS * MAX_COMPENSATION
}

impl RingModel {
    pub open spec fn empty() -> RingModel {
        RingModel { ring: Seq::empty(), len: 0, head: 0 }
    }

    pub open spec fn wf(self) -> bool {
        &&& MAX_CHANNELS * self.len <= usize::MAX
        &&& self.len > 0 ==> self.head < self.len
    }

    /// Whether there is anything to read or write.
    pub open spec fn usable(self) -> bool {
        self.len > 0 && MAX_CHANNELS * self.len <= self.ring.len()
    }

    /// The sample written `back` frames before the head.
    pub open spec fn back(self, channel: int, back: int) -> Sample {
        self.ring[channel * self.len + (self.head - back) % self.len as int]
    }
}

impl SoundModel {
    pub open spec fn wf(self) -> bool {
        &&& self.pool.len() == MAX_BUFFERS * MAX_BUFFER_CHANNELS * self.stride
        &&& self.lines.len() == MAX_AUDIO_DELAY_LINES
        &&& self.line_nodes.len() == MAX_AUDIO_DELAY_LINES
        &&& self.line_order.len() == MAX_AUDIO_DELAY_LINES
        &&& self.tap_distance.len() == MAX_AUDIO_TAPS
        &&& self.compensator_heads.len() == MAX_COMPENSATORS
        &&& self.stride > 0 ==> self.compensators.len() == compensation_size()
        &&& forall|i: int|
            0 <= i < self.compensator_heads.len() ==> #[trigger] self.compensator_heads[i]
                < MAX_COMPENSATION
        &&& forall|i: int| 0 <= i < self.lines.len() ==> (#[trigger] self.lines[i]).wf()
    }

    pub open spec fn fresh() -> SoundModel {
        SoundModel {
            pool: Seq::empty(),
            stride: 0,
            daw_inputs: Seq::empty(),
            lines: Seq::new(MAX_AUDIO_DELAY_LINES as nat, |i: int| RingModel::empty()),
            line_nodes: Seq::new(MAX_AUDIO_DELAY_LINES as nat, |i: int| NO_NODE),
            line_order: Seq::new(MAX_AUDIO_DELAY_LINES as nat, |i: int| 0usize),
            tap_distance: Seq::new(MAX_AUDIO_TAPS as nat, |i: int| Real::unset()),
            compensators: Seq::empty(),
            compensator_heads: Seq::new(MAX_COMPENSATORS as nat, |i: int| 0usize),
        }
    }

    /// Where a chunk of one channel of one buffer starts in the pool.
    pub open spec fn place(self, buf: Buf, channel: int, win: Window) -> int {
        buf * (MAX_BUFFER_CHANNELS * self.stride) + channel * win.block + win.start
    }

    /// A chunk of one channel of one buffer.
    pub open spec fn channel(self, buf: Buf, channel: int, win: Window) -> Seq<Sample> {
        let at = self.place(buf, channel, win);
        self.pool.subrange(at, at + win.frames)
    }

    /// The same with other samples in it.
    pub open spec fn with_channel(
        self,
        buf: Buf,
        channel: int,
        win: Window,
        samples: Seq<Sample>,
    ) -> SoundModel {
        SoundModel { pool: laid(self.pool, self.place(buf, channel, win), samples), ..self }
    }
}

/// A list with some samples laid over it.
pub open spec fn laid(pool: Seq<Sample>, at: int, samples: Seq<Sample>) -> Seq<Sample> {
    Seq::new(
        pool.len(),
        |j: int|
            if at <= j < at + samples.len() {
                samples[j - at]
            } else {
                pool[j]
            },
    )
}

/// Setting a sample of what was laid is laying it with that sample set.
proof fn lemma_laid_set(pool: Seq<Sample>, at: int, samples: Seq<Sample>, i: int, value: Sample)
    requires
        0 <= at,
        0 <= i < samples.len(),
        at + samples.len() <= pool.len(),
    ensures
        laid(pool, at, samples).update(at + i, value) == laid(pool, at, samples.update(i, value)),
{
    assert(laid(pool, at, samples).update(at + i, value) =~= laid(
        pool,
        at,
        samples.update(i, value),
    ));
}

pub open spec fn silence(frames: nat) -> Seq<Sample> {
    Seq::new(frames, |i: int| Sample::silent())
}

/// A chunk of a channel lies inside the pool.
pub proof fn lemma_place(state: SoundModel, buf: Buf, channel: int, win: Window)
    requires
        state.wf(),
        buf < MAX_BUFFERS,
        0 <= channel < MAX_BUFFER_CHANNELS,
        win.fits(state.stride),
    ensures
        0 <= state.place(buf, channel, win),
        state.place(buf, channel, win) + win.frames <= state.pool.len(),
        buf * (MAX_BUFFER_CHANNELS * state.stride) + MAX_BUFFER_CHANNELS * state.stride
            <= state.pool.len(),
        0 <= buf * (MAX_BUFFER_CHANNELS * state.stride),
        0 <= channel * win.block,
        channel * win.block + win.block <= MAX_BUFFER_CHANNELS * state.stride,
{
    let region = MAX_BUFFER_CHANNELS * state.stride;
    let block = win.block as int;
    let stride = state.stride as int;
    assert(0 <= channel * block) by (nonlinear_arith)
        requires
            0 <= channel,
            0 <= block,
    ;
    assert(channel * block + block <= MAX_BUFFER_CHANNELS * stride) by (nonlinear_arith)
        requires
            0 <= channel < MAX_BUFFER_CHANNELS,
            0 <= block <= stride,
    ;
    assert(0 <= buf * region && buf * region + region <= MAX_BUFFERS * region)
        by (nonlinear_arith)
        requires
            0 <= buf < MAX_BUFFERS,
            0 <= region,
    ;
    assert(MAX_BUFFERS * region == MAX_BUFFERS * MAX_BUFFER_CHANNELS * state.stride)
        by (nonlinear_arith)
        requires
            region == MAX_BUFFER_CHANNELS * state.stride,
    ;
}

/// What is written to one channel of a buffer is what is read from it, and no
/// other channel of any buffer changes.
pub proof fn law_channels_lie_apart(
    state: SoundModel,
    buf: Buf,
    channel: int,
    win: Window,
    samples: Seq<Sample>,
    other: Buf,
    other_channel: int,
)
    requires
        state.wf(),
        buf < MAX_BUFFERS,
        other < MAX_BUFFERS,
        0 <= channel < MAX_BUFFER_CHANNELS,
        0 <= other_channel < MAX_BUFFER_CHANNELS,
        win.fits(state.stride),
        samples.len() == win.frames,
    ensures
        state.with_channel(buf, channel, win, samples).channel(buf, channel, win) == samples,
        buf != other || channel != other_channel ==> state.with_channel(
            buf,
            channel,
            win,
            samples,
        ).channel(other, other_channel, win) == state.channel(other, other_channel, win),
{
    lemma_place(state, buf, channel, win);
    lemma_place(state, other, other_channel, win);
    let after = state.with_channel(buf, channel, win, samples);
    assert(after.channel(buf, channel, win) =~= samples);
    if buf != other || channel != other_channel {
        let a = state.place(buf, channel, win);
        let b = state.place(other, other_channel, win);
        let region = MAX_BUFFER_CHANNELS * state.stride;
        let block = win.block as int;
        if buf < other {
            assert(buf * region + region <= other * region) by (nonlinear_arith)
                requires
                    buf < other,
                    0 <= region,
            ;
        } else if other < buf {
            assert(other * region + region <= buf * region) by (nonlinear_arith)
                requires
                    other < buf,
                    0 <= region,
            ;
        } else if channel < other_channel {
            assert(channel * block + block <= other_channel * block) by (nonlinear_arith)
                requires
                    channel < other_channel,
                    0 <= block,
            ;
        } else {
            assert(other_channel * block + block <= channel * block) by (nonlinear_arith)
                requires
                    other_channel < channel,
                    0 <= block,
            ;
        }
        assert(a + win.frames <= b || b + win.frames <= a);
        assert(after.channel(other, other_channel, win) =~= state.channel(
            other,
            other_channel,
            win,
        ));
    }
}

impl SoundModel {
    /// Silence in the channels of a buffer that are heard.
    pub open spec fn silenced(self, buf: Buf, win: Window) -> SoundModel {
        self.with_channel(buf, 0, win, silence(win.frames as nat)).with_channel(
            buf,
            1,
            win,
            silence(win.frames as nat),
        )
    }

    pub open spec fn copied(
        self,
        from: Buf,
        from_channel: int,
        to: Buf,
        to_channel: int,
        win: Window,
    ) -> SoundModel {
        self.with_channel(to, to_channel, win, self.channel(from, from_channel, win))
    }
}

/// How many channels of a buffer are heard.
pub open spec fn heard_width(width: u16) -> int {
    if width < MAX_CHANNELS {
        width as int
    } else {
        MAX_CHANNELS as int
    }
}

impl SoundState {
    /// Where a chunk of one channel of one buffer starts in the pool.
    pub fn at(&self, buf: Buf, channel: usize, win: &Window) -> (r: usize)
        requires
            self@.wf(),
            buf < MAX_BUFFERS,
            channel < MAX_BUFFER_CHANNELS,
            win.fits(self.stride),
        ensures
            r == self@.place(buf, channel as int, *win),
            r + win.frames <= self.pool@.len() <= usize::MAX,
    {
        let size: usize = self.pool.len();
        proof {
            lemma_place(self@, buf, channel as int, *win);
            assert(self@.pool.len() == size);
        }
        let region: usize = MAX_BUFFER_CHANNELS * self.stride;
        buf as usize * region + channel * win.block + win.start
    }

    /// A chunk of one channel of one buffer.
    pub fn channel(&self, buf: Buf, channel: usize, win: &Window) -> (r: &[Sample])
        requires
            self@.wf(),
            buf < MAX_BUFFERS,
            channel < MAX_BUFFER_CHANNELS,
            win.fits(self.stride),
        ensures
            r@ == self@.channel(buf, channel as int, *win),
            r@.len() == win.frames,
    {
        let at: usize = self.at(buf, channel, win);
        vstd::slice::slice_subrange(self.pool.as_slice(), at, at + win.frames)
    }

    /// Puts other samples in a chunk of one channel of one buffer.
    pub fn set_channel(&mut self, buf: Buf, channel: usize, win: &Window, samples: &[Sample])
        requires
            old(self)@.wf(),
            buf < MAX_BUFFERS,
            channel < MAX_BUFFER_CHANNELS,
            win.fits(old(self).stride),
            samples@.len() == win.frames,
        ensures
            final(self)@ == old(self)@.with_channel(buf, channel as int, *win, samples@),
            final(self)@.wf(),
    {
        let ghost before = self@;
        let at: usize = self.at(buf, channel, win);
        let mut i: usize = 0;
        while i < win.frames
            invariant
                i <= win.frames,
                samples@.len() == win.frames,
                before.wf(),
                at + win.frames <= self.pool@.len() <= usize::MAX,
                self@ == (SoundModel { pool: self.pool@, ..before }),
                self.pool@ == laid(before.pool, at as int, samples@.take(i as int)),
            decreases win.frames - i,
        {
            self.pool[at + i] = samples[i];
            assert(self.pool@ =~= laid(before.pool, at as int, samples@.take(i + 1)));
            i += 1;
        }
        assert(samples@.take(i as int) =~= samples@);
        assert(self@.lines == before.lines);
    }

    fn fill_channel(&mut self, buf: Buf, channel: usize, win: &Window)
        requires
            old(self)@.wf(),
            buf < MAX_BUFFERS,
            channel < MAX_BUFFER_CHANNELS,
            win.fits(old(self).stride),
        ensures
            final(self)@ == old(self)@.with_channel(
                buf,
                channel as int,
                *win,
                silence(win.frames as nat),
            ),
            final(self)@.wf(),
    {
        let ghost before = self@;
        let at: usize = self.at(buf, channel, win);
        let mut i: usize = 0;
        while i < win.frames
            invariant
                i <= win.frames,
                before.wf(),
                at + win.frames <= self.pool@.len() <= usize::MAX,
                self@ == (SoundModel { pool: self.pool@, ..before }),
                self.pool@ == laid(before.pool, at as int, silence(i as nat)),
            decreases win.frames - i,
        {
            self.pool[at + i] = Sample::silence();
            assert(self.pool@ =~= laid(before.pool, at as int, silence((i + 1) as nat)));
            i += 1;
        }
        assert(self@.lines == before.lines);
    }

    /// Silences a buffer.
    pub fn fill(&mut self, buf: Buf, win: &Window)
        requires
            old(self)@.wf(),
            buf < MAX_BUFFERS,
            win.fits(old(self).stride),
        ensures
            final(self)@ == old(self)@.silenced(buf, *win),
            final(self)@.wf(),
    {
        self.fill_channel(buf, 0, win);
        self.fill_channel(buf, 1, win);
    }

    /// Copies a chunk of one channel to another, which is not the same one.
    fn copy_channel(
        &mut self,
        from: Buf,
        from_channel: usize,
        to: Buf,
        to_channel: usize,
        win: &Window,
    )
        requires
            old(self)@.wf(),
            from < MAX_BUFFERS,
            from_channel < MAX_BUFFER_CHANNELS,
            to < MAX_BUFFERS,
            to_channel < MAX_BUFFER_CHANNELS,
            from != to,
            win.fits(old(self).stride),
        ensures
            final(self)@ == old(self)@.copied(
                from,
                from_channel as int,
                to,
                to_channel as int,
                *win,
            ),
            final(self)@.wf(),
    {
        let ghost before = self@;
        let source: usize = self.at(from, from_channel, win);
        let at: usize = self.at(to, to_channel, win);
        let ghost samples = before.channel(from, from_channel as int, *win);
        proof {
            law_channels_lie_apart(
                before,
                to,
                to_channel as int,
                *win,
                samples,
                from,
                from_channel as int,
            );
            lemma_apart(before, from, from_channel as int, to, to_channel as int, *win);
        }
        let mut i: usize = 0;
        while i < win.frames
            invariant
                i <= win.frames,
                before.wf(),
                samples == before.pool.subrange(source as int, source + win.frames),
                source + win.frames <= at || at + win.frames <= source,
                source + win.frames <= before.pool.len() <= usize::MAX,
                at + win.frames <= self.pool@.len() <= usize::MAX,
                self.pool@.len() == before.pool.len(),
                self@ == (SoundModel { pool: self.pool@, ..before }),
                self.pool@ == laid(before.pool, at as int, samples.take(i as int)),
            decreases win.frames - i,
        {
            let sample: Sample = self.pool[source + i];
            assert(sample == samples[i as int]);
            self.pool[at + i] = sample;
            assert(self.pool@ =~= laid(before.pool, at as int, samples.take(i + 1)));
            i += 1;
        }
        assert(samples.take(i as int) =~= samples);
        assert(self@.lines == before.lines);
    }
}

proof fn lemma_apart(
    state: SoundModel,
    from: Buf,
    from_channel: int,
    to: Buf,
    to_channel: int,
    win: Window,
)
    requires
        state.wf(),
        from < MAX_BUFFERS,
        to < MAX_BUFFERS,
        from != to,
        0 <= from_channel < MAX_BUFFER_CHANNELS,
        0 <= to_channel < MAX_BUFFER_CHANNELS,
        win.fits(state.stride),
    ensures
        ({
            let a = state.place(from, from_channel, win);
            let b = state.place(to, to_channel, win);
            a + win.frames <= b || b + win.frames <= a
        }),
{
    lemma_place(state, from, from_channel, win);
    lemma_place(state, to, to_channel, win);
    let region = MAX_BUFFER_CHANNELS * state.stride;
    if from < to {
        assert(from * region + region <= to * region) by (nonlinear_arith)
            requires
                from < to,
                0 <= region,
        ;
    } else {
        assert(to * region + region <= from * region) by (nonlinear_arith)
            requires
                to < from,
                0 <= region,
        ;
    }
}

/// Where a bus starts among planar buses packed at the block's length.
pub open spec fn bus_base(widths: Seq<u16>, bus: nat, block: int) -> int
    decreases bus,
{
    if bus == 0 {
        0
    } else {
        bus_base(widths, (bus - 1) as nat, block) + widths[bus - 1] * block
    }
}

/// A run of samples of the DAW's, silent where it has none.
pub open spec fn run_of(samples: Seq<Sample>, from: int, frames: nat) -> Seq<Sample> {
    Seq::new(
        frames,
        |i: int|
            if from + i < samples.len() {
                samples[from + i]
            } else {
                Sample::silent()
            },
    )
}

/// A bus of several channels that one channel is made of.
#[derive(Debug, Clone, Copy, PartialEq, Eq, Structural)]
pub struct Fold {
    pub out: Buf,
    pub channel: u16,
    pub from: Buf,
    pub width: u16,
}

impl SoundModel {
    /// The first `count` channels of one of the DAW's input buses.
    pub open spec fn taken_in(
        self,
        out: Buf,
        bus: u16,
        samples: Seq<Sample>,
        win: Window,
        count: nat,
    ) -> SoundModel
        decreases count,
    {
        if count == 0 {
            self
        } else {
            let before = self.taken_in(out, bus, samples, win, (count - 1) as nat);
            let channel = count - 1;
            let base = bus_base(self.daw_inputs, bus as nat, win.block as int);
            before.with_channel(
                out,
                channel,
                win,
                if channel < self.daw_inputs[bus as int] {
                    run_of(samples, base + channel * win.block + win.start, win.frames as nat)
                } else {
                    silence(win.frames as nat)
                },
            )
        }
    }

    /// A buffer filled from the DAW. A bus the DAW does not have is silent.
    pub open spec fn input(
        self,
        out: Buf,
        bus: u16,
        width: u16,
        samples: Seq<Sample>,
        win: Window,
    ) -> SoundModel {
        if bus < self.daw_inputs.len() {
            self.taken_in(out, bus, samples, win, heard_width(width) as nat)
        } else {
            self.silenced(out, win)
        }
    }

    /// What the DAW is handed of the first `count` channels of a buffer.
    pub open spec fn handed_out(
        self,
        samples: Seq<Sample>,
        a: Buf,
        win: Window,
        count: nat,
    ) -> Seq<Sample>
        decreases count,
    {
        if count == 0 {
            samples
        } else {
            let before = self.handed_out(samples, a, win, (count - 1) as nat);
            let at = (count - 1) * win.block + win.start;
            if at + win.frames <= before.len() {
                laid(before, at, self.channel(a, count - 1, win))
            } else {
                before
            }
        }
    }

    /// The first `count` channels of a bus brought to the width asked for: a mono
    /// source is spread, a narrower one padded with silence, and a fold is
    /// left to the caller.
    pub open spec fn bus_laid(
        self,
        out: Buf,
        base: int,
        from: Buf,
        have: u16,
        want: u16,
        win: Window,
        count: nat,
    ) -> SoundModel
        decreases count,
    {
        if count == 0 {
            self
        } else {
            let before = self.bus_laid(out, base, from, have, want, win, (count - 1) as nat);
            let channel = count - 1;
            if have == 1 && want > 1 {
                before.copied(from, 0, out, base + channel, win)
            } else if want == 1 && have > 1 {
                before
            } else if channel < have {
                before.copied(from, channel, out, base + channel, win)
            } else {
                before.with_channel(out, base + channel, win, silence(win.frames as nat))
            }
        }
    }

    /// The first `count` buses laid side by side.
    pub open spec fn gathered(
        self,
        out: Buf,
        buses: Seq<(Buf, u16)>,
        widths: Seq<u16>,
        win: Window,
        count: nat,
    ) -> SoundModel
        decreases count,
    {
        if count == 0 {
            self
        } else {
            let (from, want) = buses[count - 1];
            self.gathered(out, buses, widths, win, (count - 1) as nat).bus_laid(
                out,
                total_width(widths_of(buses).take(count - 1)) as int,
                from,
                widths[from as int],
                want,
                win,
                want as nat,
            )
        }
    }

    /// The first `count` channels of a bus of a plugin's output.
    pub open spec fn split(
        self,
        from: Buf,
        first: int,
        out: Buf,
        win: Window,
        count: nat,
    ) -> SoundModel
        decreases count,
    {
        if count == 0 {
            self
        } else {
            self.split(from, first, out, win, (count - 1) as nat).copied(
                from,
                first + count - 1,
                out,
                count - 1,
                win,
            )
        }
    }

    /// The first `count` channels of a buffer, packed at the chunk's length.
    pub open spec fn packed(self, buf: Buf, win: Window, count: nat) -> Seq<Sample>
        decreases count,
    {
        if count == 0 {
            Seq::empty()
        } else {
            self.packed(buf, win, (count - 1) as nat) + self.channel(buf, count - 1, win)
        }
    }

    /// The first `count` channels of a buffer, from samples packed at the
    /// chunk's length.
    pub open spec fn unpacked(
        self,
        buf: Buf,
        samples: Seq<Sample>,
        win: Window,
        count: nat,
    ) -> SoundModel
        decreases count,
    {
        if count == 0 {
            self
        } else {
            self.unpacked(buf, samples, win, (count - 1) as nat).with_channel(
                buf,
                count - 1,
                win,
                samples.subrange((count - 1) * win.frames, count * win.frames),
            )
        }
    }
}

/// The folds that laying the first `count` buses side by side leaves to the
/// caller.
pub open spec fn folds_of(
    out: Buf,
    buses: Seq<(Buf, u16)>,
    widths: Seq<u16>,
    count: nat,
) -> Seq<Fold>
    decreases count,
{
    if count == 0 {
        Seq::empty()
    } else {
        let before = folds_of(out, buses, widths, (count - 1) as nat);
        let (from, want) = buses[count - 1];
        if want == 1 && widths[from as int] > 1 {
            before.push(
                Fold {
                    out,
                    channel: total_width(widths_of(buses).take(count - 1)) as u16,
                    from,
                    width: widths[from as int],
                },
            )
        } else {
            before
        }
    }
}

/// A product, or the largest number where it is larger.
fn times(a: usize, b: usize) -> (r: usize)
    ensures
        0 <= a * b,
        r == a * b || r == usize::MAX && a * b >= usize::MAX,
{
    assert(0 <= a * b) by (nonlinear_arith);
    match a.checked_mul(b) {
        Some(product) => product,
        None => usize::MAX,
    }
}

impl SoundState {
    fn bus_start(&self, bus: u16, block: usize) -> (r: usize)
        requires
            bus <= self.daw_inputs@.len(),
        ensures
            r == bus_base(self.daw_inputs@, bus as nat, block as int) || r == usize::MAX
                && bus_base(self.daw_inputs@, bus as nat, block as int) >= usize::MAX,
    {
        let mut base: usize = 0;
        let mut at: usize = 0;
        while at < bus as usize
            invariant
                at <= bus <= self.daw_inputs@.len(),
                base == bus_base(self.daw_inputs@, at as nat, block as int) || base == usize::MAX
                    && bus_base(self.daw_inputs@, at as nat, block as int) >= usize::MAX,
            decreases bus - at,
        {
            let width: usize = self.daw_inputs[at] as usize;
            base = base.saturating_add(times(width, block));
            at += 1;
        }
        base
    }

    fn read_daw(
        &mut self,
        out: Buf,
        channel: usize,
        samples: &[Sample],
        from: usize,
        win: &Window,
        Ghost(exact): Ghost<int>,
    )
        requires
            old(self)@.wf(),
            out < MAX_BUFFERS,
            channel < MAX_CHANNELS,
            win.fits(old(self).stride),
            from == exact || from == usize::MAX && exact >= usize::MAX,
        ensures
            final(self)@ == old(self)@.with_channel(
                out,
                channel as int,
                *win,
                run_of(samples@, exact, win.frames as nat),
            ),
            final(self)@.wf(),
    {
        let ghost before = self@;
        let to: usize = self.at(out, channel, win);
        let size: usize = samples.len();
        let mut i: usize = 0;
        while i < win.frames
            invariant
                i <= win.frames,
                before.wf(),
                size == samples@.len(),
                from == exact || from == usize::MAX && exact >= usize::MAX,
                to + win.frames <= self.pool@.len() <= usize::MAX,
                self@ == (SoundModel { pool: self.pool@, ..before }),
                self.pool@ == laid(before.pool, to as int, run_of(samples@, exact, i as nat)),
            decreases win.frames - i,
        {
            let at: usize = from.saturating_add(i);
            self.pool[to + i] = if at < size {
                samples[at]
            } else {
                Sample::silence()
            };
            assert(self.pool@ =~= laid(
                before.pool,
                to as int,
                run_of(samples@, exact, (i + 1) as nat),
            ));
            i += 1;
        }
        assert(self@.lines == before.lines);
    }

    /// Fills a buffer from one of the DAW's input buses.
    pub fn take_input(&mut self, out: Buf, bus: u16, width: u16, samples: &[Sample], win: &Window)
        requires
            old(self)@.wf(),
            out < MAX_BUFFERS,
            win.fits(old(self).stride),
        ensures
            final(self)@ == old(self)@.input(out, bus, width, samples@, *win),
            final(self)@.wf(),
            final(self).stride == old(self).stride,
    {
        if bus as usize >= self.daw_inputs.len() {
            self.fill(out, win);
            return;
        }
        let ghost before = self@;
        let have: usize = self.daw_inputs[bus as usize] as usize;
        let base: usize = self.bus_start(bus, win.block);
        let ghost start = bus_base(before.daw_inputs, bus as nat, win.block as int);
        let count: usize = if (width as usize) < MAX_CHANNELS {
            width as usize
        } else {
            MAX_CHANNELS
        };
        let mut channel: usize = 0;
        while channel < count
            invariant
                channel <= count <= MAX_CHANNELS,
                self@.wf(),
                out < MAX_BUFFERS,
                before == old(self)@,
                self.stride == before.stride,
                win.fits(self.stride),
                bus < before.daw_inputs.len(),
                have == before.daw_inputs[bus as int],
                start == bus_base(before.daw_inputs, bus as nat, win.block as int),
                base == start || base == usize::MAX && start >= usize::MAX,
                self@ == before.taken_in(out, bus, samples@, *win, channel as nat),
            decreases count - channel,
        {
            if channel < have {
                let from: usize = base.saturating_add(times(channel, win.block)).saturating_add(
                    win.start,
                );
                self.read_daw(
                    out,
                    channel,
                    samples,
                    from,
                    win,
                    Ghost(start + channel * win.block + win.start),
                );
            } else {
                self.fill_channel(out, channel, win);
            }
            channel += 1;
        }
    }

    /// Hands a buffer to the DAW. Only its main output is ours to fill.
    pub fn give_output(&self, a: Buf, width: u16, samples: &mut [Sample], win: &Window)
        requires
            self@.wf(),
            a < MAX_BUFFERS,
            win.fits(self.stride),
        ensures
            final(samples)@ == self@.handed_out(
                old(samples)@,
                a,
                *win,
                heard_width(width) as nat,
            ),
            final(samples)@.len() == old(samples)@.len(),
    {
        let ghost before = samples@;
        let count: usize = if (width as usize) < MAX_CHANNELS {
            width as usize
        } else {
            MAX_CHANNELS
        };
        let size: usize = samples.len();
        let mut channel: usize = 0;
        while channel < count
            invariant
                channel <= count <= MAX_CHANNELS,
                self@.wf(),
                a < MAX_BUFFERS,
                win.fits(self.stride),
                before == old(samples)@,
                size == samples@.len() == before.len(),
                samples@ == self@.handed_out(before, a, *win, channel as nat),
            decreases count - channel,
        {
            let ghost had = samples@;
            let from: usize = self.at(a, channel, win);
            proof {
                lemma_place(self@, a, channel as int, *win);
            }
            let at: usize = channel * win.block + win.start;
            if at <= size && win.frames <= size - at {
                let ghost chunk = self@.channel(a, channel as int, *win);
                let mut i: usize = 0;
                while i < win.frames
                    invariant
                        i <= win.frames,
                        size == samples@.len(),
                        at + win.frames <= size,
                        from + win.frames <= self.pool@.len() <= usize::MAX,
                        chunk == self.pool@.subrange(from as int, from + win.frames),
                        had.len() == size,
                        samples@ == laid(had, at as int, chunk.take(i as int)),
                    decreases win.frames - i,
                {
                    samples[at + i] = self.pool[from + i];
                    assert(samples@ =~= laid(had, at as int, chunk.take(i + 1)));
                    i += 1;
                }
                assert(chunk.take(i as int) =~= chunk);
            }
            channel += 1;
        }
    }

    /// Lays one bus into a plugin's input.
    fn lay_bus(&mut self, out: Buf, base: usize, from: Buf, have: u16, want: u16, win: &Window)
        requires
            old(self)@.wf(),
            out < MAX_BUFFERS,
            from < MAX_BUFFERS,
            out != from,
            have <= MAX_BUFFER_CHANNELS,
            base + want <= MAX_BUFFER_CHANNELS,
            win.fits(old(self).stride),
        ensures
            final(self)@ == old(self)@.bus_laid(
                out,
                base as int,
                from,
                have,
                want,
                *win,
                want as nat,
            ),
            final(self)@.wf(),
            final(self).stride == old(self).stride,
    {
        let ghost before = self@;
        let mut channel: u16 = 0;
        while channel < want
            invariant
                channel <= want,
                self@.wf(),
                out < MAX_BUFFERS,
                from < MAX_BUFFERS,
                out != from,
                have <= MAX_BUFFER_CHANNELS,
                base + want <= MAX_BUFFER_CHANNELS,
                before == old(self)@,
                self.stride == before.stride,
                win.fits(self.stride),
                self@ == before.bus_laid(
                    out,
                    base as int,
                    from,
                    have,
                    want,
                    *win,
                    channel as nat,
                ),
            decreases want - channel,
        {
            let to: usize = base + channel as usize;
            if have == 1 && want > 1 {
                self.copy_channel(from, 0, out, to, win);
            } else if want == 1 && have > 1 {
            } else if channel < have {
                self.copy_channel(from, channel as usize, out, to, win);
            } else {
                self.fill_channel(out, to, win);
            }
            channel += 1;
        }
    }

    /// Lays buses side by side, and says which channels are folds.
    pub fn gather(
        &mut self,
        out: Buf,
        buses: &Vec<(Buf, u16)>,
        widths: &Vec<u16>,
        win: &Window,
    ) -> (r: Vec<Fold>)
        requires
            old(self)@.wf(),
            widths@.len() <= MAX_BUFFERS,
            forall|i: int|
                0 <= i < widths@.len() ==> #[trigger] widths@[i] <= MAX_BUFFER_CHANNELS,
            gather_fits(out, buses@, widths@.len()),
            win.fits(old(self).stride),
        ensures
            final(self)@ == old(self)@.gathered(out, buses@, widths@, *win, buses@.len()),
            r@ == folds_of(out, buses@, widths@, buses@.len()),
            final(self)@.wf(),
            final(self).stride == old(self).stride,
    {
        let ghost before = self@;
        let mut list: Vec<Fold> = Vec::new();
        let mut base: usize = 0;
        let mut at: usize = 0;
        let ghost asked = widths_of(buses@);
        proof {
            assert(asked.take(0) =~= Seq::<u16>::empty());
            assert(asked.take(asked.len() as int) =~= asked);
        }
        while at < buses.len()
            invariant
                at <= buses@.len(),
                self@.wf(),
                before == old(self)@,
                self.stride == before.stride,
                win.fits(self.stride),
                widths@.len() <= MAX_BUFFERS,
                forall|i: int|
                    0 <= i < widths@.len() ==> #[trigger] widths@[i] <= MAX_BUFFER_CHANNELS,
                gather_fits(out, buses@, widths@.len()),
                asked == widths_of(buses@),
                asked.take(asked.len() as int) == asked,
                base == total_width(asked.take(at as int)),
                self@ == before.gathered(out, buses@, widths@, *win, at as nat),
                list@ == folds_of(out, buses@, widths@, at as nat),
            decreases buses@.len() - at,
        {
            let (from, want) = buses[at];
            assert(buses@[at as int].0 < widths@.len() && buses@[at as int].0 != out);
            proof {
                lemma_total_width(asked, at as int, asked.len() as int);
                assert(asked.take(at + 1).drop_last() =~= asked.take(at as int));
            }
            let have: u16 = widths[from as usize];
            self.lay_bus(out, base, from, have, want, win);
            if want == 1 && have > 1 {
                list.push(Fold { out, channel: base as u16, from, width: have });
            }
            base += want as usize;
            at += 1;
        }
        list
    }

    /// Copies a bus out of a plugin's output.
    pub fn split(&mut self, from: Buf, out: Buf, first: u16, width: u16, win: &Window)
        requires
            old(self)@.wf(),
            from < MAX_BUFFERS,
            out < MAX_BUFFERS,
            from != out,
            first + width <= MAX_BUFFER_CHANNELS,
            win.fits(old(self).stride),
        ensures
            final(self)@ == old(self)@.split(from, first as int, out, *win, width as nat),
            final(self)@.wf(),
            final(self).stride == old(self).stride,
    {
        let ghost before = self@;
        let mut channel: u16 = 0;
        while channel < width
            invariant
                channel <= width,
                self@.wf(),
                from < MAX_BUFFERS,
                out < MAX_BUFFERS,
                from != out,
                first + width <= MAX_BUFFER_CHANNELS,
                before == old(self)@,
                self.stride == before.stride,
                win.fits(self.stride),
                self@ == before.split(from, first as int, out, *win, channel as nat),
            decreases width - channel,
        {
            self.copy_channel(
                from,
                first as usize + channel as usize,
                out,
                channel as usize,
                win,
            );
            channel += 1;
        }
    }

    /// Packs a plugin's input at the length of the call.
    pub fn pack(&self, buf: Buf, width: u16, win: &Window, packed: &mut Vec<Sample>)
        requires
            self@.wf(),
            buf < MAX_BUFFERS,
            width <= MAX_BUFFER_CHANNELS,
            win.fits(self.stride),
        ensures
            final(packed)@ == self@.packed(buf, *win, width as nat),
            final(packed)@.len() == width * win.frames,
    {
        packed.clear();
        let mut channel: u16 = 0;
        assert(0 * win.frames == 0) by (nonlinear_arith);
        while channel < width
            invariant
                channel <= width <= MAX_BUFFER_CHANNELS,
                self@.wf(),
                buf < MAX_BUFFERS,
                win.fits(self.stride),
                packed@ == self@.packed(buf, *win, channel as nat),
                packed@.len() == channel * win.frames,
            decreases width - channel,
        {
            let ghost had = packed@;
            let from: usize = self.at(buf, channel as usize, win);
            let ghost chunk = self@.channel(buf, channel as int, *win);
            let mut i: usize = 0;
            while i < win.frames
                invariant
                    i <= win.frames,
                    from + win.frames <= self.pool@.len() <= usize::MAX,
                    chunk == self.pool@.subrange(from as int, from + win.frames),
                    packed@ == had + chunk.take(i as int),
                decreases win.frames - i,
            {
                packed.push(self.pool[from + i]);
                assert(packed@ =~= had + chunk.take(i + 1));
                i += 1;
            }
            assert(chunk.take(i as int) =~= chunk);
            assert((channel + 1) * win.frames == channel * win.frames + win.frames)
                by (nonlinear_arith);
            channel += 1;
        }
    }

    /// Takes a plugin's output apart again.
    pub fn unpack(&mut self, buf: Buf, width: u16, win: &Window, packed: &[Sample])
        requires
            old(self)@.wf(),
            buf < MAX_BUFFERS,
            width <= MAX_BUFFER_CHANNELS,
            win.fits(old(self).stride),
            packed@.len() == width * win.frames,
        ensures
            final(self)@ == old(self)@.unpacked(buf, packed@, *win, width as nat),
            final(self)@.wf(),
            final(self).stride == old(self).stride,
    {
        let ghost before = self@;
        let size: usize = packed.len();
        let mut channel: u16 = 0;
        while channel < width
            invariant
                channel <= width <= MAX_BUFFER_CHANNELS,
                self@.wf(),
                buf < MAX_BUFFERS,
                before == old(self)@,
                self.stride == before.stride,
                win.fits(self.stride),
                size == packed@.len() == width * win.frames,
                self@ == before.unpacked(buf, packed@, *win, channel as nat),
            decreases width - channel,
        {
            proof {
                let frames = win.frames as int;
                assert(channel * frames + frames <= width * frames && 0 <= channel * frames
                    && (channel + 1) * frames == channel * frames + frames) by (nonlinear_arith)
                    requires
                        0 <= channel < width,
                        0 <= frames,
                ;
            }
            let from: usize = channel as usize * win.frames;
            self.set_channel(
                buf,
                channel as usize,
                win,
                vstd::slice::slice_subrange(packed, from, from + win.frames),
            );
            channel += 1;
        }
    }
}

/// A signal and the ring it is delayed through.
pub struct Delaying {
    pub signal: Seq<Sample>,
    pub ring: Seq<Sample>,
}

/// The first `count` samples of a signal exchanged for those that lie `samples`
/// behind the head of a ring, which takes them in.
pub open spec fn delayed(
    signal: Seq<Sample>,
    ring: Seq<Sample>,
    head: int,
    samples: int,
    count: nat,
) -> Delaying
    decreases count,
{
    if count == 0 {
        Delaying { signal, ring }
    } else {
        let before = delayed(signal, ring, head, samples, (count - 1) as nat);
        let at = (head + count - 1) % MAX_COMPENSATION as int;
        let back = (at + MAX_COMPENSATION - samples) % MAX_COMPENSATION as int;
        Delaying {
            signal: before.signal.update(count - 1, before.ring[back]),
            ring: before.ring.update(at, signal[count - 1]),
        }
    }
}

/// A signal comes out of a ring unchanged and exactly so many samples late; what
/// comes out first is what went in last before it.
pub proof fn law_delayed_by(
    signal: Seq<Sample>,
    ring: Seq<Sample>,
    head: int,
    samples: int,
    i: int,
)
    requires
        ring.len() == MAX_COMPENSATION,
        0 <= head < MAX_COMPENSATION,
        0 < samples < MAX_COMPENSATION,
        0 <= i < signal.len(),
    ensures
        delayed(signal, ring, head, samples, signal.len()).signal[i] == if i >= samples {
            signal[i - samples]
        } else {
            ring[(head + i + MAX_COMPENSATION - samples) % MAX_COMPENSATION as int]
        },
{
    lemma_delayed(signal, ring, head, samples, signal.len());
}

/// What a ring holds at a place once `count` samples have gone in.
spec fn ring_after(
    signal: Seq<Sample>,
    ring: Seq<Sample>,
    head: int,
    count: nat,
    p: int,
) -> Sample
    decreases count,
{
    if count == 0 {
        ring[p]
    } else if p == (head + count - 1) % MAX_COMPENSATION as int {
        signal[count - 1]
    } else {
        ring_after(signal, ring, head, (count - 1) as nat, p)
    }
}

proof fn lemma_ring_after(
    signal: Seq<Sample>,
    ring: Seq<Sample>,
    head: int,
    count: nat,
    back: int,
)
    requires
        ring.len() == MAX_COMPENSATION,
        0 <= head < MAX_COMPENSATION,
        0 < back < MAX_COMPENSATION,
    ensures
        ring_after(
            signal,
            ring,
            head,
            count,
            (head + count + MAX_COMPENSATION - back) % MAX_COMPENSATION as int,
        ) == if count >= back {
            signal[count - back]
        } else {
            ring[(head + count + MAX_COMPENSATION - back) % MAX_COMPENSATION as int]
        },
    decreases count,
{
    let size = MAX_COMPENSATION as int;
    if count > 0 {
        let p = (head + count + size - back) % size;
        if back == 1 {
            assert(p == (head + count - 1) % size);
        } else {
            assert(p != (head + count - 1) % size);
            lemma_ring_after(signal, ring, head, (count - 1) as nat, back - 1);
            assert(p == (head + (count - 1) + size - (back - 1)) % size);
        }
    }
}

proof fn lemma_back(n: int, samples: int)
    requires
        0 <= n,
        0 < samples < MAX_COMPENSATION,
    ensures
        (n % MAX_COMPENSATION as int + MAX_COMPENSATION - samples) % MAX_COMPENSATION as int == (n
            + MAX_COMPENSATION - samples) % MAX_COMPENSATION as int,
{
    let size = MAX_COMPENSATION as int;
    vstd::arithmetic::div_mod::lemma_add_mod_noop_right(size - samples, n, size);
}

proof fn lemma_delayed(
    signal: Seq<Sample>,
    ring: Seq<Sample>,
    head: int,
    samples: int,
    count: nat,
)
    requires
        ring.len() == MAX_COMPENSATION,
        0 <= head < MAX_COMPENSATION,
        0 < samples < MAX_COMPENSATION,
        count <= signal.len(),
    ensures
        ({
            let after = delayed(signal, ring, head, samples, count);
            &&& after.signal.len() == signal.len()
            &&& after.ring.len() == ring.len()
            &&& forall|p: int|
                0 <= p < ring.len() ==> #[trigger] after.ring[p] == ring_after(
                    signal,
                    ring,
                    head,
                    count,
                    p,
                )
            &&& forall|i: int|
                0 <= i < signal.len() ==> #[trigger] after.signal[i] == if i >= count {
                    signal[i]
                } else if i >= samples {
                    signal[i - samples]
                } else {
                    ring[(head + i + MAX_COMPENSATION - samples) % MAX_COMPENSATION as int]
                }
        }),
    decreases count,
{
    if count > 0 {
        let size = MAX_COMPENSATION as int;
        let before = delayed(signal, ring, head, samples, (count - 1) as nat);
        let after = delayed(signal, ring, head, samples, count);
        lemma_delayed(signal, ring, head, samples, (count - 1) as nat);
        lemma_ring_after(signal, ring, head, (count - 1) as nat, samples);
        let at = (head + count - 1) % size;
        let back = (at + size - samples) % size;
        lemma_back(head + count - 1, samples);
        assert(0 <= at < size && 0 <= back < size);
        assert forall|p: int| 0 <= p < ring.len() implies #[trigger] after.ring[p] == ring_after(
            signal,
            ring,
            head,
            count,
            p,
        ) by {
            if p != at {
                assert(after.ring[p] == before.ring[p]);
            }
        }
        assert(before.ring[back] == ring_after(signal, ring, head, (count - 1) as nat, back));
    }
}

/// A path that is held back runs on from chunk to chunk: what comes out at the start of one
/// is the end of what went in before it, so that no sample is lost or heard twice.
pub proof fn law_a_delay_runs_on(
    signal: Seq<Sample>,
    next: Seq<Sample>,
    ring: Seq<Sample>,
    head: int,
    samples: int,
    i: int,
)
    requires
        ring.len() == MAX_COMPENSATION,
        0 <= head < MAX_COMPENSATION,
        0 < samples < MAX_COMPENSATION,
        0 <= i < next.len(),
        samples <= signal.len() + i,
    ensures
        ({
            let first = delayed(signal, ring, head, samples, signal.len());
            let second = delayed(
                next,
                first.ring,
                (head + signal.len()) % MAX_COMPENSATION as int,
                samples,
                next.len(),
            );
            second.signal[i] == (signal + next)[signal.len() + i - samples]
        }),
{
    let size = MAX_COMPENSATION as int;
    let count = signal.len();
    lemma_delayed(signal, ring, head, samples, count);
    let first = delayed(signal, ring, head, samples, count);
    let start = (head + count) % size;
    lemma_delayed(next, first.ring, start, samples, next.len());
    if i < samples {
        let back = samples - i;
        lemma_ring_after(signal, ring, head, count, back);
        lemma_back((head + count) as int, back);
        let p = (start + size - back) % size;
        assert(p == (head + count + size - back) % size);
        assert(first.ring[p] == signal[count - back]);
    }
}

/// One channel of a ring written from the head on, `count` samples long.
pub open spec fn ring_written(
    ring: Seq<Sample>,
    base: int,
    len: int,
    head: int,
    samples: Seq<Sample>,
    count: nat,
) -> Seq<Sample>
    decreases count,
{
    if count == 0 {
        ring
    } else {
        ring_written(ring, base, len, head, samples, (count - 1) as nat).update(
            base + (head + count - 1) % len,
            samples[count - 1],
        )
    }
}

impl RingModel {
    /// A line with a chunk appended to both of its channels.
    pub open spec fn appended(self, left: Seq<Sample>, right: Seq<Sample>) -> RingModel {
        let frames = left.len();
        RingModel {
            ring: ring_written(
                ring_written(
                    self.ring,
                    0,
                    self.len as int,
                    self.head as int,
                    left,
                    frames,
                ),
                self.len as int,
                self.len as int,
                self.head as int,
                right,
                frames,
            ),
            head: ((self.head + frames) % self.len as int) as usize,
            ..self
        }
    }
}

/// What is appended to a delay line is what it gives back: `back` frames behind
/// the head lies the sample that went in so many frames before the end.
pub proof fn law_line_plays_back(
    line: RingModel,
    left: Seq<Sample>,
    right: Seq<Sample>,
    back: int,
)
    requires
        line.wf(),
        line.usable(),
        left.len() == right.len(),
        left.len() <= line.len,
        0 < back <= left.len(),
    ensures
        line.appended(left, right).wf(),
        line.appended(left, right).usable(),
        line.appended(left, right).back(0, back) == left[left.len() - back],
        line.appended(left, right).back(1, back) == right[right.len() - back],
{
    let len = line.len as int;
    let head = line.head as int;
    let frames = left.len();
    let i = frames - back;
    let after = line.appended(left, right);
    let first = ring_written(line.ring, 0, len, head, left, frames);
    lemma_ring_written(line.ring, 0, len, head, left, frames);
    lemma_ring_written(first, len, len, head, right, frames);
    assert((after.head - back) % len == (head + i) % len) by {
        vstd::arithmetic::div_mod::lemma_sub_mod_noop((head + frames) as int, back, len);
        vstd::arithmetic::div_mod::lemma_mod_twice((head + frames) as int, len);
        vstd::arithmetic::div_mod::lemma_sub_mod_noop((head + frames) % len, back, len);
    }
    let p = (head + i) % len;
    assert(0 <= p < len);
    assert(first[0 + p] == left[i]);
    assert(after.ring[len + p] == right[i]);
    assert(after.ring[p] == first[p]);
    assert(0 * len == 0 && 1 * len == len) by (nonlinear_arith);
}

/// Where a chunk lies in a ring no shorter than it.
proof fn lemma_ring_written(
    ring: Seq<Sample>,
    base: int,
    len: int,
    head: int,
    samples: Seq<Sample>,
    count: nat,
)
    requires
        0 < len,
        0 <= base,
        base + len <= ring.len(),
        0 <= head < len,
        count <= samples.len(),
        count <= len,
    ensures
        ({
            let after = ring_written(ring, base, len, head, samples, count);
            &&& after.len() == ring.len()
            &&& forall|i: int|
                0 <= i < count ==> after[base + (head + i) % len] == #[trigger] samples[i]
            &&& forall|p: int|
                0 <= p < ring.len() && !(base <= p < base + len) ==> #[trigger] after[p] == ring[p]
        }),
    decreases count,
{
    if count > 0 {
        lemma_ring_written(ring, base, len, head, samples, (count - 1) as nat);
        let last = (head + count - 1) % len;
        assert(0 <= last < len);
        assert forall|i: int| 0 <= i < count implies ring_written(
            ring,
            base,
            len,
            head,
            samples,
            count,
        )[base + (head + i) % len] == #[trigger] samples[i] by {
            if i < count - 1 {
                lemma_mod_apart(head + i, head + count - 1, len);
            }
            assert(0 <= (head + i) % len < len);
        }
    }
}

/// Two numbers less than `len` apart have different remainders.
proof fn lemma_mod_apart(a: int, b: int, len: int)
    requires
        0 <= a < b < a + len,
    ensures
        a % len != b % len,
{
    if a % len == b % len {
        vstd::arithmetic::div_mod::lemma_fundamental_div_mod(a, len);
        vstd::arithmetic::div_mod::lemma_fundamental_div_mod(b, len);
        let d = b / len - a / len;
        assert(len * (b / len) - len * (a / len) == len * d) by (nonlinear_arith)
            requires
                d == b / len - a / len,
        ;
        assert(len * d == b - a);
        assert(false) by (nonlinear_arith)
            requires
                0 < len,
                0 < len * d < len,
        ;
    }
}

impl SoundModel {
    /// Where the ring of one channel of a compensated path starts.
    pub open spec fn ring_base(slot: int, channel: int) -> int {
        slot * (MAX_CHANNELS * MAX_COMPENSATION) + channel * MAX_COMPENSATION
    }

    /// One channel of a compensated path.
    pub open spec fn channel_delayed(
        self,
        buf: Buf,
        slot: int,
        samples: int,
        win: Window,
        channel: int,
    ) -> SoundModel {
        let base = SoundModel::ring_base(slot, channel);
        let after = delayed(
            self.channel(buf, channel, win),
            self.compensators.subrange(base, base + MAX_COMPENSATION),
            self.compensator_heads[slot] as int,
            samples,
            win.frames as nat,
        );
        SoundModel {
            compensators: laid(self.compensators, base, after.ring),
            ..self.with_channel(buf, channel, win, after.signal)
        }
    }

    /// The first `count` channels of a compensated path. Every channel walks the
    /// same distance.
    pub open spec fn channels_delayed(
        self,
        buf: Buf,
        slot: int,
        samples: int,
        win: Window,
        count: nat,
    ) -> SoundModel
        decreases count,
    {
        if count == 0 {
            self
        } else {
            self.channels_delayed(buf, slot, samples, win, (count - 1) as nat).channel_delayed(
                buf,
                slot,
                samples,
                win,
                count - 1,
            )
        }
    }

    /// A path delayed so that it lines up with a later one.
    pub open spec fn compensated(
        self,
        buf: Buf,
        slot: u16,
        samples: u32,
        width: u16,
        win: Window,
    ) -> SoundModel {
        if slot >= MAX_COMPENSATORS || samples == 0 || samples >= MAX_COMPENSATION || width == 0 {
            self
        } else {
            SoundModel {
                compensator_heads: self.compensator_heads.update(
                    slot as int,
                    ((self.compensator_heads[slot as int] + win.frames) % MAX_COMPENSATION as int)
                        as usize,
                ),
                ..self.channels_delayed(
                    buf,
                    slot as int,
                    samples as int,
                    win,
                    heard_width(width) as nat,
                )
            }
        }
    }

    /// A line with a chunk of a buffer appended. A channel the buffer does not
    /// have goes silent.
    pub open spec fn line_written(self, line: int, buf: Buf, width: u16, win: Window) -> SoundModel {
        if self.lines[line].usable() {
            SoundModel {
                lines: self.lines.update(
                    line,
                    self.lines[line].appended(
                        if 0 < width {
                            self.channel(buf, 0, win)
                        } else {
                            silence(win.frames as nat)
                        },
                        if 1 < width {
                            self.channel(buf, 1, win)
                        } else {
                            silence(win.frames as nat)
                        },
                    ),
                ),
                ..self
            }
        } else {
            self
        }
    }

    /// A line with so much silence appended, so that it drains over its delay
    /// time rather than holding still.
    pub open spec fn line_drained(self, line: int, frames: nat) -> SoundModel {
        if self.lines[line].usable() {
            SoundModel {
                lines: self.lines.update(
                    line,
                    self.lines[line].appended(silence(frames), silence(frames)),
                ),
                ..self
            }
        } else {
            self
        }
    }
}

/// The rings of two channels lie apart.
proof fn lemma_rings_apart(slot: int, channel: int, other: int, other_channel: int)
    requires
        0 <= slot < MAX_COMPENSATORS,
        0 <= other < MAX_COMPENSATORS,
        0 <= channel < MAX_CHANNELS,
        0 <= other_channel < MAX_CHANNELS,
    ensures
        0 <= SoundModel::ring_base(slot, channel),
        SoundModel::ring_base(slot, channel) + MAX_COMPENSATION <= compensation_size(),
        slot != other || channel != other_channel ==> SoundModel::ring_base(slot, channel)
            + MAX_COMPENSATION <= SoundModel::ring_base(other, other_channel)
            || SoundModel::ring_base(other, other_channel) + MAX_COMPENSATION
            <= SoundModel::ring_base(slot, channel),
{
    assert(MAX_CHANNELS * MAX_COMPENSATION == 16384) by (nonlinear_arith);
    assert(compensation_size() == MAX_COMPENSATORS * 16384) by (nonlinear_arith);
}

/// What one channel of a path that is held back comes to, and what it leaves in its ring.
proof fn lemma_channel_delayed(
    state: SoundModel,
    buf: Buf,
    slot: int,
    samples: int,
    win: Window,
    channel: int,
    c: int,
)
    requires
        state.wf(),
        state.stride > 0,
        buf < MAX_BUFFERS,
        0 <= slot < MAX_COMPENSATORS,
        0 < samples < MAX_COMPENSATION,
        0 <= channel < MAX_CHANNELS,
        0 <= c < MAX_CHANNELS,
        win.fits(state.stride),
    ensures
        ({
            let after = state.channel_delayed(buf, slot, samples, win, channel);
            let base = SoundModel::ring_base(slot, c);
            let out = delayed(
                state.channel(buf, c, win),
                state.compensators.subrange(base, base + MAX_COMPENSATION),
                state.compensator_heads[slot] as int,
                samples,
                win.frames as nat,
            );
            &&& after.wf()
            &&& after.stride == state.stride
            &&& after.compensator_heads == state.compensator_heads
            &&& c == channel ==> after.channel(buf, c, win) == out.signal
                && after.compensators.subrange(base, base + MAX_COMPENSATION) == out.ring
            &&& c != channel ==> after.channel(buf, c, win) == state.channel(buf, c, win)
                && after.compensators.subrange(base, base + MAX_COMPENSATION)
                == state.compensators.subrange(base, base + MAX_COMPENSATION)
        }),
{
    let after = state.channel_delayed(buf, slot, samples, win, channel);
    let mine = SoundModel::ring_base(slot, channel);
    let base = SoundModel::ring_base(slot, c);
    lemma_rings_apart(slot, channel, slot, c);
    lemma_rings_apart(slot, c, slot, channel);
    lemma_place(state, buf, channel, win);
    lemma_place(state, buf, c, win);
    let ring = state.compensators.subrange(mine, mine + MAX_COMPENSATION);
    let signal = state.channel(buf, channel, win);
    lemma_delayed(
        signal,
        ring,
        state.compensator_heads[slot] as int,
        samples,
        win.frames as nat,
    );
    let out = delayed(
        signal,
        ring,
        state.compensator_heads[slot] as int,
        samples,
        win.frames as nat,
    );
    law_channels_lie_apart(state, buf, channel, win, out.signal, buf, c);
    assert(after.channel(buf, c, win) == state.with_channel(
        buf,
        channel,
        win,
        out.signal,
    ).channel(buf, c, win));
    if c == channel {
        assert(after.compensators.subrange(base, base + MAX_COMPENSATION) =~= out.ring);
    } else {
        assert(after.compensators.subrange(base, base + MAX_COMPENSATION)
            =~= state.compensators.subrange(base, base + MAX_COMPENSATION));
    }
}

/// A path that is compensated comes out unchanged, exactly so many samples late: each
/// channel that is heard carries what it carried so many frames before, and the ring takes
/// in what went by, to be carried on from there.
pub proof fn law_a_compensated_path_is_held_back(
    state: SoundModel,
    buf: Buf,
    slot: u16,
    samples: u32,
    width: u16,
    win: Window,
    c: int,
    i: int,
)
    requires
        state.wf(),
        state.stride > 0,
        buf < MAX_BUFFERS,
        slot < MAX_COMPENSATORS,
        0 < samples < MAX_COMPENSATION,
        win.fits(state.stride),
        0 <= c < width,
        c < MAX_CHANNELS,
        0 <= i < win.frames,
    ensures
        ({
            let after = state.compensated(buf, slot, samples, width, win);
            let base = SoundModel::ring_base(slot as int, c);
            let head = state.compensator_heads[slot as int] as int;
            let signal = state.channel(buf, c, win);
            &&& i >= samples ==> after.channel(buf, c, win)[i] == signal[i - samples]
            &&& i < samples ==> after.channel(buf, c, win)[i] == state.compensators[base + (head + i
                + MAX_COMPENSATION - samples) % MAX_COMPENSATION as int]
            &&& win.frames <= MAX_COMPENSATION ==> after.compensators[base + (head + i)
                % MAX_COMPENSATION as int] == signal[i]
            &&& after.compensator_heads[slot as int] == (head + win.frames)
                % MAX_COMPENSATION as int
        }),
{
    let after = state.compensated(buf, slot, samples, width, win);
    let base = SoundModel::ring_base(slot as int, c);
    let head = state.compensator_heads[slot as int] as int;
    let signal = state.channel(buf, c, win);
    let ring = state.compensators.subrange(base, base + MAX_COMPENSATION);
    let count = heard_width(width) as nat;
    let frames = win.frames as nat;
    let size = MAX_COMPENSATION as int;
    lemma_place(state, buf, c, win);
    lemma_rings_apart(slot as int, c, slot as int, c);
    reveal_with_fuel(SoundModel::channels_delayed, 3);
    lemma_channel_delayed(state, buf, slot as int, samples as int, win, 0, c);
    let first = state.channel_delayed(buf, slot as int, samples as int, win, 0);
    if count == 2 {
        lemma_channel_delayed(first, buf, slot as int, samples as int, win, 1, c);
    }
    let out = delayed(signal, ring, head, samples as int, frames);
    let done = state.channels_delayed(buf, slot as int, samples as int, win, count);
    assert(done.channel(buf, c, win) == out.signal);
    assert(done.compensators.subrange(base, base + size) == out.ring);
    assert(after.channel(buf, c, win) == done.channel(buf, c, win));
    lemma_delayed(signal, ring, head, samples as int, frames);
    if i < samples {
        let p = (head + i + size - samples) % size;
        assert(ring[p] == state.compensators[base + p]);
    }
    if frames <= size {
        let p = (head + i) % size;
        lemma_ring_holds(signal, ring, head, frames, i);
        assert(out.ring[p] == done.compensators[base + p]);
    }
}

/// A chunk no longer than a ring lies in it whole.
proof fn lemma_ring_holds(
    signal: Seq<Sample>,
    ring: Seq<Sample>,
    head: int,
    count: nat,
    i: int,
)
    requires
        0 <= head < MAX_COMPENSATION,
        0 <= i < count <= MAX_COMPENSATION,
    ensures
        ring_after(signal, ring, head, count, (head + i) % MAX_COMPENSATION as int) == signal[i],
    decreases count,
{
    if i < count - 1 {
        lemma_ring_holds(signal, ring, head, (count - 1) as nat, i);
        assert((head + i) % MAX_COMPENSATION as int != (head + count - 1)
            % MAX_COMPENSATION as int);
    }
}

impl SoundState {
    #[verifier::spinoff_prover]
    fn delay_channel(&mut self, buf: Buf, slot: u16, samples: u32, win: &Window, channel: usize)
        requires
            old(self)@.wf(),
            old(self).stride > 0,
            buf < MAX_BUFFERS,
            slot < MAX_COMPENSATORS,
            0 < samples < MAX_COMPENSATION,
            channel < MAX_CHANNELS,
            win.fits(old(self).stride),
        ensures
            final(self)@ == old(self)@.channel_delayed(
                buf,
                slot as int,
                samples as int,
                *win,
                channel as int,
            ),
            final(self)@.wf(),
    {
        let ghost before = self@;
        let first: usize = self.compensator_heads[slot as usize];
        let mut head: usize = first;
        proof {
            assert(MAX_CHANNELS * MAX_COMPENSATION == 16384) by (nonlinear_arith);
            assert(compensation_size() == MAX_COMPENSATORS * 16384) by (nonlinear_arith);
            assert(0 <= slot * (MAX_CHANNELS * MAX_COMPENSATION) <= 31 * 16384)
                by (nonlinear_arith)
                requires
                    0 <= slot < MAX_COMPENSATORS,
                    MAX_CHANNELS * MAX_COMPENSATION == 16384,
            ;
        }
        let base: usize = slot as usize * (MAX_CHANNELS * MAX_COMPENSATION) + channel
            * MAX_COMPENSATION;
        let at: usize = self.at(buf, channel, win);
        let ghost signal = before.channel(buf, channel as int, *win);
        let ghost ring = before.compensators.subrange(base as int, base + MAX_COMPENSATION);
        let samples: usize = samples as usize;
        let ghost total = before.compensators.len();
        let mut i: usize = 0;
        proof {
            assert(signal.len() == win.frames);
            assert(laid(before.pool, at as int, signal) =~= before.pool);
            assert(laid(before.compensators, base as int, ring) =~= before.compensators);
        }
        while i < win.frames
            invariant
                i <= win.frames,
                before.wf(),
                first < MAX_COMPENSATION,
                head == (first + i) % MAX_COMPENSATION as int,
                0 < samples < MAX_COMPENSATION,
                base + MAX_COMPENSATION <= total,
                total == before.compensators.len() == self.compensators@.len(),
                at + win.frames <= before.pool.len() <= usize::MAX,
                self.pool@.len() == before.pool.len(),
                signal == before.pool.subrange(at as int, at + win.frames),
                ring == before.compensators.subrange(base as int, base + MAX_COMPENSATION),
                self@ == (SoundModel {
                    pool: self.pool@,
                    compensators: self.compensators@,
                    ..before
                }),
                ({
                    let now = delayed(signal, ring, first as int, samples as int, i as nat);
                    &&& now.signal.len() == win.frames
                    &&& now.ring.len() == MAX_COMPENSATION
                    &&& self.pool@ == laid(before.pool, at as int, now.signal)
                    &&& self.compensators@ == laid(before.compensators, base as int, now.ring)
                    &&& forall|k: int| i <= k < win.frames ==> #[trigger] now.signal[k] == signal[k]
                }),
            decreases win.frames - i,
        {
            let ghost now = delayed(signal, ring, first as int, samples as int, i as nat);
            let ghost next = delayed(signal, ring, first as int, samples as int, (i + 1) as nat);
            let read: usize = (head + MAX_COMPENSATION - samples) % MAX_COMPENSATION;
            let late: Sample = self.compensators[base + read];
            assert(late == now.ring[read as int]);
            let sample: Sample = self.pool[at + i];
            assert(now.signal[i as int] == signal[i as int]);
            assert(sample == signal[i as int]);
            self.compensators[base + head] = sample;
            self.pool[at + i] = late;
            proof {
                lemma_laid_set(before.pool, at as int, now.signal, i as int, late);
                lemma_laid_set(before.compensators, base as int, now.ring, head as int, sample);
                assert(next.signal == now.signal.update(i as int, late));
                assert(next.ring == now.ring.update(head as int, sample));
            }
            head = (head + 1) % MAX_COMPENSATION;
            i += 1;
        }
        proof {
            assert(self@.lines == before.lines);
            assert(self@.compensator_heads == before.compensator_heads);
        }
    }

    /// Delays a buffer in place, to make up for latency elsewhere.
    pub fn compensate(&mut self, buf: Buf, slot: u16, samples: u32, width: u16, win: &Window)
        requires
            old(self)@.wf(),
            old(self).stride > 0,
            buf < MAX_BUFFERS,
            win.fits(old(self).stride),
        ensures
            final(self)@ == old(self)@.compensated(buf, slot, samples, width, *win),
            final(self)@.wf(),
            final(self).stride == old(self).stride,
    {
        if slot as usize >= MAX_COMPENSATORS || samples == 0 || samples as usize
            >= MAX_COMPENSATION || width == 0 {
            return;
        }
        let ghost before = self@;
        let count: usize = if (width as usize) < MAX_CHANNELS {
            width as usize
        } else {
            MAX_CHANNELS
        };
        let head: usize = self.compensator_heads[slot as usize];
        let mut channel: usize = 0;
        while channel < count
            invariant
                channel <= count <= MAX_CHANNELS,
                self@.wf(),
                before == old(self)@,
                self.stride == before.stride,
                self.stride > 0,
                buf < MAX_BUFFERS,
                slot < MAX_COMPENSATORS,
                0 < samples < MAX_COMPENSATION,
                win.fits(self.stride),
                self@.compensator_heads == before.compensator_heads,
                self@ == before.channels_delayed(
                    buf,
                    slot as int,
                    samples as int,
                    *win,
                    channel as nat,
                ),
            decreases count - channel,
        {
            self.delay_channel(buf, slot, samples, win, channel);
            channel += 1;
        }
        let ghost still = self@;
        let moved: usize = (head + win.frames % MAX_COMPENSATION) % MAX_COMPENSATION;
        assert(moved == (head + win.frames) % MAX_COMPENSATION as int);
        self.compensator_heads[slot as usize] = moved;
        proof {
            assert(self@.lines == still.lines);
            assert forall|i: int| 0 <= i < self@.compensator_heads.len() implies
                #[trigger] self@.compensator_heads[i] < MAX_COMPENSATION by {
                if i != slot {
                    assert(self@.compensator_heads[i] == still.compensator_heads[i]);
                }
            }
        }
    }

    /// Writes one channel of a line, from the buffer pool or with silence.
    fn write_ring(&mut self, line: usize, channel: usize, from: Option<usize>, frames: usize, Ghost(
        samples,
    ): Ghost<Seq<Sample>>)
        requires
            old(self)@.wf(),
            line < MAX_AUDIO_DELAY_LINES,
            channel < MAX_CHANNELS,
            old(self)@.lines[line as int].usable(),
            samples.len() == frames,
            match from {
                Some(at) => at + frames <= old(self).pool@.len() <= usize::MAX && samples
                    == old(self).pool@.subrange(at as int, at + frames),
                None => samples == silence(frames as nat),
            },
        ensures
            final(self)@ == (SoundModel {
                lines: old(self)@.lines.update(
                    line as int,
                    RingModel {
                        ring: ring_written(
                            old(self)@.lines[line as int].ring,
                            channel * old(self)@.lines[line as int].len,
                            old(self)@.lines[line as int].len as int,
                            old(self)@.lines[line as int].head as int,
                            samples,
                            frames as nat,
                        ),
                        ..old(self)@.lines[line as int]
                    },
                ),
                ..old(self)@
            }),
            final(self)@.lines[line as int].ring.len() == old(self)@.lines[line as int].ring.len(),
            final(self)@.wf(),
    {
        let ghost before = self@;
        let ghost held = before.lines[line as int];
        assert(held == self.lines@[line as int]@);
        assert(held.wf());
        let len: usize = self.lines[line].len;
        let head: usize = self.lines[line].head;
        proof {
            assert(0 <= channel * len && channel * len + len <= MAX_CHANNELS * len)
                by (nonlinear_arith)
                requires
                    channel < MAX_CHANNELS,
                    len > 0,
            ;
        }
        let base: usize = channel * len;
        proof {
            vstd::arithmetic::div_mod::lemma_small_mod(head as nat, len as nat);
        }
        let mut at: usize = head;
        let mut i: usize = 0;
        while i < frames
            invariant
                i <= frames,
                before.wf(),
                line < MAX_AUDIO_DELAY_LINES,
                self.lines@.len() == MAX_AUDIO_DELAY_LINES,
                held == before.lines[line as int],
                held.usable(),
                held.wf(),
                len == held.len,
                head == held.head,
                at == (head + i) % len as int,
                base == channel * len,
                base + len <= MAX_CHANNELS * len <= held.ring.len(),
                samples.len() == frames,
                self.pool@ == before.pool,
                match from {
                    Some(at) => at + frames <= before.pool.len() <= usize::MAX && samples
                        == before.pool.subrange(at as int, at + frames),
                    None => samples == silence(frames as nat),
                },
                self.lines@[line as int].len == len,
                self.lines@[line as int].head == head,
                self.lines@[line as int].ring@ == ring_written(
                    held.ring,
                    base as int,
                    len as int,
                    head as int,
                    samples,
                    i as nat,
                ),
                self.lines@[line as int].ring@.len() == held.ring.len(),
                self@ == (SoundModel {
                    lines: before.lines.update(line as int, self.lines@[line as int]@),
                    ..before
                }),
            decreases frames - i,
        {
            let sample: Sample = match from {
                Some(start) => self.pool[start + i],
                None => Sample::silence(),
            };
            assert(sample == samples[i as int]);
            let ghost was = self@.lines;
            self.lines[line].ring[base + at] = sample;
            proof {
                assert forall|k: int| 0 <= k < self@.lines.len() && k != line implies
                    #[trigger] self@.lines[k] == before.lines[k] by {
                    assert(self@.lines[k] == was[k]);
                }
                assert(self@.lines =~= before.lines.update(line as int, self.lines@[line as int]@));
            }
            at = if at + 1 == len {
                0
            } else {
                at + 1
            };
            proof {
                lemma_step_round(head + i, len as int);
            }
            i += 1;
        }
        proof {
            assert forall|k: int| 0 <= k < self@.lines.len() implies (#[trigger] self@.lines[k]).wf() by {
                if k != line {
                    assert(self@.lines[k] == before.lines[k]);
                }
            }
        }
    }

    fn advance(&mut self, line: usize, frames: usize)
        requires
            old(self)@.wf(),
            line < MAX_AUDIO_DELAY_LINES,
            old(self)@.lines[line as int].len > 0,
        ensures
            final(self)@ == (SoundModel {
                lines: old(self)@.lines.update(
                    line as int,
                    RingModel {
                        head: ((old(self)@.lines[line as int].head + frames) % old(
                            self,
                        )@.lines[line as int].len as int) as usize,
                        ..old(self)@.lines[line as int]
                    },
                ),
                ..old(self)@
            }),
            final(self)@.wf(),
    {
        let ghost before = self@;
        let ghost held = before.lines[line as int];
        assert(held == self.lines@[line as int]@);
        assert(held.wf());
        let len: usize = self.lines[line].len;
        let head: usize = self.lines[line].head;
        assert(MAX_CHANNELS * len <= usize::MAX);
        let moved: usize = (head + frames % len) % len;
        proof {
            vstd::arithmetic::div_mod::lemma_add_mod_noop(head as int, frames as int, len as int);
            vstd::arithmetic::div_mod::lemma_small_mod(head as nat, len as nat);
        }
        self.lines[line].head = moved;
        proof {
            let next = RingModel { head: moved, ..held };
            assert(self.lines@[line as int]@ =~= next);
            assert(self@.lines =~= before.lines.update(line as int, next));
            assert forall|k: int| 0 <= k < self@.lines.len() implies (#[trigger] self@.lines[k]).wf() by {
                if k != line {
                    assert(self@.lines[k] == before.lines[k]);
                }
            }
        }
    }

    /// Whether a line has anything in it.
    fn is_usable(&self, line: usize) -> (r: bool)
        requires
            self@.wf(),
            line < MAX_AUDIO_DELAY_LINES,
        ensures
            r == self@.lines[line as int].usable(),
    {
        assert(self@.lines[line as int] == self.lines@[line as int]@);
        assert(self@.lines[line as int].wf());
        let len: usize = self.lines[line].len;
        len > 0 && MAX_CHANNELS * len <= self.lines[line].ring.len()
    }

    /// Appends a chunk of a buffer to a delay line.
    ///
    /// Every read of the chunk has run by then, so the head this moves is the one
    /// the reads saw.
    pub fn delay_write(&mut self, line: u16, buf: Buf, width: u16, win: &Window)
        requires
            old(self)@.wf(),
            line < MAX_AUDIO_DELAY_LINES,
            buf < MAX_BUFFERS,
            win.fits(old(self).stride),
        ensures
            final(self)@ == old(self)@.line_written(line as int, buf, width, *win),
            final(self)@.wf(),
            final(self).stride == old(self).stride,
    {
        let index: usize = line as usize;
        if !self.is_usable(index) {
            return;
        }
        let ghost before = self@;
        let left: Option<usize> = if 0 < width {
            Some(self.at(buf, 0, win))
        } else {
            None
        };
        let right: Option<usize> = if 1 < width {
            Some(self.at(buf, 1, win))
        } else {
            None
        };
        let ghost left_samples = if 0 < width {
            before.channel(buf, 0, *win)
        } else {
            silence(win.frames as nat)
        };
        let ghost right_samples = if 1 < width {
            before.channel(buf, 1, *win)
        } else {
            silence(win.frames as nat)
        };
        proof {
            let len = before.lines[line as int].len;
            assert(0 * len == 0 && 1 * len == len) by (nonlinear_arith);
        }
        self.write_ring(index, 0, left, win.frames, Ghost(left_samples));
        self.write_ring(index, 1, right, win.frames, Ghost(right_samples));
        self.advance(index, win.frames);
        proof {
            assert(self@.lines =~= before.line_written(line as int, buf, width, *win).lines);
        }
    }

    /// Appends silence to a delay line that nothing writes.
    pub fn delay_silence(&mut self, line: u16, frames: usize)
        requires
            old(self)@.wf(),
            line < MAX_AUDIO_DELAY_LINES,
        ensures
            final(self)@ == old(self)@.line_drained(line as int, frames as nat),
            final(self)@.wf(),
            final(self).stride == old(self).stride,
    {
        let index: usize = line as usize;
        if !self.is_usable(index) {
            return;
        }
        let ghost before = self@;
        let ghost quiet = silence(frames as nat);
        proof {
            let len = before.lines[line as int].len;
            assert(0 * len == 0 && 1 * len == len) by (nonlinear_arith);
        }
        self.write_ring(index, 0, None, frames, Ghost(quiet));
        self.write_ring(index, 1, None, frames, Ghost(quiet));
        self.advance(index, frames);
        proof {
            assert(self@.lines =~= before.line_drained(line as int, frames as nat).lines);
        }
    }
}

/// The remainder of the next number.
proof fn lemma_step_round(n: int, len: int)
    requires
        0 < len,
        0 <= n,
    ensures
        (n + 1) % len == if n % len + 1 == len {
            0
        } else {
            n % len + 1
        },
{
    vstd::arithmetic::div_mod::lemma_add_mod_noop(n, 1, len);
    if len == 1 {
        assert((n + 1) % 1 == 0);
        assert(n % 1 == 0);
    } else {
        vstd::arithmetic::div_mod::lemma_small_mod(1, len as nat);
        if n % len + 1 == len {
            vstd::arithmetic::div_mod::lemma_mod_self_0(len);
        } else {
            vstd::arithmetic::div_mod::lemma_small_mod((n % len + 1) as nat, len as nat);
        }
    }
}

impl RingModel {
    /// The line as another program has it: in a ring that came with the program,
    /// with as many of the latest samples as fit, or where it lies if its length
    /// is the one asked for. A line of the wrong length that no ring came for
    /// plays nothing.
    pub open spec fn resized(self, len: usize, ring: Seq<Sample>) -> RingModel {
        if ring.len() > 0 {
            if self.len == 0 || len == 0 {
                RingModel { ring, len, head: 0 }
            } else {
                RingModel {
                    ring: Seq::new(
                        ring.len(),
                        |k: int|
                            recopied(
                                self.ring,
                                self.len as nat,
                                ring,
                                len as nat,
                                self.head as nat,
                                k,
                            ),
                    ),
                    len,
                    head: (kept_of(self.len as nat, len as nat) % len as nat) as usize,
                }
            }
        } else if self.len != len {
            RingModel { len: 0, ..self }
        } else {
            self
        }
    }

    pub open spec fn cleared(self) -> RingModel {
        RingModel { ring: silence(self.ring.len()), head: 0, ..self }
    }
}

/// A line keeps what was in it when it gets a ring of another length: the samples
/// that both rings have room for lie as far behind the head as they did.
pub proof fn law_resized_line_keeps_its_samples(
    line: RingModel,
    len: usize,
    ring: Seq<Sample>,
    channel: int,
    back: int,
)
    requires
        line.wf(),
        line.usable(),
        0 < len,
        ring.len() == MAX_CHANNELS * len,
        0 <= channel < MAX_CHANNELS,
        0 < back <= line.len,
        back <= len,
    ensures
        line.resized(len, ring).usable(),
        line.resized(len, ring).back(channel, back) == line.back(channel, back),
{
    let after = line.resized(len, ring);
    let to = len as int;
    let from = line.len as int;
    let keep = kept_of(from as nat, to as nat) as int;
    let head = line.head as int;
    let i = keep - back;
    assert(0 <= i < keep <= to);
    assert((after.head - back) % to == i) by {
        vstd::arithmetic::div_mod::lemma_sub_mod_noop(keep, back, to);
        vstd::arithmetic::div_mod::lemma_mod_twice(keep, to);
        vstd::arithmetic::div_mod::lemma_sub_mod_noop(keep % to, back, to);
        vstd::arithmetic::div_mod::lemma_small_mod(i as nat, to as nat);
    }
    let k = channel * to + i;
    assert(0 <= channel * to && channel * to + to <= MAX_CHANNELS * to) by (nonlinear_arith)
        requires
            0 <= channel < MAX_CHANNELS,
            0 < to,
    ;
    vstd::arithmetic::div_mod::lemma_fundamental_div_mod_converse(k, to, channel, i);
    assert(k / to == channel && k % to == i);
    assert((head + from - back) % from == (head - back) % from) by {
        vstd::arithmetic::div_mod::lemma_mod_add_multiples_vanish(head - back, from);
    }
    assert(0 <= channel * from && channel * from + from <= MAX_CHANNELS * from)
        by (nonlinear_arith)
        requires
            0 <= channel < MAX_CHANNELS,
            0 < from,
    ;
}

impl SoundModel {
    /// The rings put in the order another program has them in.
    pub open spec fn settled_lines(self, nodes: Seq<NodeId>) -> Settling<RingModel> {
        let lines = lines_of(self.line_nodes, nodes);
        settle(
            Settling {
                rings: self.lines,
                order: asked(self.line_nodes, self.line_order, nodes, lines),
            },
            lines,
            lines as nat,
        )
    }

    /// What another program starts from.
    pub open spec fn adopted(
        self,
        nodes: Seq<NodeId>,
        lens: Seq<usize>,
        rings: Seq<Seq<Sample>>,
    ) -> SoundModel {
        let settled = self.settled_lines(nodes);
        SoundModel {
            lines: Seq::new(
                self.lines.len(),
                |i: int|
                    if i < nodes.len() {
                        self.line_kept(nodes, i).resized(
                            asked_for(lens, i),
                            given_ring(rings, i),
                        )
                    } else {
                        RingModel { len: 0, ..settled.rings[i] }
                    },
            ),
            line_order: settled.order,
            line_nodes: Seq::new(
                self.line_nodes.len(),
                |i: int|
                    if i < nodes.len() {
                        nodes[i]
                    } else {
                        NO_NODE
                    },
            ),
            tap_distance: Seq::new(self.tap_distance.len(), |i: int| Real::unset()),
            ..self
        }
    }

    /// The line in slot `i` before a program's own ring is laid under it.
    pub open spec fn line_kept(self, nodes: Seq<NodeId>, i: int) -> RingModel {
        let settled = self.settled_lines(nodes);
        if settled.order[i] == NOT_PRESENT {
            settled.rings[i].cleared()
        } else {
            settled.rings[i]
        }
    }

    /// The rings the lines gave up for those that came with a program.
    pub open spec fn rings_left(self, nodes: Seq<NodeId>, rings: Seq<Seq<Sample>>) -> Seq<
        Seq<Sample>,
    > {
        Seq::new(
            rings.len(),
            |i: int|
                if i < nodes.len() && i < MAX_AUDIO_DELAY_LINES && rings[i].len() > 0 {
                    self.line_kept(nodes, i).ring
                } else {
                    rings[i]
                },
        )
    }

    /// Sized for blocks of so many frames.
    pub open spec fn prepared(self, stride: usize, daw_inputs: Seq<u16>) -> SoundModel {
        SoundModel {
            pool: silence((MAX_BUFFERS * MAX_BUFFER_CHANNELS * stride) as nat),
            stride,
            daw_inputs,
            compensators: silence(compensation_size() as nat),
            compensator_heads: Seq::new(MAX_COMPENSATORS as nat, |i: int| 0usize),
            lines: Seq::new(
                self.lines.len(),
                |i: int| RingModel { head: 0, ..self.lines[i] },
            ),
            ..self
        }
    }

    /// Every sample on its way somewhere, gone.
    pub open spec fn forgotten(self) -> SoundModel {
        SoundModel {
            pool: silence(self.pool.len()),
            compensators: silence(self.compensators.len()),
            compensator_heads: Seq::new(MAX_COMPENSATORS as nat, |i: int| 0usize),
            lines: Seq::new(self.lines.len(), |i: int| self.lines[i].cleared()),
            tap_distance: Seq::new(self.tap_distance.len(), |i: int| Real::unset()),
            ..self
        }
    }

    /// Where a read starts from: where the last chunk left it, or at once where
    /// it is going if there was none.
    pub open spec fn swept_from(self, tap: int, distance: Real) -> Real {
        if tap < self.tap_distance.len() && self.tap_distance[tap].finite() {
            self.tap_distance[tap]
        } else {
            distance
        }
    }
}

pub open spec fn given_ring(rings: Seq<Seq<Sample>>, i: int) -> Seq<Sample> {
    if i < rings.len() {
        rings[i]
    } else {
        Seq::empty()
    }
}

/// An audio delay line that two programs have in common goes on where it stood,
/// wherever the new program has it: as far as both lengths reach, every sample
/// lies as far behind the head as it did. The new program brings a ring for a line
/// of another length, and may bring one for a line of the same.
pub proof fn law_common_lines_go_on(
    state: SoundModel,
    nodes: Seq<NodeId>,
    lens: Seq<usize>,
    rings: Seq<Seq<Sample>>,
    i: int,
    j: int,
    channel: int,
    back: int,
)
    requires
        state.wf(),
        nodes.len() <= MAX_AUDIO_DELAY_LINES,
        distinct_writers(nodes),
        0 <= i < nodes.len(),
        nodes[i] != NO_NODE,
        0 <= j < MAX_AUDIO_DELAY_LINES,
        state.line_nodes[j] == nodes[i],
        forall|k: int| 0 <= k < j ==> #[trigger] state.line_nodes[k] != nodes[i],
        state.lines[j].usable(),
        0 < asked_for(lens, i),
        given_ring(rings, i).len() == MAX_CHANNELS * asked_for(lens, i) || given_ring(
            rings,
            i,
        ).len() == 0 && asked_for(lens, i) == state.lines[j].len,
        0 <= channel < MAX_CHANNELS,
        0 < back <= state.lines[j].len,
        back <= asked_for(lens, i),
    ensures
        state.adopted(nodes, lens, rings).lines[i].usable(),
        state.adopted(nodes, lens, rings).lines[i].back(channel, back) == state.lines[j].back(
            channel,
            back,
        ),
{
    law_reorder_keeps_rings(state.lines, state.line_nodes, state.line_order, nodes, i);
    assert(state.line_nodes.contains(nodes[i]));
    assert(state.line_kept(nodes, i) == state.lines[j]);
    if given_ring(rings, i).len() > 0 {
        law_resized_line_keeps_its_samples(
            state.lines[j],
            asked_for(lens, i),
            given_ring(rings, i),
            channel,
            back,
        );
    }
}

/// An audio delay line that nobody writes starts silent, whatever lay in its place,
/// as long as a ring that comes with the program is silent.
pub proof fn law_an_unwritten_audio_line_is_silent(
    state: SoundModel,
    nodes: Seq<NodeId>,
    lens: Seq<usize>,
    rings: Seq<Seq<Sample>>,
    i: int,
)
    requires
        state.wf(),
        nodes.len() <= MAX_AUDIO_DELAY_LINES,
        distinct_writers(nodes),
        0 <= i < nodes.len(),
        nodes[i] == NO_NODE,
        forall|k: int|
            0 <= k < given_ring(rings, i).len() ==> #[trigger] given_ring(rings, i)[k]
                == Sample::silent(),
    ensures
        ({
            let line = state.adopted(nodes, lens, rings).lines[i];
            line.usable() ==> forall|k: int|
                0 <= k < line.ring.len() ==> #[trigger] line.ring[k] == Sample::silent()
        }),
{
    law_reorder_keeps_rings(state.lines, state.line_nodes, state.line_order, nodes, i);
    let kept = state.line_kept(nodes, i);
    assert(forall|k: int|
        0 <= k < kept.ring.len() ==> #[trigger] kept.ring[k] == Sample::silent());
}

/// Nothing is left in a line that a reset has emptied.
pub proof fn law_reset_empties_lines(state: SoundModel, line: int, channel: int, back: int)
    requires
        state.wf(),
        0 <= line < MAX_AUDIO_DELAY_LINES,
        state.lines[line].usable(),
        0 <= channel < MAX_CHANNELS,
    ensures
        state.forgotten().lines[line].usable(),
        state.forgotten().lines[line].back(channel, back) == Sample::silent(),
{
    let len = state.lines[line].len as int;
    let at = (0 - back) % len;
    assert(0 <= channel * len && channel * len + len <= MAX_CHANNELS * len) by (nonlinear_arith)
        requires
            0 <= channel < MAX_CHANNELS,
            0 < len,
    ;
    assert(0 <= at < len);
}

fn quiet(samples: &mut Vec<Sample>)
    ensures
        final(samples)@ == silence(old(samples)@.len()),
{
    let mut at: usize = 0;
    let size: usize = samples.len();
    while at < size
        invariant
            at <= size == samples@.len(),
            forall|i: int| 0 <= i < at ==> #[trigger] samples@[i] == Sample::silent(),
        decreases size - at,
    {
        samples[at] = Sample::silence();
        at += 1;
    }
    assert(samples@ =~= silence(size as nat));
}

fn clear_line(line: &mut AudioLine)
    ensures
        final(line)@ == old(line)@.cleared(),
{
    quiet(&mut line.ring);
    line.head = 0;
}

/// Moves a line into the ring another program brought for it.
fn resize_line(line: &mut AudioLine, len: usize, ring: &mut Vec<Sample>)
    requires
        old(line)@.wf(),
        MAX_CHANNELS * len <= usize::MAX,
    ensures
        final(line)@ == old(line)@.resized(len, old(ring)@),
        final(line)@.wf(),
        final(ring)@ == if old(ring)@.len() > 0 {
            old(line)@.ring
        } else {
            old(ring)@
        },
{
    let ghost before = line@;
    let ghost given = ring@;
    if ring.len() > 0 {
        std::mem::swap(&mut line.ring, ring);
        let mut head: usize = line.head;
        let was: usize = line.len;
        copy_ring(ring.as_slice(), was, line.ring.as_mut_slice(), len, &mut head);
        line.head = head;
        line.len = len;
        proof {
            if was > 0 && len > 0 {
                assert(line@ =~= before.resized(len, given));
                let keep = kept_of(was as nat, len as nat);
                assert((keep % (len as nat)) < len);
            } else {
                assert(line@ =~= before.resized(len, given));
            }
        }
    } else if line.len != len {
        line.len = 0;
    }
}

impl SoundState {
    pub fn new() -> (r: SoundState)
        ensures
            r@ == SoundModel::fresh(),
            r@.wf(),
    {
        let mut lines: Vec<AudioLine> = Vec::new();
        while lines.len() < MAX_AUDIO_DELAY_LINES
            invariant
                lines@.len() <= MAX_AUDIO_DELAY_LINES,
                forall|i: int| 0 <= i < lines@.len() ==> (#[trigger] lines@[i])@ == RingModel::empty(),
            decreases MAX_AUDIO_DELAY_LINES - lines@.len(),
        {
            let line: AudioLine = AudioLine { ring: Vec::new(), len: 0, head: 0 };
            assert(line@ =~= RingModel::empty());
            lines.push(line);
        }
        let state: SoundState = SoundState {
            pool: Vec::new(),
            stride: 0,
            daw_inputs: Vec::new(),
            lines,
            line_nodes: vec![NO_NODE; MAX_AUDIO_DELAY_LINES],
            line_order: vec![0; MAX_AUDIO_DELAY_LINES],
            tap_distance: vec![Real::not_set(); MAX_AUDIO_TAPS],
            compensators: Vec::new(),
            compensator_heads: vec![0; MAX_COMPENSATORS],
        };
        proof {
            assert(state@ =~= SoundModel::fresh());
            assert(MAX_BUFFERS * MAX_BUFFER_CHANNELS * 0 == 0) by (nonlinear_arith);
        }
        state
    }

    fn reset_taps(&mut self)
        requires
            old(self)@.wf(),
        ensures
            final(self)@ == (SoundModel {
                tap_distance: Seq::new(MAX_AUDIO_TAPS as nat, |i: int| Real::unset()),
                ..old(self)@
            }),
            final(self)@.wf(),
    {
        let ghost before = self@;
        self.tap_distance = vec![Real::not_set(); MAX_AUDIO_TAPS];
        assert(self@.tap_distance =~= Seq::new(MAX_AUDIO_TAPS as nat, |i: int| Real::unset()));
        assert(self@.lines == before.lines);
        assert(self@.compensator_heads == before.compensator_heads);
    }

    /// Sizes everything for blocks of up to `max_frames`.
    pub fn prepare(&mut self, max_frames: u32, daw_inputs: &[u16])
        requires
            old(self)@.wf(),
            MAX_BUFFERS * MAX_BUFFER_CHANNELS * max_frames <= usize::MAX,
        ensures
            final(self)@ == old(self)@.prepared(max_frames as usize, daw_inputs@),
            final(self)@.wf(),
    {
        let ghost before = self@;
        let stride: usize = max_frames as usize;
        proof {
            assert(MAX_BUFFERS * MAX_BUFFER_CHANNELS == 1024) by (nonlinear_arith);
            assert(MAX_COMPENSATORS * MAX_CHANNELS * MAX_COMPENSATION == 524288)
                by (nonlinear_arith);
        }
        let size: usize = 1024 * stride;
        self.stride = stride;
        self.pool = vec![Sample::silence(); size];
        self.daw_inputs = vstd::slice::slice_to_vec(daw_inputs);
        self.compensators = vec![Sample::silence(); 524288];
        self.compensator_heads = vec![0; MAX_COMPENSATORS];
        let ghost still = self@;
        assert(still.lines == before.lines);
        let mut at: usize = 0;
        while at < MAX_AUDIO_DELAY_LINES
            invariant
                at <= MAX_AUDIO_DELAY_LINES,
                before.wf(),
                still.lines == before.lines,
                self.lines@.len() == MAX_AUDIO_DELAY_LINES,
                self@ == (SoundModel { lines: self@.lines, ..still }),
                forall|i: int|
                    0 <= i < MAX_AUDIO_DELAY_LINES ==> (#[trigger] self.lines@[i])@ == if i < at {
                        RingModel { head: 0, ..before.lines[i] }
                    } else {
                        before.lines[i]
                    },
            decreases MAX_AUDIO_DELAY_LINES - at,
        {
            self.lines[at].head = 0;
            at += 1;
        }
        proof {
            let want = before.prepared(stride, daw_inputs@);
            assert(self@.lines =~= want.lines);
            assert(self@.pool =~= want.pool);
            assert(self@.compensators =~= want.compensators);
            assert(self@.compensator_heads =~= want.compensator_heads);
            assert(self@ =~= want);
            assert forall|i: int| 0 <= i < self@.lines.len() implies (#[trigger] self@.lines[i]).wf() by {
                assert(before.lines[i].wf());
            }
        }
    }

    /// Forgets every sample on its way somewhere. The rings are emptied, not only
    /// rewound: a read behind the head would find what was left in them.
    pub fn forget(&mut self)
        requires
            old(self)@.wf(),
        ensures
            final(self)@ == old(self)@.forgotten(),
            final(self)@.wf(),
    {
        let ghost before = self@;
        quiet(&mut self.pool);
        quiet(&mut self.compensators);
        self.compensator_heads = vec![0; MAX_COMPENSATORS];
        assert(self@.lines == before.lines);
        self.reset_taps();
        let ghost still = self@;
        assert(still.lines == before.lines);
        let mut at: usize = 0;
        while at < MAX_AUDIO_DELAY_LINES
            invariant
                at <= MAX_AUDIO_DELAY_LINES,
                before.wf(),
                still.lines == before.lines,
                self.lines@.len() == MAX_AUDIO_DELAY_LINES,
                self@ == (SoundModel { lines: self@.lines, ..still }),
                forall|i: int|
                    0 <= i < MAX_AUDIO_DELAY_LINES ==> (#[trigger] self.lines@[i])@ == if i < at {
                        before.lines[i].cleared()
                    } else {
                        before.lines[i]
                    },
            decreases MAX_AUDIO_DELAY_LINES - at,
        {
            clear_line(&mut self.lines[at]);
            at += 1;
        }
        proof {
            let want = before.forgotten();
            assert(self@.lines =~= want.lines);
            assert(self@.compensator_heads =~= want.compensator_heads);
            assert(self@.tap_distance =~= want.tap_distance);
            assert(self@ =~= want);
            assert forall|i: int| 0 <= i < self@.lines.len() implies (#[trigger] self@.lines[i]).wf() by {
                assert(before.lines[i].wf());
            }
        }
    }

    /// Where a read starts its sweep.
    pub fn sweep_start(&self, tap: usize, distance: Real) -> (r: Real)
        ensures
            r == self@.swept_from(tap as int, distance),
    {
        if tap < self.tap_distance.len() && self.tap_distance[tap].is_finite() {
            self.tap_distance[tap]
        } else {
            distance
        }
    }

    /// Notes where a read ended its sweep.
    pub fn sweep_end(&mut self, tap: usize, distance: Real)
        requires
            old(self)@.wf(),
        ensures
            final(self)@ == (SoundModel {
                tap_distance: if tap < MAX_AUDIO_TAPS {
                    old(self)@.tap_distance.update(tap as int, distance)
                } else {
                    old(self)@.tap_distance
                },
                ..old(self)@
            }),
            final(self)@.wf(),
    {
        let ghost before = self@;
        if tap < self.tap_distance.len() {
            self.tap_distance[tap] = distance;
        }
        assert(self@.lines == before.lines);
        assert(self@.compensator_heads == before.compensator_heads);
    }

    /// A sample of a delay line, `ahead` frames after its head or `back` before
    /// it.
    pub fn tap(&self, line: u16, channel: usize, ahead: usize, back: usize) -> (r: Sample)
        requires
            self@.wf(),
            line < MAX_AUDIO_DELAY_LINES,
            channel < MAX_CHANNELS,
            self@.lines[line as int].usable(),
        ensures
            r == self@.lines[line as int].back(channel as int, back - ahead),
    {
        let ghost held = self@.lines[line as int];
        assert(held == self.lines@[line as int]@);
        assert(held.wf());
        let len: usize = self.lines[line as usize].len;
        let head: usize = self.lines[line as usize].head;
        let a: usize = ahead % len;
        let b: usize = back % len;
        let forward: usize = if head + a >= len {
            head + a - len
        } else {
            head + a
        };
        let index: usize = if forward >= b {
            forward - b
        } else {
            forward + len - b
        };
        proof {
            let n = len as int;
            vstd::arithmetic::div_mod::lemma_add_mod_noop(head as int, ahead as int, n);
            vstd::arithmetic::div_mod::lemma_small_mod(head as nat, len as nat);
            lemma_wrap(head + a, n);
            assert(forward == (head + ahead) % n);
            vstd::arithmetic::div_mod::lemma_sub_mod_noop((head + ahead) as int, back as int, n);
            lemma_wrap_down(forward - b, n);
            assert(index == (head + ahead - back) % n);
            assert(head - (back - ahead) == head + ahead - back);
            assert(0 <= channel * n && channel * n + n <= MAX_CHANNELS * n) by (nonlinear_arith)
                requires
                    channel < MAX_CHANNELS,
                    0 < n,
            ;
        }
        self.lines[line as usize].ring[channel * len + index]
    }

    /// How many samples a channel of a delay line holds, or none if it cannot be
    /// read.
    pub fn line_len(&self, line: u16) -> (r: usize)
        requires
            self@.wf(),
            line < MAX_AUDIO_DELAY_LINES,
        ensures
            r == if self@.lines[line as int].usable() {
                self@.lines[line as int].len
            } else {
                0
            },
    {
        assert(self@.lines[line as int] == self.lines@[line as int]@);
        if self.is_usable(line as usize) {
            self.lines[line as usize].len
        } else {
            0
        }
    }
}

proof fn lemma_wrap(n: int, len: int)
    requires
        0 < len,
        0 <= n < 2 * len,
    ensures
        n % len == if n >= len {
            n - len
        } else {
            n
        },
{
    if n >= len {
        vstd::arithmetic::div_mod::lemma_mod_add_multiples_vanish(n - len, len);
        vstd::arithmetic::div_mod::lemma_small_mod((n - len) as nat, len as nat);
    } else {
        vstd::arithmetic::div_mod::lemma_small_mod(n as nat, len as nat);
    }
}

proof fn lemma_wrap_down(n: int, len: int)
    requires
        0 < len,
        -len < n < len,
    ensures
        n % len == if n >= 0 {
            n
        } else {
            n + len
        },
{
    if n >= 0 {
        vstd::arithmetic::div_mod::lemma_small_mod(n as nat, len as nat);
    } else {
        vstd::arithmetic::div_mod::lemma_mod_add_multiples_vanish(n, len);
        vstd::arithmetic::div_mod::lemma_small_mod((n + len) as nat, len as nat);
    }
}

proof fn lemma_settled_wf(rings: Seq<AudioLine>, order: Seq<usize>, lines: int, count: nat)
    requires
        0 <= count <= lines <= order.len(),
        rings.len() == order.len(),
        forall|i: int|
            0 <= i < lines ==> #[trigger] order[i] == NOT_PRESENT || order[i] < rings.len(),
        forall|i: int| 0 <= i < rings.len() ==> (#[trigger] rings[i])@.wf(),
    ensures
        ({
            let after = settle(Settling { rings, order }, lines, count);
            &&& forall|i: int| 0 <= i < after.rings.len() ==> (#[trigger] after.rings[i])@.wf()
        }),
    decreases count,
{
    if count > 0 {
        lemma_settled_wf(rings, order, lines, (count - 1) as nat);
        let f = |line: AudioLine| line@;
        lemma_settle_mapped(Settling { rings, order }, f, lines, (count - 1) as nat);
        let before = settle(Settling { rings, order }, lines, (count - 1) as nat);
        assert(before.order[count - 1] == NOT_PRESENT || before.order[count - 1]
            < before.rings.len());
    }
}

impl SoundState {
    /// Puts the lines in the order another program has them in.
    fn reorder_lines(&mut self, nodes: &Vec<NodeId>)
        requires
            old(self)@.wf(),
            nodes@.len() <= MAX_AUDIO_DELAY_LINES,
        ensures
            ({
                let settled = old(self)@.settled_lines(nodes@);
                &&& final(self)@ == (SoundModel {
                    lines: settled.rings,
                    line_order: settled.order,
                    line_nodes: Seq::new(
                        MAX_AUDIO_DELAY_LINES as nat,
                        |i: int|
                            if i < nodes@.len() {
                                nodes@[i]
                            } else {
                                NO_NODE
                            },
                    ),
                    ..old(self)@
                })
                &&& settled.order.len() == MAX_AUDIO_DELAY_LINES
            }),
            final(self)@.wf(),
    {
        let ghost before = self@;
        let ghost start = Settling {
            rings: self.lines@,
            order: asked(
                before.line_nodes,
                before.line_order,
                nodes@,
                lines_of(before.line_nodes, nodes@),
            ),
        };
        proof {
            let f = |line: AudioLine| line@;
            let lines = lines_of(before.line_nodes, nodes@);
            lemma_asked(before.line_nodes, before.line_order, nodes@);
            lemma_settle_mapped(start, f, lines, lines as nat);
            assert(start.rings.map_values(f) =~= before.lines);
            assert forall|i: int| 0 <= i < start.rings.len() implies (#[trigger] start.rings[i])@.wf() by {
                assert(before.lines[i] == start.rings[i]@);
            }
            lemma_settled_wf(start.rings, start.order, lines, lines as nat);
        }
        reorder(&mut self.lines, &mut self.line_nodes, &mut self.line_order, nodes.as_slice());
        proof {
            let f = |line: AudioLine| line@;
            assert(rings_view(self.lines@) =~= self.lines@.map_values(f));
            assert(self@.line_nodes =~= Seq::new(
                MAX_AUDIO_DELAY_LINES as nat,
                |i: int|
                    if i < nodes@.len() {
                        nodes@[i]
                    } else {
                        NO_NODE
                    },
            ));
            assert forall|i: int| 0 <= i < self@.lines.len() implies (#[trigger] self@.lines[i]).wf() by {
                assert(self@.lines[i] == self.lines@[i]@);
            }
        }
    }

    /// Takes over the delay lines that another program has in common with this
    /// one, contents intact, and leaves the rings they gave up in `rings`.
    #[verifier::rlimit(60)]
    pub fn adopt(&mut self, nodes: &Vec<NodeId>, lens: &Vec<usize>, rings: &mut Vec<Vec<Sample>>)
        requires
            old(self)@.wf(),
            nodes@.len() <= MAX_AUDIO_DELAY_LINES,
            forall|i: int|
                0 <= i < lens@.len() ==> MAX_CHANNELS * (#[trigger] lens@[i]) <= usize::MAX,
        ensures
            final(self)@ == old(self)@.adopted(nodes@, lens@, rings_of(old(rings)@)),
            final(self)@.wf(),
            rings_of(final(rings)@) == old(self)@.rings_left(nodes@, rings_of(old(rings)@)),
    {
        let ghost first = self@;
        let ghost given = rings_of(rings@);
        let ghost settled = first.settled_lines(nodes@);
        self.reorder_lines(nodes);
        let ghost still = self@;
        assert forall|i: int| 0 <= i < MAX_AUDIO_DELAY_LINES implies (#[trigger] self.lines@[i])@.wf() by {
            assert(still.lines[i] == self.lines@[i]@);
        }
        let mut at: usize = 0;
        while at < MAX_AUDIO_DELAY_LINES
            invariant
                at <= MAX_AUDIO_DELAY_LINES,
                nodes@.len() <= MAX_AUDIO_DELAY_LINES,
                still.wf(),
                still.lines == settled.rings,
                still.line_order == settled.order,
                settled.order.len() == MAX_AUDIO_DELAY_LINES,
                self.lines@.len() == MAX_AUDIO_DELAY_LINES,
                self@ == (SoundModel { lines: self@.lines, ..still }),
                rings@.len() == given.len(),
                forall|i: int|
                    0 <= i < lens@.len() ==> MAX_CHANNELS * (#[trigger] lens@[i]) <= usize::MAX,
                settled == first.settled_lines(nodes@),
                forall|i: int|
                    0 <= i < given.len() ==> (#[trigger] rings@[i])@ == if i < at && i
                        < nodes@.len() && given[i].len() > 0 {
                        first.line_kept(nodes@, i).ring
                    } else {
                        given[i]
                    },
                forall|i: int|
                    0 <= i < MAX_AUDIO_DELAY_LINES ==> (#[trigger] self.lines@[i])@ == if i >= at {
                        settled.rings[i]
                    } else if i < nodes@.len() {
                        first.line_kept(nodes@, i).resized(
                            asked_for(lens@, i),
                            given_ring(given, i),
                        )
                    } else {
                        RingModel { len: 0, ..settled.rings[i] }
                    },
                forall|i: int|
                    0 <= i < MAX_AUDIO_DELAY_LINES ==> (#[trigger] self.lines@[i])@.wf(),
            decreases MAX_AUDIO_DELAY_LINES - at,
        {
            assert(self.lines@[at as int]@ == settled.rings[at as int]);
            assert(self.lines@[at as int]@.wf());
            if at < nodes.len() {
                assert(self.line_order@[at as int] == settled.order[at as int]);
                if self.line_order[at] == NOT_PRESENT {
                    clear_line(&mut self.lines[at]);
                }
                let len: usize = if at < lens.len() {
                    lens[at]
                } else {
                    0
                };
                if at < rings.len() {
                    resize_line(&mut self.lines[at], len, &mut rings[at]);
                } else {
                    let mut none: Vec<Sample> = Vec::new();
                    assert(none@ =~= given_ring(given, at as int));
                    resize_line(&mut self.lines[at], len, &mut none);
                }
            } else {
                self.lines[at].len = 0;
                assert(self.lines@[at as int]@ =~= (RingModel {
                    len: 0,
                    ..settled.rings[at as int]
                }));
            }
            at += 1;
        }
        proof {
            assert forall|i: int| 0 <= i < self@.lines.len() implies (#[trigger] self@.lines[i]).wf() by {
                assert(self@.lines[i] == self.lines@[i]@);
            }
            assert(self@.wf());
        }
        self.reset_taps();
        proof {
            let want = first.adopted(nodes@, lens@, given);
            assert(self@.lines =~= want.lines);
            assert(self@.line_nodes =~= want.line_nodes);
            assert(self@.tap_distance =~= want.tap_distance);
            assert(self@ =~= want);
            assert(rings_of(rings@) =~= first.rings_left(nodes@, given));
        }
    }
}

} // verus!
