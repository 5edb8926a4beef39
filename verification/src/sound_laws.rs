//! What the operations of the audio half are for: which samples each leaves where, and what
//! it asks to have worked out.
use vstd::prelude::*;
use crate::audio_cx::{gather_fits, total_width, widths_of};
use crate::engine::EngineModel;
use crate::ir::{
    AudioStep, Buf, Folding, MixInput, MAX_AUDIO_DELAY_LINES, MAX_AUDIO_TAPS, MAX_BUFFERS,
    MAX_BUFFER_CHANNELS, MAX_CHANNELS, MAX_LATCHES,
};
use crate::number::{Real, Sample};
use crate::params::ParamsModel;
use crate::run::{
    answer_channel, daw_heard, sound_asks, sound_did, AudioAnswer, AudioTask, ChunkPlace,
};
use crate::sound::{
    bus_base, folds_of, heard_width, law_channels_lie_apart, law_line_plays_back, run_of, silence,
    Fold, SoundModel, Window,
};

verus! {

/// The channels of the first `count` buses together.
pub open spec fn channels_before(widths: Seq<u16>, count: nat) -> int
    decreases count,
{
    if count == 0 {
        0
    } else {
        channels_before(widths, (count - 1) as nat) + widths[count - 1]
    }
}

proof fn lemma_bus_base(widths: Seq<u16>, bus: nat, block: int)
    ensures
        bus_base(widths, bus, block) == channels_before(widths, bus) * block,
        channels_before(widths, bus) >= 0,
    decreases bus,
{
    if bus > 0 {
        lemma_bus_base(widths, (bus - 1) as nat, block);
        let a = channels_before(widths, (bus - 1) as nat);
        let b = widths[bus - 1] as int;
        assert((a + b) * block == a * block + b * block) by (nonlinear_arith);
    } else {
        assert(0 * block == 0) by (nonlinear_arith);
    }
}

proof fn lemma_taken_in(
    state: SoundModel,
    out: Buf,
    bus: u16,
    samples: Seq<Sample>,
    win: Window,
    count: nat,
    c: int,
)
    requires
        state.wf(),
        out < MAX_BUFFERS,
        win.fits(state.stride),
        bus < state.daw_inputs.len(),
        count <= MAX_CHANNELS,
        0 <= c < MAX_BUFFER_CHANNELS,
    ensures
        ({
            let after = state.taken_in(out, bus, samples, win, count);
            &&& after.wf()
            &&& after.stride == state.stride
            &&& after.daw_inputs == state.daw_inputs
            &&& c < count ==> after.channel(out, c, win) == if c < state.daw_inputs[bus as int] {
                run_of(
                    samples,
                    bus_base(state.daw_inputs, bus as nat, win.block as int) + c * win.block
                        + win.start,
                    win.frames as nat,
                )
            } else {
                silence(win.frames as nat)
            }
        }),
    decreases count,
{
    if count > 0 {
        lemma_taken_in(state, out, bus, samples, win, (count - 1) as nat, c);
        let before = state.taken_in(out, bus, samples, win, (count - 1) as nat);
        let channel = count - 1;
        let base = bus_base(state.daw_inputs, bus as nat, win.block as int);
        let chunk = if channel < state.daw_inputs[bus as int] {
            run_of(samples, base + channel * win.block + win.start, win.frames as nat)
        } else {
            silence(win.frames as nat)
        };
        law_channels_lie_apart(before, out, channel, win, chunk, out, c);
    }
}

/// A buffer that is filled from the host carries the channels of the host's bus: channel by
/// channel what lies there, and silence where the bus or the host has no more. The buses
/// lie one after the other, each channel as long as the block. A bus the host does not have
/// is silent.
pub proof fn law_an_input_carries_its_bus(
    state: SoundModel,
    out: Buf,
    bus: u16,
    widths: Seq<u16>,
    win: Window,
    daw_in: Seq<Sample>,
    c: int,
    i: int,
)
    requires
        state.wf(),
        out < MAX_BUFFERS,
        out < widths.len(),
        win.fits(state.stride),
        0 <= c < widths[out as int],
        c < MAX_CHANNELS,
        0 <= i < win.frames,
    ensures
        ({
            let after = sound_did(state, AudioStep::Input { out, bus }, widths, win, daw_in);
            let heard = after.channel(out, c, win)[i];
            if bus < state.daw_inputs.len() && c < state.daw_inputs[bus as int] {
                let at = (channels_before(state.daw_inputs, bus as nat) + c) * win.block
                    + win.start + i;
                heard == if at < daw_in.len() {
                    daw_in[at]
                } else {
                    Sample::silent()
                }
            } else {
                heard == Sample::silent()
            }
        }),
{
    if bus < state.daw_inputs.len() {
        lemma_taken_in(
            state,
            out,
            bus,
            daw_in,
            win,
            heard_width(widths[out as int]) as nat,
            c,
        );
        lemma_bus_base(state.daw_inputs, bus as nat, win.block as int);
        let a = channels_before(state.daw_inputs, bus as nat);
        let block = win.block as int;
        assert((a + c) * block == a * block + c * block) by (nonlinear_arith);
    } else {
        law_silence_is_silent(state, out, win, c);
    }
}

/// What is silenced is silent.
pub proof fn law_silence_is_silent(state: SoundModel, out: Buf, win: Window, c: int)
    requires
        state.wf(),
        out < MAX_BUFFERS,
        win.fits(state.stride),
        0 <= c < MAX_CHANNELS,
    ensures
        state.silenced(out, win).channel(out, c, win) == Seq::new(
            win.frames as nat,
            |i: int| Sample::silent(),
        ),
        state.silenced(out, win).wf(),
{
    let quiet = silence(win.frames as nat);
    let first = state.with_channel(out, 0, win, quiet);
    law_channels_lie_apart(state, out, 0, win, quiet, out, c);
    law_channels_lie_apart(first, out, 1, win, quiet, out, c);
}

proof fn lemma_handed_out(
    state: SoundModel,
    samples: Seq<Sample>,
    a: Buf,
    win: Window,
    count: nat,
    c: int,
    i: int,
)
    requires
        state.wf(),
        a < MAX_BUFFERS,
        win.fits(state.stride),
        count <= MAX_CHANNELS,
        0 <= c < count,
        0 <= i < win.frames,
        c * win.block + win.start + win.frames <= samples.len(),
    ensures
        state.handed_out(samples, a, win, count).len() == samples.len(),
        state.handed_out(samples, a, win, count)[c * win.block + win.start + i] == state.channel(
            a,
            c,
            win,
        )[i],
    decreases count,
{
    let before = state.handed_out(samples, a, win, (count - 1) as nat);
    lemma_handed_len(state, samples, a, win, (count - 1) as nat);
    crate::sound::lemma_place(state, a, c, win);
    if c < count - 1 {
        lemma_handed_out(state, samples, a, win, (count - 1) as nat, c, i);
        let block = win.block as int;
        assert(c * block + block <= (count - 1) * block) by (nonlinear_arith)
            requires
                c < count - 1,
                0 <= block,
        ;
    }
}

proof fn lemma_handed_len(
    state: SoundModel,
    samples: Seq<Sample>,
    a: Buf,
    win: Window,
    count: nat,
)
    ensures
        state.handed_out(samples, a, win, count).len() == samples.len(),
    decreases count,
{
    if count > 0 {
        lemma_handed_len(state, samples, a, win, (count - 1) as nat);
    }
}

/// What an output hands to the host is the buffer, channel by channel, each at its own
/// place in the block. Only the main output is ours: another bus hands over nothing.
pub proof fn law_an_output_hands_over_its_buffer(
    state: SoundModel,
    a: Buf,
    bus: u16,
    widths: Seq<u16>,
    win: Window,
    daw_out: Seq<Sample>,
    c: int,
    i: int,
)
    requires
        state.wf(),
        a < MAX_BUFFERS,
        a < widths.len(),
        win.fits(state.stride),
        0 <= c < widths[a as int],
        c < MAX_CHANNELS,
        0 <= i < win.frames,
        c * win.block + win.start + win.frames <= daw_out.len(),
    ensures
        ({
            let heard = daw_heard(state, AudioStep::Output { a, bus }, widths, win, daw_out);
            &&& heard.len() == daw_out.len()
            &&& bus == 0 ==> heard[c * win.block + win.start + i] == state.channel(a, c, win)[i]
            &&& bus != 0 ==> heard == daw_out
        }),
{
    lemma_handed_out(
        state,
        daw_out,
        a,
        win,
        heard_width(widths[a as int]) as nat,
        c,
        i,
    );
}

proof fn lemma_split(
    state: SoundModel,
    from: Buf,
    first: int,
    out: Buf,
    win: Window,
    count: nat,
    c: int,
    other: Buf,
)
    requires
        state.wf(),
        from < MAX_BUFFERS,
        out < MAX_BUFFERS,
        from != out,
        0 <= first,
        first + count <= MAX_BUFFER_CHANNELS,
        win.fits(state.stride),
        0 <= c < MAX_BUFFER_CHANNELS,
        other < MAX_BUFFERS,
    ensures
        ({
            let after = state.split(from, first, out, win, count);
            &&& after.wf()
            &&& after.stride == state.stride
            &&& c < count ==> after.channel(out, c, win) == state.channel(from, first + c, win)
            &&& other != out ==> after.channel(other, c, win) == state.channel(other, c, win)
        }),
    decreases count,
{
    if count > 0 {
        lemma_split(state, from, first, out, win, (count - 1) as nat, c, other);
        lemma_split(
            state,
            from,
            first,
            out,
            win,
            (count - 1) as nat,
            first + count - 1,
            from,
        );
        let before = state.split(from, first, out, win, (count - 1) as nat);
        let chunk = before.channel(from, first + count - 1, win);
        crate::sound::lemma_place(before, from, first + count - 1, win);
        law_channels_lie_apart(before, out, count - 1, win, chunk, out, c);
        law_channels_lie_apart(before, out, count - 1, win, chunk, other, c);
    }
}

/// A bus taken out of a plugin's output is that plugin's channels, from the bus's first on.
pub proof fn law_a_bus_is_taken_out_channel_by_channel(
    state: SoundModel,
    from: Buf,
    out: Buf,
    channel: u16,
    width: u16,
    widths: Seq<u16>,
    win: Window,
    daw_in: Seq<Sample>,
    c: int,
)
    requires
        state.wf(),
        from < MAX_BUFFERS,
        out < MAX_BUFFERS,
        from != out,
        channel + width <= MAX_BUFFER_CHANNELS,
        win.fits(state.stride),
        0 <= c < width,
    ensures
        sound_did(
            state,
            AudioStep::Split { from, out, channel, width },
            widths,
            win,
            daw_in,
        ).channel(out, c, win) == state.channel(from, channel + c, win),
{
    lemma_split(state, from, channel as int, out, win, width as nat, c, from);
}

proof fn lemma_bus_laid(
    state: SoundModel,
    out: Buf,
    base: int,
    from: Buf,
    have: u16,
    want: u16,
    win: Window,
    count: nat,
    other: Buf,
    c: int,
)
    requires
        state.wf(),
        out < MAX_BUFFERS,
        from < MAX_BUFFERS,
        other < MAX_BUFFERS,
        out != from,
        0 <= base,
        count <= want,
        base + want <= MAX_BUFFER_CHANNELS,
        have <= MAX_BUFFER_CHANNELS,
        win.fits(state.stride),
        0 <= c < MAX_BUFFER_CHANNELS,
    ensures
        ({
            let after = state.bus_laid(out, base, from, have, want, win, count);
            &&& after.wf()
            &&& after.stride == state.stride
            &&& other != out || c < base || c >= base + count ==> after.channel(other, c, win)
                == state.channel(other, c, win)
            &&& base <= c < base + count && !(want == 1 && have > 1) ==> after.channel(out, c, win)
                == if have == 1 && want > 1 {
                state.channel(from, 0, win)
            } else if c - base < have {
                state.channel(from, c - base, win)
            } else {
                silence(win.frames as nat)
            }
        }),
    decreases count,
{
    if count > 0 {
        let less = (count - 1) as nat;
        lemma_bus_laid(state, out, base, from, have, want, win, less, other, c);
        lemma_bus_laid(state, out, base, from, have, want, win, less, out, c);
        let before = state.bus_laid(out, base, from, have, want, win, less);
        let channel = count - 1;
        if !(want == 1 && have > 1) {
            let source = if have == 1 && want > 1 {
                0
            } else {
                channel
            };
            let chunk = if have == 1 && want > 1 || channel < have {
                before.channel(from, source, win)
            } else {
                silence(win.frames as nat)
            };
            if source < have {
                lemma_bus_laid(
                    state,
                    out,
                    base,
                    from,
                    have,
                    want,
                    win,
                    less,
                    from,
                    source as int,
                );
                crate::sound::lemma_place(before, from, source as int, win);
            }
            law_channels_lie_apart(before, out, base + channel, win, chunk, other, c);
            law_channels_lie_apart(before, out, base + channel, win, chunk, out, c);
        }
    }
}

proof fn lemma_before_is_sum(buses: Seq<(Buf, u16)>, count: nat)
    requires
        count <= buses.len(),
    ensures
        total_width(widths_of(buses).take(count as int)) == channels_before(
            widths_of(buses),
            count,
        ),
    decreases count,
{
    let widths = widths_of(buses);
    if count > 0 {
        lemma_before_is_sum(buses, (count - 1) as nat);
        assert(widths.take(count as int).drop_last() =~= widths.take(count - 1));
    } else {
        assert(widths.take(0).len() == 0);
    }
}

proof fn lemma_channels_before(widths: Seq<u16>, count: nat, more: nat)
    requires
        count <= more <= widths.len(),
    ensures
        0 <= channels_before(widths, count) <= channels_before(widths, more),
        count < more ==> channels_before(widths, count) + widths[count as int] <= channels_before(
            widths,
            more,
        ),
    decreases more,
{
    if count < more {
        lemma_channels_before(widths, count, (more - 1) as nat);
    } else if more > 0 {
        lemma_channels_before(widths, (count - 1) as nat, (more - 1) as nat);
    }
}

#[verifier::spinoff_prover]
proof fn lemma_gathered(
    state: SoundModel,
    out: Buf,
    buses: Seq<(Buf, u16)>,
    widths: Seq<u16>,
    win: Window,
    count: nat,
    other: Buf,
    c: int,
)
    requires
        state.wf(),
        count <= buses.len(),
        widths.len() <= MAX_BUFFERS,
        forall|i: int| 0 <= i < widths.len() ==> #[trigger] widths[i] <= MAX_BUFFER_CHANNELS,
        gather_fits(out, buses, widths.len()),
        win.fits(state.stride),
        other < MAX_BUFFERS,
        0 <= c < MAX_BUFFER_CHANNELS,
    ensures
        ({
            let after = state.gathered(out, buses, widths, win, count);
            &&& after.wf()
            &&& after.stride == state.stride
            &&& other != out || c >= channels_before(widths_of(buses), count) ==> after.channel(
                other,
                c,
                win,
            ) == state.channel(other, c, win)
        }),
    decreases count,
{
    if count > 0 {
        let less = (count - 1) as nat;
        let asked = widths_of(buses);
        lemma_gathered(state, out, buses, widths, win, less, other, c);
        lemma_before_is_sum(buses, less);
        lemma_before_is_sum(buses, buses.len());
        assert(asked.take(buses.len() as int) =~= asked);
        lemma_channels_before(asked, less, buses.len());
        let before = state.gathered(out, buses, widths, win, less);
        let (from, want) = buses[count - 1];
        assert(buses[count - 1].0 < widths.len());
        lemma_bus_laid(
            before,
            out,
            channels_before(asked, less),
            from,
            widths[from as int],
            want,
            win,
            want as nat,
            other,
            c,
        );
    }
}

#[verifier::spinoff_prover]
proof fn lemma_gathered_bus(
    state: SoundModel,
    out: Buf,
    buses: Seq<(Buf, u16)>,
    widths: Seq<u16>,
    win: Window,
    count: nat,
    b: int,
    c: int,
)
    requires
        state.wf(),
        0 <= b < count <= buses.len(),
        widths.len() <= MAX_BUFFERS,
        forall|i: int| 0 <= i < widths.len() ==> #[trigger] widths[i] <= MAX_BUFFER_CHANNELS,
        gather_fits(out, buses, widths.len()),
        win.fits(state.stride),
        0 <= c < buses[b].1,
    ensures
        ({
            let after = state.gathered(out, buses, widths, win, count);
            let (from, want) = buses[b];
            let have = widths[from as int];
            let at = channels_before(widths_of(buses), b as nat) + c;
            !(want == 1 && have > 1) ==> after.channel(out, at, win) == if have == 1 && want > 1 {
                state.channel(from, 0, win)
            } else if c < have {
                state.channel(from, c, win)
            } else {
                silence(win.frames as nat)
            }
        }),
    decreases count,
{
    let less = (count - 1) as nat;
    let asked = widths_of(buses);
    lemma_before_is_sum(buses, less);
    lemma_before_is_sum(buses, buses.len());
    assert(asked.take(buses.len() as int) =~= asked);
    lemma_channels_before(asked, less, buses.len());
    lemma_channels_before(asked, b as nat, buses.len());
    assert(buses[b].0 < widths.len());
    assert(buses[count - 1].0 < widths.len());
    let (from, want) = buses[b];
    let have = widths[from as int];
    let at = channels_before(asked, b as nat) + c;
    assert(0 <= at < MAX_BUFFER_CHANNELS);
    let before = state.gathered(out, buses, widths, win, less);
    lemma_gathered(state, out, buses, widths, win, less, out, at);
    let (last, wide) = buses[count - 1];
    lemma_bus_laid(
        before,
        out,
        channels_before(asked, less),
        last,
        widths[last as int],
        wide,
        win,
        wide as nat,
        out,
        at,
    );
    if b < count - 1 {
        lemma_gathered_bus(state, out, buses, widths, win, less, b, c);
        lemma_channels_before(asked, b as nat, less);
    } else {
        if have > 0 {
            lemma_gathered(state, out, buses, widths, win, less, from, 0);
        }
        if c < have {
            lemma_gathered(state, out, buses, widths, win, less, from, c);
        }
    }
}

/// Buses laid side by side follow one another, each at the width that is asked for: a mono
/// one spread over all its channels, a narrower one filled up with silence, any other
/// channel by channel. One of several channels that is asked for as one is left to be
/// folded.
pub proof fn law_buses_lie_side_by_side(
    state: SoundModel,
    out: Buf,
    buses: Seq<(Buf, u16)>,
    folding: Folding,
    widths: Seq<u16>,
    win: Window,
    daw_in: Seq<Sample>,
    b: int,
    c: int,
)
    requires
        state.wf(),
        0 <= b < buses.len(),
        widths.len() <= MAX_BUFFERS,
        forall|i: int| 0 <= i < widths.len() ==> #[trigger] widths[i] <= MAX_BUFFER_CHANNELS,
        gather_fits(out, buses, widths.len()),
        win.fits(state.stride),
        0 <= c < buses[b].1,
    ensures
        ({
            let after = sound_did(
                state,
                AudioStep::Gather { out, buses, folding },
                widths,
                win,
                daw_in,
            );
            let (from, want) = buses[b];
            let have = widths[from as int];
            let laid = after.channel(out, channels_before(widths_of(buses), b as nat) + c, win);
            &&& have == 1 && want > 1 ==> laid == state.channel(from, 0, win)
            &&& have != 1 && want != 1 && c < have ==> laid == state.channel(from, c, win)
            &&& have == 1 && want == 1 ==> laid == state.channel(from, 0, win)
            &&& have != 1 && want != 1 && c >= have ==> laid == Seq::new(
                win.frames as nat,
                |i: int| Sample::silent(),
            )
        }),
{
    lemma_gathered_bus(state, out, buses, widths, win, buses.len(), b, c);
}

proof fn lemma_folds(
    out: Buf,
    buses: Seq<(Buf, u16)>,
    widths: Seq<u16>,
    count: nat,
    b: int,
)
    requires
        0 <= b < count <= buses.len(),
        buses[b].1 == 1,
        widths[buses[b].0 as int] > 1,
    ensures
        folds_of(out, buses, widths, count).contains(
            Fold {
                out,
                channel: channels_before(widths_of(buses), b as nat) as u16,
                from: buses[b].0,
                width: widths[buses[b].0 as int],
            },
        ),
    decreases count,
{
    let fold = Fold {
        out,
        channel: channels_before(widths_of(buses), b as nat) as u16,
        from: buses[b].0,
        width: widths[buses[b].0 as int],
    };
    lemma_before_is_sum(buses, (count - 1) as nat);
    let list = folds_of(out, buses, widths, count);
    if b < count - 1 {
        lemma_folds(out, buses, widths, (count - 1) as nat, b);
        let before = folds_of(out, buses, widths, (count - 1) as nat);
        let i = choose|i: int| 0 <= i < before.len() && before[i] == fold;
        assert(list[i] == fold);
    } else {
        assert(list[list.len() - 1] == fold);
    }
}

/// A bus of several channels that is asked for as one is asked to be folded: all its
/// channels, into the channel it is given, in the way that was set.
pub proof fn law_a_wide_bus_is_folded_into_one_channel(
    state: SoundModel,
    params: ParamsModel,
    out: Buf,
    buses: Seq<(Buf, u16)>,
    folding: Folding,
    widths: Seq<u16>,
    place: ChunkPlace,
    rows: Seq<Vec<Real>>,
    b: int,
)
    requires
        0 <= b < buses.len(),
        buses[b].1 == 1,
        widths[buses[b].0 as int] > 1,
    ensures
        sound_asks(
            state,
            params,
            AudioStep::Gather { out, buses, folding },
            widths,
            place,
            rows,
        ) matches AudioTask::Fold { list, folding: how } && how == folding && list.contains(
            Fold {
                out,
                channel: channels_before(widths_of(buses), b as nat) as u16,
                from: buses[b].0,
                width: widths[buses[b].0 as int],
            },
        ),
{
    lemma_folds(out, buses, widths, buses.len(), b);
    let list = folds_of(out, buses, widths, buses.len());
    assert(list.len() > 0);
}

/// What is written to a delay line is what lies behind its head: so many frames back lies
/// the sample that was so many frames from the end of the chunk, each channel in its own
/// half of the ring. A channel that the buffer does not have is silent, and no other line
/// changes.
pub proof fn law_a_delay_line_takes_in_its_buffer(
    state: SoundModel,
    line: u16,
    a: Buf,
    widths: Seq<u16>,
    win: Window,
    daw_in: Seq<Sample>,
    back: int,
)
    requires
        state.wf(),
        line < MAX_AUDIO_DELAY_LINES,
        state.lines[line as int].usable(),
        a < MAX_BUFFERS,
        win.fits(state.stride),
        win.frames <= state.lines[line as int].len,
        0 < back <= win.frames,
    ensures
        ({
            let wrote = sound_did(state, AudioStep::DelayWrite { line, a }, widths, win, daw_in);
            let drained = sound_did(state, AudioStep::DelaySilence { line }, widths, win, daw_in);
            let i = win.frames - back;
            &&& widths[a as int] >= 1 ==> wrote.lines[line as int].back(0, back) == state.channel(
                a,
                0,
                win,
            )[i]
            &&& widths[a as int] >= 2 ==> wrote.lines[line as int].back(1, back) == state.channel(
                a,
                1,
                win,
            )[i]
            &&& widths[a as int] == 1 ==> wrote.lines[line as int].back(1, back)
                == Sample::silent()
            &&& drained.lines[line as int].back(0, back) == Sample::silent()
            &&& drained.lines[line as int].back(1, back) == Sample::silent()
            &&& forall|l: int|
                0 <= l < MAX_AUDIO_DELAY_LINES && l != line ==> #[trigger] wrote.lines[l]
                    == state.lines[l] && drained.lines[l] == state.lines[l]
            &&& wrote.pool == state.pool
            &&& drained.pool == state.pool
        }),
{
    crate::sound::lemma_place(state, a, 0, win);
    crate::sound::lemma_place(state, a, 1, win);
    let quiet = silence(win.frames as nat);
    let left = if 0 < widths[a as int] {
        state.channel(a, 0, win)
    } else {
        quiet
    };
    let right = if 1 < widths[a as int] {
        state.channel(a, 1, win)
    } else {
        quiet
    };
    assert(state.lines[line as int].wf());
    law_line_plays_back(state.lines[line as int], left, right, back);
    law_line_plays_back(state.lines[line as int], quiet, quiet, back);
}

/// A delay line is read at the time on its lane, or at its own where no lane reaches, and
/// never ahead of now. The reading stays behind the chunk by two samples and within the
/// line by four. A line there is nothing in is silent.
pub proof fn law_a_delay_is_read_at_its_time(
    state: SoundModel,
    params: ParamsModel,
    out: Buf,
    line: u16,
    lane: Option<u16>,
    time: Real,
    max_time: Real,
    widths: Seq<u16>,
    place: ChunkPlace,
    rows: Seq<Vec<Real>>,
    daw_in: Seq<Sample>,
)
    requires
        state.wf(),
        line < MAX_AUDIO_DELAY_LINES,
        place.win.fits(state.stride),
        place.win.frames + 2 <= usize::MAX,
        out < MAX_BUFFERS,
    ensures
        ({
            let step = AudioStep::DelayRead { out, line, lane, time, max_time };
            let ring = state.lines[line as int];
            let driven = lane is Some && place.row < rows.len() && lane->0
                < rows[place.row as int]@.len();
            let asked = if driven {
                rows[place.row as int]@[lane->0 as int]
            } else {
                time
            };
            &&& ring.usable() ==> (sound_asks(state, params, step, widths, place, rows) matches AudioTask::Read {
                out: to,
                line: of,
                width,
                tap,
                seconds,
                max_time: most,
                shortest,
                longest,
            } && {
                &&& to == out && of == line && tap == place.tap && most == max_time
                &&& !asked.nan() && asked.rank() > 0 ==> seconds == asked
                &&& asked.nan() || asked.rank() <= 0 ==> seconds.rank() == 0
                &&& shortest == place.win.frames + 2
                &&& ring.len >= 4 ==> longest == ring.len - 4
                &&& ring.len < 4 ==> longest == 0
            })
            &&& ring.usable() ==> sound_did(state, step, widths, place.win, daw_in) == state
            &&& !ring.usable() ==> sound_asks(state, params, step, widths, place, rows) is Nothing
            &&& !ring.usable() ==> sound_did(
                state,
                step,
                widths,
                place.win,
                daw_in,
            ).channel(out, 0, place.win) == Seq::new(
                place.win.frames as nat,
                |i: int| Sample::silent(),
            )
        }),
{
    law_silence_is_silent(state, out, place.win, 0);
}

/// A mix asks for the sum of its signals, each at the gain on its lane, or at its own where
/// no lane reaches. A mix of nothing is silent.
pub proof fn law_a_mix_sums_its_signals_at_their_gains(
    state: SoundModel,
    params: ParamsModel,
    out: Buf,
    inputs: Seq<MixInput>,
    widths: Seq<u16>,
    place: ChunkPlace,
    rows: Seq<Vec<Real>>,
    daw_in: Seq<Sample>,
    k: int,
)
    requires
        state.wf(),
        out < MAX_BUFFERS,
        place.win.fits(state.stride),
    ensures
        ({
            let step = AudioStep::Mix { out, inputs };
            let task = sound_asks(state, params, step, widths, place, rows);
            &&& 0 <= k < inputs.len() ==> (task matches AudioTask::Mix { out: to, parts, .. } && {
                let lane = inputs[k].lane;
                let driven = lane is Some && place.row < rows.len() && lane->0
                    < rows[place.row as int]@.len();
                &&& to == out
                &&& parts.len() == inputs.len()
                &&& parts[k].buf == inputs[k].buf
                &&& driven ==> parts[k].gain == rows[place.row as int]@[lane->0 as int]
                &&& !driven ==> parts[k].gain == inputs[k].gain
            })
            &&& inputs.len() == 0 ==> task is Nothing && sound_did(
                state,
                step,
                widths,
                place.win,
                daw_in,
            ).channel(out, 0, place.win) == Seq::new(
                place.win.frames as nat,
                |i: int| Sample::silent(),
            )
        }),
{
    law_silence_is_silent(state, out, place.win, 0);
}

/// A fade goes on from where it got to, towards its lane or its own gain, with its own times
/// for rising and falling; and where it gets to is where it goes on from.
pub proof fn law_a_fade_goes_on_from_where_it_got_to(
    model: EngineModel,
    out: Buf,
    a: Buf,
    kept: u16,
    lane: Option<u16>,
    gain: Real,
    rise: Real,
    fall: Real,
    widths: Seq<u16>,
    place: ChunkPlace,
    rows: Seq<Vec<Real>>,
    answer: AudioAnswer,
)
    requires
        model.params.wf(),
        kept < MAX_LATCHES,
    ensures
        ({
            let step = AudioStep::Fade { out, a, state: kept, lane, gain, rise, fall };
            let task = sound_asks(model.sound, model.params, step, widths, place, rows);
            let after = model.sound_answered(task, place.win, answer);
            &&& task matches AudioTask::Fade {
                out: to,
                a: signal,
                state: of,
                lane: by,
                from,
                gain: at,
                rise: up,
                fall: down,
                ..
            } && {
                &&& to == out && signal == a && of == kept && by == lane && at == gain
                &&& from == model.params.latches[kept as int].value
                &&& up == rise
                &&& down == fall
            }
            &&& after.params.latches[kept as int].value == answer.value
            &&& after.params.registers == model.params.registers
        }),
{
}

/// A plugin is called with its own instance, its buses and the notes that are wired to it,
/// and as many channels as its buses come to.
pub proof fn law_a_plugin_is_called_with_its_buses(
    state: SoundModel,
    params: ParamsModel,
    instance: usize,
    input: Buf,
    input_buses: Seq<u16>,
    output: Buf,
    output_buses: Seq<u16>,
    notes: Option<u16>,
    widths: Seq<u16>,
    place: ChunkPlace,
    rows: Seq<Vec<Real>>,
)
    requires
        total_width(input_buses) <= MAX_BUFFER_CHANNELS,
        total_width(output_buses) <= MAX_BUFFER_CHANNELS,
    ensures
        sound_asks(
            state,
            params,
            AudioStep::Plugin { instance, input, input_buses, output, output_buses, notes },
            widths,
            place,
            rows,
        ) matches AudioTask::Plugin { call } && {
            &&& call.instance == instance
            &&& call.input == input
            &&& call.input_buses == input_buses
            &&& call.output == output
            &&& call.output_buses == output_buses
            &&& call.notes == notes
            &&& call.input_width == channels_before(input_buses, input_buses.len())
            &&& call.output_width == channels_before(output_buses, output_buses.len())
        },
{
    lemma_total(input_buses);
    lemma_total(output_buses);
}

proof fn lemma_total(widths: Seq<u16>)
    ensures
        total_width(widths) == channels_before(widths, widths.len()),
    decreases widths.len(),
{
    if widths.len() > 0 {
        let front = widths.drop_last();
        lemma_total(front);
        lemma_same_before(front, widths, front.len());
    }
}

proof fn lemma_same_before(widths: Seq<u16>, more: Seq<u16>, count: nat)
    requires
        count <= widths.len() <= more.len(),
        forall|i: int| 0 <= i < widths.len() ==> #[trigger] more[i] == widths[i],
    ensures
        channels_before(widths, count) == channels_before(more, count),
    decreases count,
{
    if count > 0 {
        lemma_same_before(widths, more, (count - 1) as nat);
        assert(more[count - 1] == widths[count - 1]);
    }
}

proof fn lemma_channels_set(
    state: SoundModel,
    out: Buf,
    channels: Seq<Vec<Sample>>,
    win: Window,
    count: nat,
    c: int,
)
    requires
        state.wf(),
        out < MAX_BUFFERS,
        win.fits(state.stride),
        count <= MAX_BUFFER_CHANNELS,
        0 <= c < MAX_BUFFER_CHANNELS,
    ensures
        ({
            let after = state.channels_set(out, channels, win, count);
            &&& after.wf()
            &&& after.stride == state.stride
            &&& c < count ==> after.channel(out, c, win) == run_of(
                answer_channel(channels, c),
                0,
                win.frames as nat,
            )
            &&& c >= count ==> after.channel(out, c, win) == state.channel(out, c, win)
        }),
    decreases count,
{
    if count > 0 {
        lemma_channels_set(state, out, channels, win, (count - 1) as nat, c);
        let before = state.channels_set(out, channels, win, (count - 1) as nat);
        let chunk = run_of(answer_channel(channels, count - 1), 0, win.frames as nat);
        law_channels_lie_apart(before, out, count - 1, win, chunk, out, c);
    }
}

/// What a mix, a fade or a reading of a delay line comes to is what its buffer carries,
/// channel by channel.
pub proof fn law_answers_land_in_their_buffer(
    model: EngineModel,
    task: AudioTask,
    out: Buf,
    width: u16,
    win: Window,
    answer: AudioAnswer,
    c: int,
    i: int,
)
    requires
        model.sound.wf(),
        out < MAX_BUFFERS,
        width <= MAX_CHANNELS,
        win.fits(model.sound.stride),
        (task matches AudioTask::Mix { out: to, width: wide, .. } && to == out && wide == width) || (
        task matches AudioTask::Fade { out: to, width: wide, .. } && to == out && wide == width) || (
        task matches AudioTask::Read { out: to, width: wide, .. } && to == out && wide == width),
        0 <= c < width,
        0 <= i < win.frames,
    ensures
        ({
            let after = model.sound_answered(task, win, answer).sound;
            let channels = answer.channels@;
            &&& c < channels.len() && i < channels[c]@.len() ==> after.channel(out, c, win)[i]
                == channels[c]@[i]
            &&& c >= channels.len() || i >= channels[c]@.len() ==> after.channel(out, c, win)[i]
                == Sample::silent()
            &&& task matches AudioTask::Read { tap, .. } ==> (tap < MAX_AUDIO_TAPS
                ==> after.tap_distance[tap as int] == answer.value)
        }),
{
    lemma_channels_set(model.sound, out, answer.channels@, win, width as nat, c);
    let set = model.sound.channels_set(out, answer.channels@, win, width as nat);
    let after = model.sound_answered(task, win, answer).sound;
    assert(after.pool == set.pool);
    assert(after.stride == set.stride);
    assert(after.channel(out, c, win) == set.channel(out, c, win));
    lemma_taps(model.sound, out, answer.channels@, win, width as nat);
}

proof fn lemma_taps(
    state: SoundModel,
    out: Buf,
    channels: Seq<Vec<Sample>>,
    win: Window,
    count: nat,
)
    ensures
        state.channels_set(out, channels, win, count).tap_distance == state.tap_distance,
    decreases count,
{
    if count > 0 {
        lemma_taps(state, out, channels, win, (count - 1) as nat);
    }
}

proof fn lemma_unpacked(
    state: SoundModel,
    buf: Buf,
    samples: Seq<Sample>,
    win: Window,
    count: nat,
    c: int,
)
    requires
        state.wf(),
        buf < MAX_BUFFERS,
        win.fits(state.stride),
        count <= MAX_BUFFER_CHANNELS,
        0 <= c < count,
        samples.len() >= count * win.frames,
    ensures
        ({
            let after = state.unpacked(buf, samples, win, count);
            &&& after.channel(buf, c, win) == samples.subrange(
                c * win.frames,
                c * win.frames + win.frames,
            )
        }),
    decreases count,
{
    let frames = win.frames as int;
    let less = (count - 1) as nat;
    assert(0 <= (count - 1) * frames && (count - 1) * frames + frames == count * frames)
        by (nonlinear_arith)
        requires
            0 < count,
            0 <= frames,
    ;
    lemma_unpacked_wf(state, buf, samples, win, less);
    let before = state.unpacked(buf, samples, win, less);
    let chunk = samples.subrange((count - 1) * frames, count * frames);
    law_channels_lie_apart(before, buf, count - 1, win, chunk, buf, c);
    if c < count - 1 {
        lemma_unpacked(state, buf, samples, win, less, c);
    }
}

proof fn lemma_unpacked_wf(
    state: SoundModel,
    buf: Buf,
    samples: Seq<Sample>,
    win: Window,
    count: nat,
)
    requires
        state.wf(),
    ensures
        state.unpacked(buf, samples, win, count).wf(),
        state.unpacked(buf, samples, win, count).stride == state.stride,
    decreases count,
{
    if count > 0 {
        lemma_unpacked_wf(state, buf, samples, win, (count - 1) as nat);
    }
}

/// What a plugin hands back is taken apart channel by channel: its channels lie one after
/// the other, each as long as the chunk.
pub proof fn law_a_plugins_output_is_taken_apart(
    model: EngineModel,
    task: AudioTask,
    win: Window,
    answer: AudioAnswer,
    c: int,
    i: int,
)
    requires
        model.sound.wf(),
        win.fits(model.sound.stride),
        task matches AudioTask::Plugin { call } && call.output < MAX_BUFFERS && call.output_width
            <= MAX_BUFFER_CHANNELS && 0 <= c < call.output_width,
        0 <= i < win.frames,
        answer.channels@.len() > 0,
    ensures
        task matches AudioTask::Plugin { call } ==> {
            let after = model.sound_answered(task, win, answer).sound;
            let handed = answer.channels@[0]@;
            let at = c * win.frames + i;
            &&& at < handed.len() ==> after.channel(call.output, c, win)[i] == handed[at]
            &&& at >= handed.len() ==> after.channel(call.output, c, win)[i] == Sample::silent()
        },
{
    if let AudioTask::Plugin { call } = task {
        let count = call.output_width as nat;
        let frames = win.frames as int;
        assert(0 <= count * frames) by (nonlinear_arith)
            requires
                0 <= count,
                0 <= frames,
        ;
        let handed = run_of(
            answer_channel(answer.channels@, 0),
            0,
            (call.output_width * win.frames) as nat,
        );
        lemma_unpacked(model.sound, call.output, handed, win, count, c);
        assert(0 <= c * frames && c * frames + frames <= count * frames) by (nonlinear_arith)
            requires
                0 <= c < count,
                0 <= frames,
        ;
    }
}

/// A plugin's input is packed channel after channel, each as long as the chunk.
pub proof fn law_a_plugins_input_is_packed(
    state: SoundModel,
    buf: Buf,
    win: Window,
    count: nat,
    c: int,
    i: int,
)
    requires
        state.wf(),
        buf < MAX_BUFFERS,
        win.fits(state.stride),
        count <= MAX_BUFFER_CHANNELS,
        0 <= c < count,
        0 <= i < win.frames,
    ensures
        state.packed(buf, win, count).len() == count * win.frames,
        c * win.frames + i < count * win.frames,
        state.packed(buf, win, count)[c * win.frames + i] == state.channel(buf, c, win)[i],
    decreases count,
{
    let frames = win.frames as int;
    assert((count - 1) * frames + frames == count * frames && 0 <= (count - 1) * frames)
        by (nonlinear_arith)
        requires
            0 < count,
            0 <= frames,
    ;
    crate::sound::lemma_place(state, buf, count - 1, win);
    if count > 1 {
        law_a_plugins_input_is_packed(state, buf, win, (count - 1) as nat, if c < count - 1 {
            c
        } else {
            0
        }, i);
    } else {
        assert(state.packed(buf, win, 0).len() == 0);
        assert(0 * frames == 0) by (nonlinear_arith);
    }
    if c < count - 1 {
        assert(c * frames + frames <= (count - 1) * frames) by (nonlinear_arith)
            requires
                c < count - 1,
                0 <= frames,
        ;
    }
}

} // verus!
