//! What the operations of the parameter half are for: what each leaves in its register,
//! and what it asks to have worked out.
use vstd::prelude::*;
use crate::event::{Event, NoteEvent};
use crate::ir::{
    Buf, Detect, Follow, MathOp, Op, Operand, Rate, Reg, Waveform, MAX_DELAY_LINES, MAX_DELAY_TAPS,
    MAX_LATCHES, MAX_LFOS, MAX_REGISTERS,
};
use crate::note_state::{KeyTrack, NotesModel};
use crate::number::{law_counts_are_in_order, Real};
use crate::params::{
    keys_down, lanes_written, last_heard, law_line_gives_back, law_toggle_moves_on, Answer,
    ParamWork, ParamsModel,
};

verus! {

/// Two numbers are put to an operation in the order they are wired in: the first input on
/// the left, the second operand on the right. A difference is the first less the second, a
/// power the first raised to the second. What comes of it lands in the register of the
/// operation and nowhere else.
pub proof fn law_arithmetic_keeps_the_order_of_its_operands(
    state: ParamsModel,
    out: Reg,
    a: Reg,
    b: Operand,
    by: MathOp,
    slots: Seq<Real>,
    notes: NotesModel,
    result: Real,
)
    requires
        state.wf(),
        out < MAX_REGISTERS,
        a < MAX_REGISTERS,
        b matches Operand::Reg(reg) ==> reg < MAX_REGISTERS,
        by is Add || by is Subtract || by is Multiply,
    ensures
        ({
            let op = Op::Math { out, a, b, op: by };
            let work = state.asks(op, notes);
            let after = state.did(op, slots, notes).answered(work, Answer::Value(result));
            &&& work matches ParamWork::Math { out: to, a: left, b: right, by: kind } && {
                &&& to == out
                &&& left == state.registers[a as int]
                &&& b matches Operand::Reg(reg) ==> right == state.registers[reg as int]
                &&& b matches Operand::Value(number) ==> right == number
                &&& by is Add ==> kind is Sum
                &&& by is Subtract ==> kind is Difference
                &&& by is Multiply ==> kind is Product
            }
            &&& after.registers == state.registers.update(out as int, result)
            &&& after.latches == state.latches
            &&& after.lines == state.lines
            &&& after.lfos == state.lfos
        }),
{
}

/// A curve raises what is wired in, held between nought and one, to an exponent held
/// between a hundredth and a hundred. Numbers that lie there already are taken as they are.
pub proof fn law_a_curve_is_a_power(
    state: ParamsModel,
    out: Reg,
    a: Reg,
    b: Operand,
    slots: Seq<Real>,
    notes: NotesModel,
    result: Real,
)
    requires
        state.wf(),
        out < MAX_REGISTERS,
        a < MAX_REGISTERS,
        b matches Operand::Reg(reg) ==> reg < MAX_REGISTERS,
    ensures
        ({
            let op = Op::Math { out, a, b, op: MathOp::Curve };
            let work = state.asks(op, notes);
            let from = state.registers[a as int];
            let low = Real { bits: 0x3f84_7ae1_47ae_147b };
            let high = Real { bits: 0x4059_0000_0000_0000 };
            let exponent = match b {
                Operand::Reg(reg) => state.registers[reg as int],
                Operand::Value(number) => number,
            };
            &&& work matches ParamWork::Math { out: to, a: base, b: power, by: kind } && {
                &&& to == out
                &&& kind is Power
                &&& !from.nan() ==> 0 <= base.rank() <= Real::unit().rank()
                &&& !from.nan() && 0 <= from.rank() <= Real::unit().rank() ==> base == from
                &&& !from.nan() && from.rank() < 0 ==> base.rank() == 0
                &&& !from.nan() && from.rank() > Real::unit().rank() ==> base == Real::unit()
                &&& !exponent.nan() ==> low.rank() <= power.rank() <= high.rank()
                &&& !exponent.nan() && low.rank() <= exponent.rank() <= high.rank() ==> power
                    == exponent
                &&& !exponent.nan() && exponent.rank() < low.rank() ==> power == low
                &&& !exponent.nan() && exponent.rank() > high.rank() ==> power == high
            }
            &&& state.did(op, slots, notes).answered(work, Answer::Value(result)).registers
                == state.registers.update(out as int, result)
        }),
{
}

/// The smaller of two numbers is one of them and lies above neither; the larger is one of
/// them and lies below neither. Where one of the two is not a number, it is the other.
pub proof fn law_least_and_greatest(
    state: ParamsModel,
    out: Reg,
    a: Reg,
    b: Operand,
    slots: Seq<Real>,
    notes: NotesModel,
)
    requires
        state.wf(),
        out < MAX_REGISTERS,
        a < MAX_REGISTERS,
        b matches Operand::Reg(reg) ==> reg < MAX_REGISTERS,
    ensures
        ({
            let least = Op::Math { out, a, b, op: MathOp::Min };
            let greatest = Op::Math { out, a, b, op: MathOp::Max };
            let x = state.registers[a as int];
            let y = match b {
                Operand::Reg(reg) => state.registers[reg as int],
                Operand::Value(number) => number,
            };
            let low = state.did(least, slots, notes).registers[out as int];
            let high = state.did(greatest, slots, notes).registers[out as int];
            &&& state.asks(least, notes) is Nothing
            &&& state.asks(greatest, notes) is Nothing
            &&& low == x || low == y
            &&& high == x || high == y
            &&& !x.nan() && !y.nan() ==> {
                &&& low.rank() <= x.rank() && low.rank() <= y.rank()
                &&& high.rank() >= x.rank() && high.rank() >= y.rank()
            }
            &&& x.nan() ==> low == y && high == y
            &&& y.nan() && !x.nan() ==> low == x && high == x
        }),
{
}

/// The place of a value in one range is asked for in the other, with the ends where they
/// were set.
pub proof fn law_a_range_is_mapped_as_it_was_set(
    state: ParamsModel,
    out: Reg,
    a: Reg,
    in_lo: Real,
    in_hi: Real,
    out_lo: Real,
    out_hi: Real,
    clamp: bool,
    slots: Seq<Real>,
    notes: NotesModel,
    result: Real,
)
    requires
        state.wf(),
        out < MAX_REGISTERS,
        a < MAX_REGISTERS,
    ensures
        ({
            let op = Op::Range { out, a, in_lo, in_hi, out_lo, out_hi, clamp };
            let work = state.asks(op, notes);
            &&& work matches ParamWork::Range {
                out: to,
                value,
                in_lo: from_lo,
                in_hi: from_hi,
                out_lo: to_lo,
                out_hi: to_hi,
                clamp: held,
            } && {
                &&& to == out
                &&& value == state.registers[a as int]
                &&& from_lo == in_lo
                &&& from_hi == in_hi
                &&& to_lo == out_lo
                &&& to_hi == out_hi
                &&& held == clamp
            }
            &&& state.did(op, slots, notes).answered(work, Answer::Value(result)).registers
                == state.registers.update(out as int, result)
        }),
{
}

/// An oscillator turns from the phase it was left at, at the rate and in the shape it was
/// set to, and is left at the phase that came of it. A value is held anew only by a random
/// one that came round, and only then is a number drawn. No other oscillator moves.
pub proof fn law_an_oscillator_goes_on_from_its_phase(
    state: ParamsModel,
    out: Reg,
    lfo: u16,
    waveform: Waveform,
    rate: Rate,
    offset_phase: Real,
    depth: Real,
    centre: Real,
    slots: Seq<Real>,
    notes: NotesModel,
    value: Real,
    left: Real,
    drawn: Option<Real>,
)
    requires
        state.wf(),
        out < MAX_REGISTERS,
        lfo < MAX_LFOS,
    ensures
        ({
            let op = Op::Lfo { out, state: lfo, waveform, rate, offset_phase, depth, centre };
            let work = state.asks(op, notes);
            let after = state.did(op, slots, notes).answered(
                work,
                Answer::Wave { value, phase: left, hold: drawn },
            );
            &&& work matches ParamWork::Lfo {
                out: to,
                state: of,
                waveform: shape,
                rate: speed,
                offset_phase: ahead,
                depth: by,
                centre: around,
                phase,
                hold,
                draw,
            } && {
                &&& to == out && of == lfo
                &&& shape == waveform && speed == rate && ahead == offset_phase && by == depth
                    && around == centre
                &&& phase == state.lfos[lfo as int].phase
                &&& hold == state.lfos[lfo as int].hold
            }
            &&& after.registers == state.registers.update(out as int, value)
            &&& after.lfos[lfo as int].phase == left
            &&& after.lfos[lfo as int].node == state.lfos[lfo as int].node
            &&& waveform is Random ==> (drawn matches Some(next) ==> after.lfos[lfo as int].hold
                == next)
            &&& !(waveform is Random) || drawn is None ==> after.lfos[lfo as int].hold
                == state.lfos[lfo as int].hold && after.rng == state.rng
            &&& forall|i: int|
                0 <= i < MAX_LFOS && i != lfo ==> #[trigger] after.lfos[i] == state.lfos[i]
            &&& after.latches == state.latches
        }),
{
}

/// Each number drawn for a held value comes of the one before it: it is 1664525 times that,
/// and 1013904223 more, in what 32 bits hold.
pub proof fn law_draws_follow_one_another(
    state: ParamsModel,
    out: Reg,
    lfo: u16,
    rate: Rate,
    offset_phase: Real,
    depth: Real,
    centre: Real,
    slots: Seq<Real>,
    notes: NotesModel,
    value: Real,
    left: Real,
    held: Real,
)
    requires
        state.wf(),
        out < MAX_REGISTERS,
        lfo < MAX_LFOS,
    ensures
        ({
            let op = Op::Lfo {
                out,
                state: lfo,
                waveform: Waveform::Random,
                rate,
                offset_phase,
                depth,
                centre,
            };
            let work = state.asks(op, notes);
            let after = state.did(op, slots, notes).answered(
                work,
                Answer::Wave { value, phase: left, hold: Some(held) },
            );
            &&& work matches ParamWork::Lfo { draw, .. } && draw == after.rng
            &&& exists|rounds: int|
                after.rng == state.rng * 1664525 + 1013904223 - #[trigger] (rounds
                    * 0x1_0000_0000)
        }),
{
    let wide = state.rng * 1664525 + 1013904223;
    let rounds = wide / 0x1_0000_0000;
    assert(wide == rounds * 0x1_0000_0000 + wide % 0x1_0000_0000);
    assert(wide % 0x1_0000_0000 == wide - (rounds * 0x1_0000_0000));
}

/// A switch gives the upper value from the threshold on and the lower one below it; a
/// control that is not a number is below.
pub proof fn law_a_switch_turns_at_its_threshold(
    state: ParamsModel,
    out: Reg,
    control: Reg,
    threshold: Real,
    low: Operand,
    high: Operand,
    slots: Seq<Real>,
    notes: NotesModel,
)
    requires
        state.wf(),
        out < MAX_REGISTERS,
        control < MAX_REGISTERS,
    ensures
        ({
            let op = Op::Select { out, control, threshold, low, high };
            let at = state.registers[control as int];
            let given = state.did(op, slots, notes).registers[out as int];
            let reached = !at.nan() && !threshold.nan() && at.rank() >= threshold.rank();
            &&& state.asks(op, notes) is Nothing
            &&& reached && high is Reg ==> given == state.registers[high->Reg_0 as int]
            &&& reached && high is Value ==> given == high->Value_0
            &&& !reached && low is Reg ==> given == state.registers[low->Reg_0 as int]
            &&& !reached && low is Value ==> given == low->Value_0
        }),
{
}

/// A constant gives its number, and a slot what the host has in that slot.
pub proof fn law_constants_and_slots(
    state: ParamsModel,
    out: Reg,
    value: Real,
    slot: u16,
    slots: Seq<Real>,
    notes: NotesModel,
)
    requires
        state.wf(),
        out < MAX_REGISTERS,
    ensures
        state.did(Op::Const { out, value }, slots, notes).registers[out as int] == value,
        slot < slots.len() ==> state.did(Op::Slot { out, slot }, slots, notes).registers[out as int]
            == slots[slot as int],
        slot >= slots.len() ==> state.did(
            Op::Slot { out, slot },
            slots,
            notes,
        ).registers[out as int].rank() == 0,
{
}

/// What is written to a delay line is what a read one sub-block back gives, and each
/// further value written puts it one further back. The other lines stay as they are.
pub proof fn law_a_delay_gives_back_what_was_written(
    state: ParamsModel,
    line: u16,
    a: Reg,
    out: Reg,
    time: Real,
    time_reg: Option<Reg>,
    back: usize,
    slots: Seq<Real>,
    notes: NotesModel,
    more: Seq<Real>,
)
    requires
        state.wf(),
        line < MAX_DELAY_LINES,
        a < MAX_REGISTERS,
        out < MAX_REGISTERS,
        time_reg matches Some(reg) ==> reg < MAX_REGISTERS,
        1 <= back < MAX_DELAY_TAPS,
    ensures
        ({
            let wrote = state.did(Op::DelayWrite { line, a }, slots, notes);
            let read = Op::DelayRead { out, line, time, time_reg };
            let work = wrote.asks(read, notes);
            let given = |taps: usize|
                wrote.answered(work, Answer::Taps(Some(taps))).registers[out as int];
            &&& work matches ParamWork::Taps { out: to, line: from, time: asked } && {
                &&& to == out
                &&& from == line
                &&& time_reg is None ==> asked == time
                &&& time_reg matches Some(reg) ==> {
                    let wired = state.registers[reg as int];
                    &&& !wired.nan() && wired.rank() > 0 ==> asked == wired
                    &&& wired.nan() || wired.rank() <= 0 ==> asked.rank() == 0
                }
            }
            &&& given(1) == state.registers[a as int]
            &&& given(0) == state.registers[a as int]
            &&& back < MAX_DELAY_TAPS - 1 ==> given((back + 1) as usize) == state.answered(
                ParamWork::Taps { out, line, time },
                Answer::Taps(Some(back)),
            ).registers[out as int]
            &&& forall|i: int|
                0 <= i < MAX_DELAY_LINES && i != line ==> #[trigger] wrote.lines[i]
                    == state.lines[i]
            &&& wrote.registers == state.registers
        }),
{
    let value = state.registers[a as int];
    let before = state.lines[line as int];
    assert(before.wf());
    let wrote = state.did(Op::DelayWrite { line, a }, slots, notes);
    assert(wrote.lines[line as int] == before.pushed(value));
    assert(before.written(seq![value].drop_last()) == before) by {
        assert(seq![value].drop_last() =~= Seq::<Real>::empty());
    }
    law_line_gives_back(before, seq![value], 1);
    assert(before.pushed(value).back(1) == value);
    if back < MAX_DELAY_TAPS - 1 {
        let size = MAX_DELAY_TAPS as int;
        let after = before.pushed(value);
        assert((after.head + size - (back + 1)) % size == (before.head + size - back) % size);
        assert((before.head + size - back) % size != before.head);
        assert(after.back(back + 1) == before.back(back as int));
    }
}

/// A follower asks for the level of its own buffer, from where it stands, with its own
/// times and its own way of measuring; what comes of it is where it stands from then on.
pub proof fn law_a_follower_keeps_its_times(
    state: ParamsModel,
    out: Reg,
    buf: Buf,
    latch: u16,
    detect: Detect,
    attack: Real,
    release: Real,
    slots: Seq<Real>,
    notes: NotesModel,
    level: Real,
)
    requires
        state.wf(),
        out < MAX_REGISTERS,
        latch < MAX_LATCHES,
    ensures
        ({
            let op = Op::Follow { out, buf, state: latch, detect, attack, release };
            let work = state.asks(op, notes);
            let after = state.did(op, slots, notes).answered(work, Answer::Value(level));
            let stood = state.latches[latch as int].value;
            &&& work matches ParamWork::Level {
                out: to,
                state: of,
                buf: heard,
                detect: how,
                held,
                attack: up,
                release: down,
            } && {
                &&& to == out && of == latch && heard == buf && how == detect
                &&& up == attack
                &&& down == release
                &&& stood.finite() ==> held == stood
                &&& !stood.finite() ==> held.rank() == 0
            }
            &&& after.registers == state.registers.update(out as int, level)
            &&& after.latches[latch as int].value == level
            &&& after.latches[latch as int].node == state.latches[latch as int].node
        }),
{
}

/// A reading of a note buffer gives the velocity the buffer stands at, whether any note is
/// down, or how many keys are. Where the last key lies is asked for; with no key yet it is
/// the middle of the keyboard.
pub proof fn law_notes_are_read_as_parameters(
    state: ParamsModel,
    out: Reg,
    buf: u16,
    latch: u16,
    slots: Seq<Real>,
    notes: NotesModel,
    result: Real,
)
    requires
        state.wf(),
        out < MAX_REGISTERS,
        latch < MAX_LATCHES,
        buf < notes.bufs.len(),
    ensures
        ({
            let played = notes.bufs[buf as int].played;
            let read = |what: Follow|
                state.did(
                    Op::NoteFollow { out, buf, state: latch, what },
                    slots,
                    notes,
                ).registers[out as int];
            let asked = |what: Follow|
                state.asks(Op::NoteFollow { out, buf, state: latch, what }, notes);
            &&& read(Follow::Velocity) == played.velocity
            &&& asked(Follow::Velocity) is Nothing
            &&& played.count == 0 ==> read(Follow::Gate).rank() == 0
            &&& played.count > 0 ==> read(Follow::Gate) == Real::unit()
            &&& asked(Follow::Gate) is Nothing
            &&& played.key is Centre ==> read(Follow::KeyTrack) == Real::halved()
                && asked(Follow::KeyTrack) is Nothing
            &&& played.key matches KeyTrack::Key(key) ==> {
                let work = asked(Follow::KeyTrack);
                let after = state.answered(work, Answer::Value(result));
                &&& work == (ParamWork::Track { out, state: latch, key })
                &&& after.registers == state.registers.update(out as int, result)
                &&& after.latches[latch as int].value == result
            }
            &&& asked(Follow::HeldKeys) is Nothing
            &&& read(Follow::HeldKeys) == Real::counted(
                Set::new(|key: int| 0 <= key < 128 && down_bit(played.held, key)).len(),
            )
        }),
{
    lemma_keys_down(notes.bufs[buf as int].played.held, 128);
}

/// Whether a key's bit is set.
pub open spec fn down_bit(table: u128, key: int) -> bool {
    table & (1u128 << (key as u128)) != 0
}

/// The keys that are counted are those whose bit is set.
proof fn lemma_keys_down(table: u128, count: nat)
    requires
        count <= 128,
    ensures
        Set::new(|key: int| 0 <= key < count && down_bit(table, key)).finite(),
        Set::new(|key: int| 0 <= key < count && down_bit(table, key)).len() == keys_down(
            table,
            count,
        ),
    decreases count,
{
    let all = Set::new(|key: int| 0 <= key < count && down_bit(table, key));
    if count == 0 {
        assert(all =~= Set::<int>::empty());
    } else {
        lemma_keys_down(table, (count - 1) as nat);
        let below = Set::new(|key: int| 0 <= key < count - 1 && down_bit(table, key));
        if down_bit(table, count - 1) {
            assert(all =~= below.insert(count - 1));
        } else {
            assert(all =~= below);
        }
    }
}

/// Whether an event tells where a controller stands, on a channel that is listened to.
pub open spec fn tells(event: Event, channel: i16, cc: u8) -> bool {
    event matches Event::Note(NoteEvent::Cc { channel: on, cc: number, .. }) && number == cc && (
    channel < 0 || channel == on)
}

proof fn lemma_last_heard(events: Seq<Event>, channel: i16, cc: u8, count: nat, i: int)
    requires
        count <= events.len(),
        0 <= i < count,
        tells(events[i], channel, cc),
        forall|j: int| i < j < count ==> !tells(#[trigger] events[j], channel, cc),
    ensures
        last_heard(events, channel, cc, count) matches Some(value) && events[i] matches Event::Note(
            NoteEvent::Cc { value: sent, .. },
        ) && value == sent,
    decreases count,
{
    if i < count - 1 {
        assert(!tells(events[count - 1], channel, cc));
        lemma_last_heard(events, channel, cc, (count - 1) as nat, i);
    }
}

proof fn lemma_none_heard(events: Seq<Event>, channel: i16, cc: u8, count: nat)
    requires
        count <= events.len(),
        forall|j: int| 0 <= j < count ==> !tells(#[trigger] events[j], channel, cc),
    ensures
        last_heard(events, channel, cc, count) is None,
    decreases count,
{
    if count > 0 {
        assert(!tells(events[count - 1], channel, cc));
        lemma_none_heard(events, channel, cc, (count - 1) as nat);
    }
}

/// A controller is read where the last event of its number, on a channel that is listened
/// to, has put it. With no such event it stays where it stood, and one that never was
/// anywhere stands where it starts.
pub proof fn law_a_controller_stands_where_it_was_put(
    state: ParamsModel,
    out: Reg,
    buf: u16,
    latch: u16,
    channel: i16,
    cc: u8,
    initial: Real,
    slots: Seq<Real>,
    notes: NotesModel,
    i: int,
)
    requires
        state.wf(),
        out < MAX_REGISTERS,
        latch < MAX_LATCHES,
        buf < notes.bufs.len(),
    ensures
        ({
            let events = notes.bufs[buf as int].events;
            let op = Op::NoteCc { out, buf, state: latch, channel, cc, initial };
            let after = state.did(op, slots, notes);
            let stood = state.latches[latch as int].value;
            &&& 0 <= i < events.len() && tells(events[i], channel, cc) && (forall|j: int|
                i < j < events.len() ==> !tells(#[trigger] events[j], channel, cc))
                ==> (events[i] matches Event::Note(NoteEvent::Cc { value, .. }) ==> !value.nan()
                ==> after.registers[out as int] == value && after.latches[latch as int].value
                == value)
            &&& (forall|j: int|
                0 <= j < events.len() ==> !tells(#[trigger] events[j], channel, cc)) ==> {
                &&& after.latches == state.latches
                &&& after.registers[out as int] == if stood.nan() {
                    initial
                } else {
                    stood
                }
            }
        }),
{
    let events = notes.bufs[buf as int].events;
    if 0 <= i < events.len() && tells(events[i], channel, cc) && (forall|j: int|
        i < j < events.len() ==> !tells(#[trigger] events[j], channel, cc)) {
        lemma_last_heard(events, channel, cc, events.len(), i);
    }
    if forall|j: int| 0 <= j < events.len() ==> !tells(#[trigger] events[j], channel, cc) {
        lemma_none_heard(events, channel, cc, events.len());
    }
}

/// Whether a key's bit is set in the table of those struck, on a buffer there is.
pub open spec fn is_struck_bit(notes: NotesModel, buf: u16, key: u8) -> bool {
    &&& buf < notes.bufs.len()
    &&& key < 128
    &&& down_bit(notes.bufs[buf as int].played.struck, key as int)
}

/// Of keys that choose, the one struck sets the latch to its own value, and one that is
/// not struck leaves it.
pub proof fn law_a_struck_key_chooses(
    state: ParamsModel,
    latch: u16,
    buf: u16,
    key: u8,
    value: Real,
    slots: Seq<Real>,
    notes: NotesModel,
)
    requires
        state.wf(),
        latch < MAX_LATCHES,
    ensures
        ({
            let op = Op::KeyLatch { state: latch, buf, key, value };
            let after = state.did(op, slots, notes);
            &&& is_struck_bit(notes, buf, key) ==> after.latches[latch as int].value == value
            &&& !is_struck_bit(notes, buf, key) ==> after.latches == state.latches
            &&& forall|i: int|
                0 <= i < MAX_LATCHES && i != latch ==> #[trigger] after.latches[i]
                    == state.latches[i]
            &&& after.registers == state.registers
        }),
{
}

/// Striking the key of a toggle moves it from one position to the one after it, and from
/// the last back to the first.
pub proof fn law_a_toggle_counts_up(
    state: ParamsModel,
    latch: u16,
    buf: u16,
    key: u8,
    at: nat,
    count: u8,
    slots: Seq<Real>,
    notes: NotesModel,
)
    requires
        state.wf(),
        latch < MAX_LATCHES,
        at < count,
        state.latches[latch as int].value == Real::counted(at),
    ensures
        ({
            let after = state.did(Op::KeyStep { state: latch, buf, key, count }, slots, notes);
            let value = after.latches[latch as int].value;
            &&& is_struck_bit(notes, buf, key) && at + 1 < count ==> value == Real::counted(at + 1)
            &&& is_struck_bit(notes, buf, key) && at + 1 == count ==> value == Real::counted(0)
            &&& !is_struck_bit(notes, buf, key) ==> value == Real::counted(at)
        }),
{
    if at > 0 {
        law_counts_are_in_order(0, at);
    } else {
        law_counts_are_in_order(0, 1);
    }
    law_toggle_moves_on(state, latch, buf, key, at, count, slots, notes);
    if at + 1 < count {
        law_counts_are_in_order(at, at + 1);
    }
    let after = state.did(Op::KeyStep { state: latch, buf, key, count }, slots, notes);
    if is_struck_bit(notes, buf, key) {
        let next = if at + 1 < count {
            at + 1
        } else {
            0
        };
        if next > 0 {
            law_counts_are_in_order(0, next);
        }
    }
}

/// A latch is read as it stands; one that nothing has set reads as its start. Asked
/// whether it stands at a value, it is one where the two are the same number and nought
/// where they differ.
pub proof fn law_a_latch_is_read_as_it_stands(
    state: ParamsModel,
    out: Reg,
    latch: u16,
    value: Real,
    initial: Real,
    slots: Seq<Real>,
    notes: NotesModel,
)
    requires
        state.wf(),
        out < MAX_REGISTERS,
        latch < MAX_LATCHES,
        !value.nan(),
        !initial.nan(),
    ensures
        ({
            let stood = state.latches[latch as int].value;
            let at = if stood.nan() {
                initial
            } else {
                stood
            };
            let read = state.did(Op::Latch { out, state: latch, initial }, slots, notes);
            let asked = state.did(Op::LatchIs { out, state: latch, value, initial }, slots, notes);
            &&& read.registers[out as int] == at
            &&& at.rank() == value.rank() ==> asked.registers[out as int] == Real::unit()
            &&& at.rank() != value.rank() ==> asked.registers[out as int].rank() == 0
            &&& read.latches == state.latches
            &&& asked.latches == state.latches
        }),
{
}

/// A key that is down reads as one, and one that is up as nought.
pub proof fn law_a_held_key_reads_as_one(
    state: ParamsModel,
    out: Reg,
    buf: u16,
    key: u8,
    slots: Seq<Real>,
    notes: NotesModel,
)
    requires
        state.wf(),
        out < MAX_REGISTERS,
    ensures
        ({
            let read = state.did(
                Op::KeyHeld { out, buf, key },
                slots,
                notes,
            ).registers[out as int];
            let down = buf < notes.bufs.len() && key < 128 && down_bit(
                notes.bufs[buf as int].played.held,
                key as int,
            );
            &&& down ==> read == Real::unit()
            &&& !down ==> read.rank() == 0
        }),
{
}

/// A lane carries what the register that drives it holds, of several the last: held
/// between nought and one on a lane of the host, as it is on the others, and nought where
/// that is no finite number.
pub proof fn law_a_lane_carries_its_register(
    slots: Seq<Real>,
    outputs: Seq<(u16, Reg)>,
    registers: Seq<Real>,
    base: u16,
    i: int,
)
    requires
        0 <= i < outputs.len(),
        outputs[i].0 < slots.len(),
        forall|j: int| i < j < outputs.len() ==> (#[trigger] outputs[j]).0 != outputs[i].0,
    ensures
        ({
            let (lane, reg) = outputs[i];
            let value = registers[reg as int];
            let carried = lanes_written(
                slots,
                outputs,
                registers,
                base,
                outputs.len(),
            )[lane as int];
            &&& !value.finite() ==> carried.rank() == 0
            &&& value.finite() && lane >= base ==> carried == value
            &&& value.finite() && lane < base ==> {
                &&& value.rank() < 0 ==> carried.rank() == 0
                &&& 0 <= value.rank() <= Real::unit().rank() ==> carried == value
                &&& value.rank() > Real::unit().rank() ==> carried == Real::unit()
            }
        }),
{
    lemma_lane_carries(slots, outputs, registers, base, i, outputs.len());
}

proof fn lemma_lane_carries(
    slots: Seq<Real>,
    outputs: Seq<(u16, Reg)>,
    registers: Seq<Real>,
    base: u16,
    i: int,
    count: nat,
)
    requires
        0 <= i < outputs.len(),
        count <= outputs.len(),
        outputs[i].0 < slots.len(),
        forall|j: int| i < j < outputs.len() ==> (#[trigger] outputs[j]).0 != outputs[i].0,
    ensures
        lanes_written(slots, outputs, registers, base, count).len() == slots.len(),
        i < count ==> lanes_written(slots, outputs, registers, base, count)[outputs[i].0 as int]
            == crate::params::landed(registers[outputs[i].1 as int], outputs[i].0, base),
    decreases count,
{
    if count > 0 {
        lemma_lane_carries(slots, outputs, registers, base, i, (count - 1) as nat);
    }
}

} // verus!
