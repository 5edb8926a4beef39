//! What becomes of the notes on a wire: what a buffer stands at after some events, and
//! which events a node hands on.
use vstd::prelude::*;
use crate::event::{Event, NoteEvent};
use crate::ir::{NoteOp, MAX_NOTE_BUFS, MAX_NOTE_EMITS, NOTE_BUF_CAPACITY};
use crate::nodes::NodeKind;
use crate::note_kinds::{channel_mask, key_mask, law_key_mask, law_split_divides};
use crate::note_state::{
    first_from, followed, heard_all, kept, law_held_is_down, window, KeyTrack, NoteInput,
    NotesModel, Played,
};
use crate::number::Real;

verus! {

/// Whether an event starts a note.
pub open spec fn starts(event: Event) -> bool {
    event matches Event::Note(NoteEvent::NoteOn { .. })
}

/// Whether an event is a note-off.
pub open spec fn ends(event: Event) -> bool {
    event matches Event::Note(NoteEvent::NoteOff { .. })
}

/// After any run of events the velocity and the key stand at those of the last note-on
/// among them. Note-offs, ends of voices and controllers leave both alone, so with no
/// note-on they stay where they were.
pub proof fn law_velocity_and_key_are_the_last_note_ons(
    before: Played,
    events: Seq<Event>,
    i: int,
)
    ensures
        0 <= i < events.len() && starts(events[i]) && (forall|j: int|
            i < j < events.len() ==> !starts(#[trigger] events[j])) ==> (events[i] matches Event::Note(
            NoteEvent::NoteOn { key, velocity, .. },
        ) ==> {
            let after = heard_all(before, events);
            &&& after.velocity == velocity
            &&& after.key matches KeyTrack::Key(at) && {
                &&& 0 <= key <= 127 ==> at == key
                &&& key < 0 ==> at == 0
                &&& key > 127 ==> at == 127
            }
        }),
        (forall|j: int| 0 <= j < events.len() ==> !starts(#[trigger] events[j])) ==> heard_all(
            before,
            events,
        ).velocity == before.velocity && heard_all(before, events).key == before.key,
    decreases events.len(),
{
    if events.len() > 0 {
        let front = events.drop_last();
        law_velocity_and_key_are_the_last_note_ons(before, front, i);
        assert forall|j: int| 0 <= j < front.len() implies events[j] == #[trigger] front[j] by {}
        if forall|j: int| 0 <= j < events.len() ==> !starts(#[trigger] events[j]) {
            assert forall|j: int| 0 <= j < front.len() implies !starts(#[trigger] front[j]) by {
                assert(!starts(events[j]));
            }
            assert(!starts(events[events.len() - 1]));
        }
        if 0 <= i < events.len() && starts(events[i]) && (forall|j: int|
            i < j < events.len() ==> !starts(#[trigger] events[j])) {
            if i < events.len() - 1 {
                assert(!starts(events[events.len() - 1]));
                assert forall|j: int| i < j < front.len() implies !starts(#[trigger] front[j]) by {
                    assert(!starts(events[j]));
                }
            }
        }
    }
}

/// A note-on is one more note down and a note-off one fewer, never fewer than none. No
/// other event changes how many there are.
pub proof fn law_notes_are_counted(before: Played, events: Seq<Event>, event: Event)
    ensures
        ({
            let was = heard_all(before, events).count;
            let is = heard_all(before, events.push(event)).count;
            &&& starts(event) && was < u32::MAX ==> is == was + 1
            &&& starts(event) && was == u32::MAX ==> is == was
            &&& ends(event) && was > 0 ==> is == was - 1
            &&& ends(event) && was == 0 ==> is == 0
            &&& !starts(event) && !ends(event) ==> is == was
        }),
{
    assert(events.push(event).drop_last() =~= events);
}

/// Whether an event is a note-on or a note-off of a key.
pub open spec fn names(event: Event, key: i16) -> bool {
    match event {
        Event::Note(NoteEvent::NoteOn { key: on, .. }) => on == key,
        Event::Note(NoteEvent::NoteOff { key: off, .. }) => off == key,
        _ => false,
    }
}

/// Whether a key's bit is set.
pub open spec fn has_bit(table: u128, key: int) -> bool {
    table & (1u128 << (key as u128)) != 0
}

/// A key is down after some events if the last note-on or note-off of that key is a
/// note-on, and up if it is a note-off. With neither it is as it was.
pub proof fn law_a_key_is_down_from_note_on_to_note_off(
    before: Played,
    events: Seq<Event>,
    key: i16,
    i: int,
)
    requires
        0 <= key < 128,
    ensures
        0 <= i < events.len() && names(events[i], key) && (forall|j: int|
            i < j < events.len() ==> !names(#[trigger] events[j], key)) ==> has_bit(
            heard_all(before, events).held,
            key as int,
        ) == starts(events[i]),
        (forall|j: int| 0 <= j < events.len() ==> !names(#[trigger] events[j], key)) ==> has_bit(
            heard_all(before, events).held,
            key as int,
        ) == has_bit(before.held, key as int),
    decreases events.len(),
{
    if events.len() > 0 {
        let front = events.drop_last();
        law_a_key_is_down_from_note_on_to_note_off(before, front, key, i);
        law_held_is_down(before, events, key);
        law_held_is_down(before, front, key);
        assert forall|j: int| 0 <= j < front.len() implies events[j] == #[trigger] front[j] by {}
        if forall|j: int| 0 <= j < events.len() ==> !names(#[trigger] events[j], key) {
            assert forall|j: int| 0 <= j < front.len() implies !names(#[trigger] front[j], key) by {
                assert(!names(events[j], key));
            }
            assert(!names(events[events.len() - 1], key));
        }
        if 0 <= i < events.len() && names(events[i], key) && (forall|j: int|
            i < j < events.len() ==> !names(#[trigger] events[j], key)) {
            if i < events.len() - 1 {
                assert(!names(events[events.len() - 1], key));
                assert forall|j: int| i < j < front.len() implies !names(
                    #[trigger] front[j],
                    key,
                ) by {
                    assert(!names(events[j], key));
                }
            }
        }
    }
}

/// Events in the order they fall in.
pub open spec fn in_order(events: Seq<Event>) -> bool {
    forall|i: int, j: int|
        0 <= i < j < events.len() ==> (#[trigger] events[i]).offset_of() <= (
        #[trigger] events[j]).offset_of()
}

proof fn lemma_first(events: Seq<Event>, bound: int, at: int)
    requires
        0 <= at <= events.len(),
        in_order(events),
        forall|i: int| 0 <= i < at ==> (#[trigger] events[i]).offset_of() < bound,
    ensures
        ({
            let first = first_from(events, bound, at);
            &&& at <= first <= events.len()
            &&& forall|i: int| 0 <= i < first ==> (#[trigger] events[i]).offset_of() < bound
            &&& forall|i: int|
                first <= i < events.len() ==> (#[trigger] events[i]).offset_of() >= bound
        }),
    decreases events.len() - at,
{
    if at < events.len() && events[at].offset_of() < bound {
        lemma_first(events, bound, at + 1);
    } else if at < events.len() {
        assert forall|i: int| at <= i < events.len() implies (#[trigger] events[i]).offset_of()
            >= bound by {
            if at < i {
                assert(events[at].offset_of() <= events[i].offset_of());
            }
        }
    }
}

/// A sub-block hears the events that fall into it, in their order: none that falls before
/// its first frame, none from its end on, and all of those between.
pub proof fn law_a_sub_block_hears_what_falls_into_it(
    notes: NotesModel,
    out: u16,
    bus: u16,
    given: NoteInput,
)
    requires
        notes.bufs.len() == MAX_NOTE_BUFS,
        out < MAX_NOTE_BUFS,
        in_order(given.events),
        notes.bufs[out as int].events.len() + given.events.len() <= NOTE_BUF_CAPACITY,
    ensures
        ({
            let before = notes.bufs[out as int].events;
            let after = notes.stepped(NoteOp::Input { out, bus }, given);
            let heard = after.bufs[out as int].events;
            &&& bus != 0 ==> after == notes
            &&& bus == 0 ==> exists|lo: int, hi: int|
                0 <= lo <= hi <= given.events.len() && heard == #[trigger] (before
                    + given.events.subrange(lo, hi)) && (forall|i: int|
                    0 <= i < given.events.len() ==> (lo <= i < hi <==> given.start <= (
                    #[trigger] given.events[i]).offset_of() < given.start + given.frames))
            &&& after.dropped == notes.dropped
            &&& forall|i: int|
                0 <= i < MAX_NOTE_BUFS && i != out ==> #[trigger] after.bufs[i] == notes.bufs[i]
        }),
{
    let events = given.events;
    let lo = first_from(events, given.start as int, 0);
    let hi = first_from(events, given.start + given.frames, 0);
    lemma_first(events, given.start as int, 0);
    lemma_first(events, given.start + given.frames, 0);
    if lo > hi {
        assert(events[hi].offset_of() < given.start);
        assert(false);
    }
    let before = notes.bufs[out as int].events;
    let after = notes.stepped(NoteOp::Input { out, bus }, given);
    assert(window(events, given.start, given.frames) == events.subrange(lo, hi));
    if bus == 0 {
        assert(after.bufs[out as int].events == before + events.subrange(lo, hi));
        assert forall|i: int| 0 <= i < events.len() implies (lo <= i < hi <==> given.start <= (
        #[trigger] events[i]).offset_of() < given.start + given.frames) by {}
    }
}

/// Whether a filter hands an event on: a shut gate keeps out note-ons and nothing else, a
/// muted key its notes, a channel that is not kept whatever is on it, and a controller that
/// is not kept its changes.
pub open spec fn gets_through(
    event: Event,
    shut: bool,
    mute: u128,
    channels: u16,
    controllers: u128,
) -> bool {
    let free = |key: i16, channel: i16|
        !(0 <= key < 128 && mute & (1u128 << (key as u128)) != 0) && !(0 <= channel < 16
            && channels & (1u16 << (channel as u16)) == 0);
    match event {
        Event::Note(NoteEvent::NoteOn { key, channel, .. }) => !shut && free(key, channel),
        Event::Note(NoteEvent::NoteOff { key, channel, .. }) => free(key, channel),
        Event::Note(NoteEvent::NoteEnd { key, channel, .. }) => free(key, channel),
        Event::Note(NoteEvent::Cc { channel, cc, .. }) => free(-1i16, channel) && controllers & (
        1u128 << ((cc & 0x7f) as u128)) != 0,
        Event::Param(_) => true,
    }
}

/// A filter hands on, in their order, the events of the sub-block that get through, and
/// touches no other buffer. Its gate is shut while its lane lies below a half, or where
/// there is no such lane; a filter without a gate is never shut.
pub proof fn law_a_filter_hands_on_what_gets_through(
    notes: NotesModel,
    a: u16,
    out: u16,
    gate: Option<u16>,
    mute: u128,
    channels: u16,
    controllers: u128,
    given: NoteInput,
)
    requires
        notes.bufs.len() == MAX_NOTE_BUFS,
        a < MAX_NOTE_BUFS,
        out < MAX_NOTE_BUFS,
        a != out,
        given.base.len() == MAX_NOTE_BUFS,
        given.base[a as int] <= notes.bufs[a as int].events.len(),
        notes.bufs[a as int].events.len() + notes.bufs[out as int].events.len()
            <= NOTE_BUF_CAPACITY,
    ensures
        ({
            let op = NoteOp::Filter { a, out, gate, mute, channels, controllers };
            let after = notes.stepped(op, given);
            let fresh = notes.bufs[a as int].events.skip(given.base[a as int] as int);
            let shut = match gate {
                Some(lane) => lane >= given.lanes.len() || given.lanes[lane as int].nan()
                    || given.lanes[lane as int].rank() < Real::halved().rank(),
                None => false,
            };
            &&& after.bufs[out as int].events == notes.bufs[out as int].events + fresh.filter(
                |event: Event| gets_through(event, shut, mute, channels, controllers),
            )
            &&& forall|i: int|
                0 <= i < MAX_NOTE_BUFS && i != out ==> #[trigger] after.bufs[i] == notes.bufs[i]
        }),
{
    let fresh = notes.bufs[a as int].events.skip(given.base[a as int] as int);
    let shut = match gate {
        Some(lane) => lane >= given.lanes.len() || given.lanes[lane as int].nan()
            || given.lanes[lane as int].rank() < Real::halved().rank(),
        None => false,
    };
    let mine = |event: Event| gets_through(event, shut, mute, channels, controllers);
    let theirs = |event: Event| kept(event, shut, mute, channels, controllers);
    assert forall|event: Event| #[trigger] mine(event) == theirs(event) by {}
    assert(mine =~= theirs);
    lemma_filter_len(fresh, mine);
}

proof fn lemma_filter_len(events: Seq<Event>, pred: spec_fn(Event) -> bool)
    ensures
        events.filter(pred).len() <= events.len(),
    decreases events.len(),
{
    reveal(Seq::filter);
    if events.len() > 0 {
        lemma_filter_len(events.drop_last(), pred);
    }
}

/// After an operation has filled a buffer, the buffer stands at the velocity and the key of
/// the last note-on it was given in this sub-block, or where it stood if there was none.
pub proof fn law_a_buffer_stands_at_its_last_note(
    notes: NotesModel,
    op: NoteOp,
    out: u16,
    given: NoteInput,
    i: int,
)
    requires
        notes.bufs.len() == MAX_NOTE_BUFS,
        given.base.len() == MAX_NOTE_BUFS,
        out < MAX_NOTE_BUFS,
        (op matches NoteOp::Input { out: to, bus } && to == out && bus == 0) || (op matches NoteOp::Filter {
            out: to,
            a,
            ..
        } && to == out && a < MAX_NOTE_BUFS),
        given.base[out as int] == notes.bufs[out as int].events.len(),
    ensures
        ({
            let from = given.base[out as int] as int;
            let was = notes.bufs[out as int].played;
            let after = notes.stepped(op, given).bufs[out as int];
            &&& from <= after.events.len()
            &&& from <= i < after.events.len() && starts(after.events[i]) && (forall|j: int|
                i < j < after.events.len() ==> !starts(#[trigger] after.events[j]))
                ==> (after.events[i] matches Event::Note(NoteEvent::NoteOn { velocity, key, .. })
                ==> after.played.velocity == velocity && (0 <= key < 128 ==> after.played.key
                == KeyTrack::Key(key as u8)))
            &&& (forall|j: int|
                from <= j < after.events.len() ==> !starts(#[trigger] after.events[j]))
                ==> after.played.velocity == was.velocity && after.played.key == was.key
        }),
{
    let from = given.base[out as int] as int;
    let was = notes.bufs[out as int].played;
    let after = notes.stepped(op, given).bufs[out as int];
    let fresh = after.events.skip(from);
    let cleared = Played { struck: 0, ..was };
    assert(after.played == followed(was, fresh));
    assert(after.played == heard_all(cleared, fresh));
    assert forall|j: int| 0 <= j < fresh.len() implies #[trigger] fresh[j] == after.events[from
        + j] by {}
    law_velocity_and_key_are_the_last_note_ons(cleared, fresh, i - from);
    if forall|j: int| from <= j < after.events.len() ==> !starts(#[trigger] after.events[j]) {
        assert forall|j: int| 0 <= j < fresh.len() implies !starts(#[trigger] fresh[j]) by {
            assert(!starts(after.events[from + j]));
        }
    }
    if from <= i < after.events.len() && starts(after.events[i]) && (forall|j: int|
        i < j < after.events.len() ==> !starts(#[trigger] after.events[j])) {
        assert(fresh[i - from] == after.events[i]);
        assert forall|j: int| i - from < j < fresh.len() implies !starts(#[trigger] fresh[j]) by {
            assert(!starts(after.events[from + j]));
        }
    }
}

/// A generated controller is sent on its own channel and number, at the start of the
/// sub-block and ahead of what passes through, with the value of its lane held between
/// nought and one. It is sent when that is not the value it was last sent at.
pub proof fn law_a_generated_controller_says_where_its_lane_stands(
    notes: NotesModel,
    a: Option<u16>,
    out: u16,
    lane: u16,
    state: u16,
    channel: u8,
    cc: u8,
    given: NoteInput,
)
    requires
        notes.bufs.len() == MAX_NOTE_BUFS,
        notes.emitted.len() == MAX_NOTE_EMITS,
        given.base.len() == MAX_NOTE_BUFS,
        out < MAX_NOTE_BUFS,
        state < MAX_NOTE_EMITS,
        lane < given.lanes.len(),
        !given.lanes[lane as int].nan(),
        a matches Some(from) ==> from < MAX_NOTE_BUFS && from != out && given.base[from as int]
            <= notes.bufs[from as int].events.len() && notes.bufs[from as int].events.len()
            + notes.bufs[out as int].events.len() < NOTE_BUF_CAPACITY,
        notes.bufs[out as int].events.len() < NOTE_BUF_CAPACITY,
    ensures
        ({
            let after = notes.stepped(NoteOp::Emit { a, out, lane, state, channel, cc }, given);
            let before = notes.bufs[out as int].events;
            let heard = after.bufs[out as int].events;
            let value = given.lanes[lane as int];
            let last = notes.emitted[state as int];
            let sent = after.emitted[state as int];
            let passed = match a {
                Some(from) => notes.bufs[from as int].events.skip(given.base[from as int] as int),
                None => Seq::empty(),
            };
            &&& value.rank() < 0 ==> sent.rank() == 0
            &&& 0 <= value.rank() <= Real::unit().rank() ==> sent == value
            &&& value.rank() > Real::unit().rank() ==> sent == Real::unit()
            &&& last.nan() || last.rank() != sent.rank() ==> heard == before.push(
                Event::Note(
                    NoteEvent::Cc {
                        port: 0,
                        channel: channel as i16,
                        cc,
                        value: sent,
                        sample_offset: given.start,
                    },
                ),
            ) + passed
            &&& !last.nan() && last.rank() == sent.rank() ==> heard == before + passed
            &&& forall|i: int|
                0 <= i < MAX_NOTE_EMITS && i != state ==> #[trigger] after.emitted[i]
                    == notes.emitted[i]
        }),
{
    let after = notes.stepped(NoteOp::Emit { a, out, lane, state, channel, cc }, given);
    let before = notes.bufs[out as int].events;
    let sent = after.emitted[state as int];
    let event = Event::Note(
        NoteEvent::Cc {
            port: 0,
            channel: channel as i16,
            cc,
            value: sent,
            sample_offset: given.start,
        },
    );
    let passed = match a {
        Some(from) => notes.bufs[from as int].events.skip(given.base[from as int] as int),
        None => Seq::empty(),
    };
    assert(before + (seq![event] + passed) =~= before.push(event) + passed);
    assert(before + (Seq::<Event>::empty() + passed) =~= before + passed);
}

/// What a buffer has no room for is lost and counted: as many events arrive as were given,
/// less those that the count of lost ones has grown by.
pub proof fn law_lost_events_are_counted(notes: NotesModel, out: int, extra: Seq<Event>)
    requires
        notes.bufs.len() == MAX_NOTE_BUFS,
        0 <= out < MAX_NOTE_BUFS,
        notes.bufs[out].events.len() <= NOTE_BUF_CAPACITY,
        notes.dropped + extra.len() <= u64::MAX,
    ensures
        ({
            let before = notes.bufs[out].events;
            let after = notes.appended(out, extra);
            let arrived = after.bufs[out].events;
            let lost = after.dropped - notes.dropped;
            &&& arrived.len() <= NOTE_BUF_CAPACITY
            &&& 0 <= lost <= extra.len()
            &&& arrived == before + extra.take(extra.len() - lost)
            &&& lost > 0 ==> arrived.len() == NOTE_BUF_CAPACITY
        }),
{
    assert(extra.take(extra.len() as int) =~= extra);
}

/// A channel mask has the channels of its list, and no others.
pub proof fn law_channel_mask(channels: Seq<u8>, channel: u8)
    requires
        channel < 16,
    ensures
        channel_mask(channels) & (1u16 << (channel as u16)) != 0 <==> channels.contains(channel),
    decreases channels.len(),
{
    let b = channel as u16;
    if channels.len() == 0 {
        assert(0u16 & (1u16 << b) == 0) by (bit_vector);
    } else {
        let front = channels.drop_last();
        let last = channels.last();
        law_channel_mask(front, channel);
        if last < 16 {
            let table = channel_mask(front);
            let a = last as u16;
            assert((table | (1u16 << a)) & (1u16 << b) != 0 <==> a == b || table & (1u16 << b) != 0)
                by (bit_vector)
                requires
                    a < 16,
                    b < 16,
            ;
        }
        if channels.contains(channel) {
            let i = choose|i: int| 0 <= i < channels.len() && channels[i] == channel;
            if i < front.len() {
                assert(front[i] == channel);
            }
        }
        if front.contains(channel) {
            let i = choose|i: int| 0 <= i < front.len() && front[i] == channel;
            assert(channels[i] == channel);
        }
        assert(channels[channels.len() - 1] == last);
    }
}

/// What a node keeps from leaving by an output: a mute its keys, a split the keys outside
/// the band of that output, a switch or a choice its own keys if it is told to, and the
/// rest nothing. A split's bands run from the top of the keyboard down, and a split belongs
/// to the band below it.
pub proof fn law_what_a_node_mutes(kind: NodeKind, port: u8, key: u8)
    requires
        key < 128,
    ensures
        ({
            let muted = kind.mutes(port) & (1u128 << (key as u128)) != 0;
            match kind {
                NodeKind::NoteMute(mute) => muted == mute.keys@.contains(key),
                NodeKind::KeySplit(split) => muted == ((0 < port <= split.splits@.len() && key
                    > split.splits@[port - 1]) || (port < split.splits@.len() && key
                    <= split.splits@[port as int])),
                NodeKind::KeySwitch(switch) => muted == (switch.mute_keys
                    && switch.keys@.contains(key)),
                NodeKind::KeyParam(chosen) => muted == (chosen.mute_keys
                    && chosen.keys@.contains(key)),
                _ => !muted,
            }
        }),
{
    let b = key as u128;
    assert(0u128 & (1u128 << b) == 0) by (bit_vector);
    match kind {
        NodeKind::NoteMute(mute) => {
            law_key_mask(mute.keys@, key);
        },
        NodeKind::KeySplit(split) => {
            law_split_divides(split.splits@, port as int, key);
        },
        NodeKind::KeySwitch(switch) => {
            law_key_mask(switch.keys@, key);
        },
        NodeKind::KeyParam(chosen) => {
            law_key_mask(chosen.keys@, key);
        },
        _ => {},
    }
}

/// A note filter keeps the channels and the controllers it lists, or all but those; every
/// other node keeps them all.
pub proof fn law_what_a_node_keeps(kind: NodeKind, port: u8, channel: u8, controller: u8)
    requires
        channel < 16,
        controller < 128,
    ensures
        ({
            let on = kind.channels_on(port) & (1u16 << (channel as u16)) != 0;
            let through = kind.controllers_on(port) & (1u128 << (controller as u128)) != 0;
            match kind {
                NodeKind::NoteFilter(filter) => {
                    &&& filter.channel_mode is Keep ==> on == filter.channels@.contains(channel)
                    &&& filter.channel_mode is Drop ==> on == !filter.channels@.contains(channel)
                    &&& filter.controller_mode is Keep ==> through
                        == filter.controllers@.contains(controller)
                    &&& filter.controller_mode is Drop ==> through
                        == !filter.controllers@.contains(controller)
                },
                _ => on && through,
            }
        }),
{
    let b = channel as u16;
    let c = controller as u128;
    assert(0xffffu16 & (1u16 << b) != 0) by (bit_vector)
        requires
            b < 16,
    ;
    assert(0xffff_ffff_ffff_ffff_ffff_ffff_ffff_ffffu128 & (1u128 << c) != 0) by (bit_vector)
        requires
            c < 128,
    ;
    if let NodeKind::NoteFilter(filter) = kind {
        law_channel_mask(filter.channels@, channel);
        law_key_mask(filter.controllers@, controller);
        let m = channel_mask(filter.channels@);
        let n = key_mask(filter.controllers@);
        assert((!m) & (1u16 << b) != 0 <==> m & (1u16 << b) == 0) by (bit_vector)
            requires
                b < 16,
        ;
        assert((!n) & (1u128 << c) != 0 <==> n & (1u128 << c) == 0) by (bit_vector)
            requires
                c < 128,
        ;
    }
}

} // verus!
