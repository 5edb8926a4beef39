//! The note half of a running program: what each note buffer holds and what
//! it amounts to.
use vstd::prelude::*;
use crate::event::{Event, NoteEvent};
use crate::ir::{
    NoteOp, NoteStream, Program, Stage, MAX_NOTE_BUFS, MAX_NOTE_EMITS, NOTE_BUF_CAPACITY,
};
use crate::number::Real;
use crate::tables::{index_two, swap_two, swapped};

verus! {

/// One key's bit in the held and struck tables, or `None` for a key outside
/// the range a wire can name.
pub fn key_bit(key: i16) -> (r: Option<u128>)
    ensures
        r == bit_of(key),
{
    if key >= 0 && key < 128 {
        Some(1u128 << (key as u128))
    } else {
        None
    }
}

pub open spec fn bit_of(key: i16) -> Option<u128> {
    if 0 <= key < 128 {
        Some(1u128 << (key as u128))
    } else {
        None
    }
}

/// Whether a table of keys has `key` in it.
pub open spec fn has_key(table: u128, key: i16) -> bool {
    match bit_of(key) {
        Some(bit) => table & bit != 0,
        None => false,
    }
}

/// Whether an event survives a filter's masks.
///
/// Each mask judges only the events that have the thing it names: a key mask
/// does not swallow an event with no key, nor a channel mask one with no
/// channel, and only a control change is asked about controller numbers.
pub fn passes(event: &Event, keys: u128, channels: u16, controllers: u128) -> (r: bool)
    ensures
        r == survives(*event, keys, channels, controllers),
{
    let note: NoteEvent = match *event {
        Event::Note(note) => note,
        Event::Param(_) => {
            return true;
        },
    };
    if let Some(key) = note.key() {
        if let Some(bit) = key_bit(key) {
            if keys & bit != 0 {
                return false;
            }
        }
    }
    if let Some(channel) = note.channel() {
        if channel >= 0 && channel < 16 && channels & (1u16 << (channel as u16)) == 0 {
            return false;
        }
    }
    if let NoteEvent::Cc { cc, .. } = note {
        let number: u8 = cc & 0x7f;
        assert(number < 128) by (bit_vector)
            requires
                number == cc & 0x7f,
        ;
        if controllers & (1u128 << (number as u128)) == 0 {
            return false;
        }
    }
    true
}

/// No key of the mask, a channel that is kept, a controller that is kept.
pub open spec fn survives(event: Event, keys: u128, channels: u16, controllers: u128) -> bool {
    match event {
        Event::Param(_) => true,
        Event::Note(note) => {
            &&& !(note.key_of() matches Some(key) && has_key(keys, key))
            &&& !(note.channel_of() matches Some(channel) && 0 <= channel < 16 && channels & (1u16
                << (channel as u16)) == 0)
            &&& !(note matches NoteEvent::Cc { cc, .. } && controllers & (1u128 << ((cc & 0x7f)
                as u128)) == 0)
        },
    }
}

/// Where the last note struck lies on the keyboard.
#[derive(Debug, Clone, Copy, PartialEq, Eq, Structural)]
pub enum KeyTrack {
    /// No note yet. Its absence is not the bottom of the keyboard.
    Centre,
    /// That many 127ths of the way up.
    Key(u8),
}

/// What the events of a buffer amount to.
#[derive(Debug, Clone, Copy, PartialEq, Eq, Structural)]
pub struct Played {
    /// Which keys are down, one bit each.
    pub held: u128,
    /// Which keys were struck in the sub-block last followed.
    pub struck: u128,
    /// How many notes are down.
    pub count: u32,
    /// Velocity of the most recent note-on, held between notes.
    pub velocity: Real,
    /// And the key it was on.
    pub key: KeyTrack,
}

impl Played {
    pub open spec fn silent() -> Played {
        Played {
            held: 0,
            struck: 0,
            count: 0,
            velocity: Real::zeroed(),
            key: KeyTrack::Centre,
        }
    }

    pub fn silence() -> (r: Played)
        ensures
            r == Played::silent(),
    {
        Played { held: 0, struck: 0, count: 0, velocity: Real::zero(), key: KeyTrack::Centre }
    }
}

/// A key held within the keyboard.
pub open spec fn keyboard(key: i16) -> u8 {
    if key < 0 {
        0
    } else if key > 127 {
        127
    } else {
        key as u8
    }
}

/// One event folded into what came before it. A plugin ending a voice is not
/// the player letting go: only a note-off lifts a key.
pub open spec fn heard(before: Played, event: Event) -> Played {
    match event {
        Event::Note(NoteEvent::NoteOn { key, velocity, .. }) => Played {
            held: match bit_of(key) {
                Some(bit) => before.held | bit,
                None => before.held,
            },
            struck: match bit_of(key) {
                Some(bit) => before.struck | bit,
                None => before.struck,
            },
            count: if before.count == u32::MAX {
                u32::MAX
            } else {
                (before.count + 1) as u32
            },
            velocity,
            key: KeyTrack::Key(keyboard(key)),
        },
        Event::Note(NoteEvent::NoteOff { key, .. }) => Played {
            held: match bit_of(key) {
                Some(bit) => before.held & !bit,
                None => before.held,
            },
            count: if before.count == 0 {
                0
            } else {
                (before.count - 1) as u32
            },
            ..before
        },
        _ => before,
    }
}

/// A run of events folded in, one after the other.
pub open spec fn heard_all(before: Played, events: Seq<Event>) -> Played
    decreases events.len(),
{
    if events.len() == 0 {
        before
    } else {
        heard(heard_all(before, events.drop_last()), events.last())
    }
}

/// What a buffer amounts to after a sub-block: only that sub-block's note-ons
/// are struck.
pub open spec fn followed(before: Played, events: Seq<Event>) -> Played {
    heard_all(Played { struck: 0, ..before }, events)
}

/// Whether `key` is down after some events: up to the last note-on or note-off
/// that names it.
pub open spec fn down_after(was: bool, events: Seq<Event>, key: i16) -> bool
    decreases events.len(),
{
    if events.len() == 0 {
        was
    } else {
        match events.last() {
            Event::Note(NoteEvent::NoteOn { key: on, .. }) if on == key => true,
            Event::Note(NoteEvent::NoteOff { key: off, .. }) if off == key => false,
            _ => down_after(was, events.drop_last(), key),
        }
    }
}

/// The held table has a key exactly while it is down: from its note-on to its
/// note-off, however many other events lie between.
pub proof fn law_held_is_down(before: Played, events: Seq<Event>, key: i16)
    requires
        0 <= key < 128,
    ensures
        has_key(heard_all(before, events).held, key) == down_after(
            has_key(before.held, key),
            events,
            key,
        ),
    decreases events.len(),
{
    if events.len() > 0 {
        law_held_is_down(before, events.drop_last(), key);
        let table = heard_all(before, events.drop_last()).held;
        let b = key as u128;
        match events.last() {
            Event::Note(NoteEvent::NoteOn { key: on, .. }) => {
                if 0 <= on < 128 {
                    let a = on as u128;
                    lemma_bits(table, a, b);
                }
            },
            Event::Note(NoteEvent::NoteOff { key: off, .. }) => {
                if 0 <= off < 128 {
                    let a = off as u128;
                    lemma_bits(table, a, b);
                }
            },
            _ => {},
        }
    }
}

/// A key is struck in a sub-block exactly when one of its events is a note-on
/// of that key.
pub proof fn law_struck_in_this_sub_block(before: Played, events: Seq<Event>, key: i16)
    requires
        0 <= key < 128,
    ensures
        has_key(followed(before, events).struck, key) <==> exists|i: int|
            0 <= i < events.len() && strikes(#[trigger] events[i], key),
{
    let b = key as u128;
    assert(0u128 & (1u128 << b) == 0) by (bit_vector);
    lemma_struck(Played { struck: 0, ..before }, events, key);
}

/// Whether an event strikes a key.
pub open spec fn strikes(event: Event, key: i16) -> bool {
    event matches Event::Note(NoteEvent::NoteOn { key: on, .. }) && on == key
}

proof fn lemma_struck(before: Played, events: Seq<Event>, key: i16)
    requires
        0 <= key < 128,
    ensures
        has_key(heard_all(before, events).struck, key) <==> has_key(before.struck, key)
            || exists|i: int| 0 <= i < events.len() && strikes(#[trigger] events[i], key),
    decreases events.len(),
{
    if events.len() > 0 {
        let front = events.drop_last();
        lemma_struck(before, front, key);
        let table = heard_all(before, front).struck;
        assert forall|i: int| 0 <= i < events.len() - 1 implies events[i] == #[trigger] front[i] by {
        }
        if let Event::Note(NoteEvent::NoteOn { key: on, .. }) = events.last() {
            if 0 <= on < 128 {
                let a = on as u128;
                let b = key as u128;
                lemma_bits(table, a, b);
            }
        }
        if exists|i: int| 0 <= i < events.len() && strikes(#[trigger] events[i], key) {
            let i = choose|i: int| 0 <= i < events.len() && strikes(#[trigger] events[i], key);
            if i < events.len() - 1 {
                assert(strikes(front[i], key));
            }
        }
        if exists|i: int| 0 <= i < front.len() && strikes(#[trigger] front[i], key) {
            let i = choose|i: int| 0 <= i < front.len() && strikes(#[trigger] front[i], key);
            assert(strikes(events[i], key));
        }
    }
}

proof fn lemma_bits(table: u128, a: u128, b: u128)
    requires
        a < 128,
        b < 128,
    ensures
        a == b ==> (table | (1u128 << a)) & (1u128 << b) != 0,
        a == b ==> (table & !(1u128 << a)) & (1u128 << b) == 0,
        a != b ==> ((table | (1u128 << a)) & (1u128 << b) != 0) == (table & (1u128 << b) != 0),
        a != b ==> ((table & !(1u128 << a)) & (1u128 << b) != 0) == (table & (1u128 << b) != 0),
{
    assert(a == b ==> (table | (1u128 << a)) & (1u128 << b) != 0) by (bit_vector)
        requires
            a < 128,
            b < 128,
    ;
    assert(a == b ==> (table & !(1u128 << a)) & (1u128 << b) == 0) by (bit_vector)
        requires
            a < 128,
            b < 128,
    ;
    assert(a != b ==> ((table | (1u128 << a)) & (1u128 << b) != 0) == (table & (1u128 << b) != 0))
        by (bit_vector)
        requires
            a < 128,
            b < 128,
    ;
    assert(a != b ==> ((table & !(1u128 << a)) & (1u128 << b) != 0) == (table & (1u128 << b) != 0))
        by (bit_vector)
        requires
            a < 128,
            b < 128,
    ;
}

/// One note buffer.
#[derive(Debug)]
pub struct NoteBuf {
    /// A whole block of events, a sub-block appended at a time, after the last
    /// sub-block of the block before.
    pub events: Vec<Event>,
    pub played: Played,
}

#[verifier::ext_equal]
pub struct BufModel {
    pub events: Seq<Event>,
    pub played: Played,
}

impl View for NoteBuf {
    type V = BufModel;

    open spec fn view(&self) -> BufModel {
        BufModel { events: self.events@, played: self.played }
    }
}

impl NoteBuf {
    pub fn new() -> (r: NoteBuf)
        ensures
            r@ == BufModel::empty(),
    {
        NoteBuf { events: Vec::with_capacity(NOTE_BUF_CAPACITY), played: Played::silence() }
    }

    /// Forgets what is being played, without touching the events.
    pub fn silence(&mut self)
        ensures
            final(self)@ == (BufModel { events: old(self)@.events, played: Played::silent() }),
    {
        self.played = Played::silence();
    }
}

impl BufModel {
    pub open spec fn empty() -> BufModel {
        BufModel { events: Seq::empty(), played: Played::silent() }
    }
}

/// What the note half fills in as it runs.
#[derive(Debug)]
pub struct NoteState {
    pub bufs: Vec<NoteBuf>,
    /// What each buffer carries in the program that is running.
    pub streams: Vec<Option<NoteStream>>,
    /// The last value each controller was sent at, or NaN before its first.
    pub emitted: Vec<Real>,
    /// Events lost because a buffer was full.
    pub dropped: u64,
}

#[verifier::ext_equal]
pub struct NotesModel {
    pub bufs: Seq<BufModel>,
    pub streams: Seq<Option<NoteStream>>,
    pub emitted: Seq<Real>,
    pub dropped: u64,
}

pub open spec fn bufs_view(bufs: Seq<NoteBuf>) -> Seq<BufModel> {
    Seq::new(bufs.len(), |i: int| bufs[i]@)
}

impl View for NoteState {
    type V = NotesModel;

    open spec fn view(&self) -> NotesModel {
        NotesModel {
            bufs: bufs_view(self.bufs@),
            streams: self.streams@,
            emitted: self.emitted@,
            dropped: self.dropped,
        }
    }
}

/// How many more events a buffer takes.
pub open spec fn room(events: Seq<Event>) -> nat {
    if events.len() >= NOTE_BUF_CAPACITY {
        0
    } else {
        (NOTE_BUF_CAPACITY - events.len()) as nat
    }
}

/// A buffer with as much of `extra` appended as there is room for.
pub open spec fn filled(events: Seq<Event>, extra: Seq<Event>) -> Seq<Event> {
    if extra.len() <= room(events) {
        events + extra
    } else {
        events + extra.take(room(events) as int)
    }
}

/// How much of `extra` there is no room for, on top of what was lost before.
pub open spec fn lost(dropped: u64, events: Seq<Event>, extra: Seq<Event>) -> u64 {
    if extra.len() <= room(events) {
        dropped
    } else if dropped + (extra.len() - room(events)) > u64::MAX {
        u64::MAX
    } else {
        (dropped + (extra.len() - room(events))) as u64
    }
}

proof fn lemma_filled_more(dropped: u64, events: Seq<Event>, extra: Seq<Event>, one: Event)
    ensures
        filled(filled(events, extra), seq![one]) =~= filled(events, extra.push(one)),
        lost(lost(dropped, events, extra), filled(events, extra), seq![one]) == lost(
            dropped,
            events,
            extra.push(one),
        ),
{
    if extra.len() < room(events) {
        assert(filled(events, extra) + seq![one] =~= events + extra.push(one));
    } else {
        assert(extra.push(one).take(room(events) as int) =~= extra.take(room(events) as int));
        if extra.len() == room(events) {
            assert(extra.take(room(events) as int) =~= extra);
        }
        assert(seq![one].take(0) =~= Seq::<Event>::empty());
    }
}

/// Appending one run and then another appends the two as one.
proof fn lemma_filled_twice(dropped: u64, events: Seq<Event>, one: Seq<Event>, two: Seq<Event>)
    ensures
        filled(filled(events, one), two) =~= filled(events, one + two),
        lost(lost(dropped, events, one), filled(events, one), two) == lost(
            dropped,
            events,
            one + two,
        ),
{
    let free = room(events) as int;
    if one.len() <= free {
        if one.len() + two.len() > free {
            assert((one + two).take(free) =~= one + two.take(free - one.len()));
        }
    } else {
        assert((one + two).take(free) =~= one.take(free));
        assert(two.take(0) =~= Seq::<Event>::empty());
    }
}

/// The events of a buffer from `from` on.
pub open spec fn since(events: Seq<Event>, from: usize) -> Seq<Event> {
    if from <= events.len() {
        events.skip(from as int)
    } else {
        Seq::empty()
    }
}

/// The first event from `at` on that does not lie before `bound`.
pub open spec fn first_from(events: Seq<Event>, bound: int, at: int) -> int
    decreases events.len() - at,
{
    if at >= events.len() || events[at].offset_of() >= bound {
        at
    } else {
        first_from(events, bound, at + 1)
    }
}

/// The events of a stream that fall in a sub-block.
pub open spec fn window(events: Seq<Event>, start: u32, frames: u32) -> Seq<Event> {
    let lo = first_from(events, start as int, 0);
    let hi = first_from(events, start + frames, 0);
    if lo <= hi {
        events.subrange(lo, hi)
    } else {
        Seq::empty()
    }
}

proof fn lemma_first_from(events: Seq<Event>, bound: int, at: int)
    requires
        0 <= at <= events.len(),
    ensures
        at <= first_from(events, bound, at) <= events.len(),
    decreases events.len() - at,
{
    if at < events.len() && events[at].offset_of() < bound {
        lemma_first_from(events, bound, at + 1);
    }
}

/// The value on a lane, or nothing where the row does not reach.
pub open spec fn lane_value(lanes: Seq<Real>, lane: u16) -> Real {
    if lane < lanes.len() {
        lanes[lane as int]
    } else {
        Real::zeroed()
    }
}

/// Whether a gate keeps note-ons out: its lane below a half, or missing.
pub open spec fn is_shut(lanes: Seq<Real>, gate: Option<u16>) -> bool {
    match gate {
        None => false,
        Some(lane) => !(lane < lanes.len() && lanes[lane as int].ge(Real::halved())),
    }
}

/// Whether a filter hands an event on.
pub open spec fn kept(
    event: Event,
    shut: bool,
    mute: u128,
    channels: u16,
    controllers: u128,
) -> bool {
    !(shut && event matches Event::Note(NoteEvent::NoteOn { .. })) && survives(
        event,
        mute,
        channels,
        controllers,
    )
}

/// What an operation of the note half is given.
pub struct NoteInput {
    pub events: Seq<Event>,
    pub start: u32,
    pub frames: u32,
    pub lanes: Seq<Real>,
    /// Where each buffer stood before the sub-block.
    pub base: Seq<usize>,
}

impl NotesModel {
    /// `extra` appended to a buffer.
    pub open spec fn appended(self, out: int, extra: Seq<Event>) -> NotesModel {
        NotesModel {
            bufs: self.bufs.update(
                out,
                BufModel { events: filled(self.bufs[out].events, extra), ..self.bufs[out] },
            ),
            dropped: lost(self.dropped, self.bufs[out].events, extra),
            ..self
        }
    }

    /// A buffer's new events folded into what it amounts to.
    pub open spec fn following(self, out: int, from: usize) -> NotesModel {
        NotesModel {
            bufs: self.bufs.update(
                out,
                BufModel {
                    played: followed(self.bufs[out].played, since(self.bufs[out].events, from)),
                    ..self.bufs[out]
                },
            ),
            ..self
        }
    }

    /// One operation of the note half.
    pub open spec fn stepped(self, op: NoteOp, given: NoteInput) -> NotesModel {
        match op {
            NoteOp::Input { out, bus } => if bus != 0 {
                self
            } else {
                self.appended(
                    out as int,
                    window(given.events, given.start, given.frames),
                ).following(out as int, given.base[out as int])
            },
            NoteOp::Emit { a, out, lane, state, channel, cc } => {
                let value = lane_value(given.lanes, lane).within(Real::zeroed(), Real::unit());
                let sent = controller(channel, cc, value, given.start);
                let moved = if self.emitted[state as int].equal(value) {
                    Seq::empty()
                } else {
                    seq![sent]
                };
                let passed = match a {
                    Some(a) => since(self.bufs[a as int].events, given.base[a as int]),
                    None => Seq::empty(),
                };
                NotesModel {
                    emitted: self.emitted.update(state as int, value),
                    ..self
                }.appended(out as int, moved + passed)
            },
            NoteOp::Filter { a, out, gate, mute, channels, controllers } => {
                let shut = is_shut(given.lanes, gate);
                let passed = since(self.bufs[a as int].events, given.base[a as int]).filter(
                    |event: Event| kept(event, shut, mute, channels, controllers),
                );
                self.appended(out as int, passed).following(out as int, given.base[out as int])
            },
        }
    }

    /// A run of operations, one after the other.
    pub open spec fn ran(self, ops: Seq<NoteOp>, given: NoteInput) -> NotesModel
        decreases ops.len(),
    {
        if ops.len() == 0 {
            self
        } else {
            self.ran(ops.drop_last(), given).stepped(ops.last(), given)
        }
    }
}

/// A control change made by the graph itself.
pub open spec fn controller(channel: u8, cc: u8, value: Real, at: u32) -> Event {
    Event::Note(
        NoteEvent::Cc { port: 0, channel: channel as i16, cc, value, sample_offset: at },
    )
}

/// A run of operations only ever appends to a buffer, and never more than it has
/// room for.
pub proof fn lemma_ran_appends(notes: NotesModel, ops: Seq<NoteOp>, given: NoteInput, buf: int)
    requires
        notes.bufs.len() == MAX_NOTE_BUFS,
        0 <= buf < MAX_NOTE_BUFS,
        forall|i: int| 0 <= i < ops.len() ==> note_op_fits(#[trigger] ops[i]),
    ensures
        notes.ran(ops, given).bufs.len() == MAX_NOTE_BUFS,
        notes.bufs[buf].events.is_prefix_of(notes.ran(ops, given).bufs[buf].events),
        notes.bufs[buf].events.len() <= NOTE_BUF_CAPACITY ==> notes.ran(
            ops,
            given,
        ).bufs[buf].events.len() <= NOTE_BUF_CAPACITY,
    decreases ops.len(),
{
    if ops.len() > 0 {
        let earlier = notes.ran(ops.drop_last(), given);
        assert forall|i: int| 0 <= i < ops.drop_last().len() implies note_op_fits(
            #[trigger] ops.drop_last()[i],
        ) by {
            assert(ops.drop_last()[i] == ops[i]);
        }
        lemma_ran_appends(notes, ops.drop_last(), given, buf);
        assert(note_op_fits(ops[ops.len() - 1]));
        assert(earlier.bufs[buf].events.is_prefix_of(
            earlier.stepped(ops.last(), given).bufs[buf].events,
        ));
    }
}

proof fn lemma_first_from_later(events: Seq<Event>, bound: int, later: int, at: int)
    requires
        bound <= later,
        0 <= at <= events.len(),
    ensures
        first_from(events, bound, at) <= first_from(events, later, at),
    decreases events.len() - at,
{
    lemma_first_from(events, later, at);
    if at < events.len() && events[at].offset_of() < bound {
        lemma_first_from_later(events, bound, later, at + 1);
    }
}

/// An event lands in one sub-block only: the events of two sub-blocks that follow
/// each other are those of the stretch they make up, none of them lost and none of
/// them twice.
pub proof fn law_windows_join(events: Seq<Event>, start: u32, frames: u32, more: u32)
    requires
        start + frames + more <= u32::MAX,
    ensures
        window(events, start, frames) + window(events, (start + frames) as u32, more) == window(
            events,
            start,
            (frames + more) as u32,
        ),
{
    let middle = start + frames;
    let end = start + frames + more;
    lemma_first_from_later(events, start as int, middle, 0);
    lemma_first_from_later(events, middle, end, 0);
    lemma_first_from(events, start as int, 0);
    lemma_first_from(events, end, 0);
    assert(window(events, start, frames) + window(events, middle as u32, more) =~= window(
        events,
        start,
        (frames + more) as u32,
    ));
}

/// No note is left hanging: a filter that let a note-on through lets the note-off
/// of that key and channel through, whatever has become of its gate since. The
/// masks take both or neither.
pub proof fn law_no_note_hangs(
    on: NoteEvent,
    off: NoteEvent,
    shut: bool,
    shut_since: bool,
    mute: u128,
    channels: u16,
    controllers: u128,
)
    requires
        on is NoteOn,
        off is NoteOff,
        on.key_of() == off.key_of(),
        on.channel_of() == off.channel_of(),
    ensures
        kept(Event::Note(on), shut, mute, channels, controllers) ==> kept(
            Event::Note(off),
            shut_since,
            mute,
            channels,
            controllers,
        ),
        survives(Event::Note(on), mute, channels, controllers) == survives(
            Event::Note(off),
            mute,
            channels,
            controllers,
        ),
{
}

/// A controller is sent when its lane has moved, ahead of what passes through, and
/// not again until it moves.
pub proof fn law_controller_is_sent_once(
    notes: NotesModel,
    out: u16,
    lane: u16,
    state: u16,
    channel: u8,
    cc: u8,
    given: NoteInput,
    next: NoteInput,
)
    requires
        out < notes.bufs.len(),
        state < notes.emitted.len(),
        room(notes.bufs[out as int].events) > 0,
        !lane_value(given.lanes, lane).nan(),
        lane_value(next.lanes, lane) == lane_value(given.lanes, lane),
    ensures
        ({
            let op = NoteOp::Emit { a: None, out, lane, state, channel, cc };
            let value = lane_value(given.lanes, lane).within(Real::zeroed(), Real::unit());
            let before = notes.bufs[out as int].events;
            let once = notes.stepped(op, given);
            &&& once.bufs[out as int].events == if notes.emitted[state as int].equal(value) {
                before
            } else {
                before.push(controller(channel, cc, value, given.start))
            }
            &&& once.stepped(op, next).bufs[out as int].events == once.bufs[out as int].events
        }),
{
    let op = NoteOp::Emit { a: None, out, lane, state, channel, cc };
    let value = lane_value(given.lanes, lane).within(Real::zeroed(), Real::unit());
    let before = notes.bufs[out as int].events;
    let once = notes.stepped(op, given);
    let sent = controller(channel, cc, value, given.start);
    let none = Seq::<Event>::empty();
    assert(none + none =~= none);
    assert(seq![sent] + none =~= seq![sent]);
    assert(before + none =~= before);
    assert(before + seq![sent] =~= before.push(sent));
    assert(once.emitted[state as int] == value);
    assert(value.equal(value));
    let after = once.bufs[out as int].events;
    assert(after + none =~= after);
}

/// An operation names buffers and states that exist, and reads another buffer
/// than it writes.
pub open spec fn note_op_fits(op: NoteOp) -> bool {
    match op {
        NoteOp::Input { out, .. } => out < MAX_NOTE_BUFS,
        NoteOp::Emit { a, out, state, .. } => {
            &&& out < MAX_NOTE_BUFS
            &&& state < MAX_NOTE_EMITS
            &&& a matches Some(a) ==> a < MAX_NOTE_BUFS && a != out
        },
        NoteOp::Filter { a, out, .. } => a < MAX_NOTE_BUFS && out < MAX_NOTE_BUFS && a != out,
    }
}

/// Whether a stream of the running program and one of the next are the same:
/// out of the same socket, made the same way, from buffers that were matched.
pub open spec fn same_stream(
    old: Option<NoteStream>,
    next: NoteStream,
    remap: Seq<Option<usize>>,
) -> bool {
    match old {
        None => false,
        Some(old) => {
            &&& old.node == next.node
            &&& old.port == next.port
            &&& old.kind == next.kind
            &&& match (old.source, next.source) {
                (None, None) => true,
                (Some(from), Some(to)) => remap[to as int] == Some(from as usize),
                _ => false,
            }
        },
    }
}

/// The first stream from `at` on that `next` carries on.
pub open spec fn carried_from(
    old: Seq<Option<NoteStream>>,
    next: NoteStream,
    remap: Seq<Option<usize>>,
    at: int,
) -> Option<usize>
    decreases old.len() - at,
{
    if at >= old.len() {
        None
    } else if same_stream(old[at], next, remap) {
        Some(at as usize)
    } else {
        carried_from(old, next, remap, at + 1)
    }
}

/// Which buffer each of the first `count` streams carries on. A source
/// precedes its readers, so each match can rest on its source's match.
pub open spec fn carried(
    old: Seq<Option<NoteStream>>,
    streams: Seq<NoteStream>,
    count: nat,
) -> Seq<Option<usize>>
    decreases count,
{
    if count == 0 {
        Seq::new(MAX_NOTE_BUFS as nat, |i: int| None)
    } else {
        let earlier = carried(old, streams, (count - 1) as nat);
        earlier.update(count - 1, carried_from(old, streams[count - 1], earlier, 0))
    }
}

/// Which old buffer lies where once the first `count` slots have drawn theirs.
pub open spec fn arranged(remap: Seq<Option<usize>>, count: nat) -> Seq<int>
    decreases count,
{
    if count == 0 {
        Seq::new(remap.len(), |i: int| i)
    } else {
        let earlier = arranged(remap, (count - 1) as nat);
        match remap[count - 1] {
            Some(from) => swapped(earlier, count - 1, earlier.index_of(from as int)),
            None => earlier,
        }
    }
}

/// Every slot once.
pub open spec fn is_arrangement(order: Seq<int>) -> bool {
    &&& order.no_duplicates()
    &&& forall|i: int| 0 <= i < order.len() ==> #[trigger] order.contains(i)
    &&& forall|i: int| 0 <= i < order.len() ==> 0 <= #[trigger] order[i] < order.len()
}

proof fn lemma_swap_keeps_arrangement(order: Seq<int>, a: int, b: int)
    requires
        is_arrangement(order),
        0 <= a < order.len(),
        0 <= b < order.len(),
    ensures
        is_arrangement(swapped(order, a, b)),
{
    let next = swapped(order, a, b);
    assert forall|i: int| 0 <= i < next.len() implies #[trigger] next.contains(i) by {
        assert(order.contains(i));
        let at = order.index_of(i);
        if at == a {
            assert(next[b] == i);
        } else if at == b {
            assert(next[a] == i);
        } else {
            assert(next[at] == i);
        }
    }
}

proof fn lemma_carried_from(
    old: Seq<Option<NoteStream>>,
    next: NoteStream,
    remap: Seq<Option<usize>>,
    at: int,
)
    requires
        0 <= at,
        old.len() <= usize::MAX,
    ensures
        carried_from(old, next, remap, at) matches Some(i) ==> at <= i < old.len() && same_stream(
            old[i as int],
            next,
            remap,
        ),
    decreases old.len() - at,
{
    if at < old.len() && !same_stream(old[at], next, remap) {
        lemma_carried_from(old, next, remap, at + 1);
    }
}

/// The buffers that notes come from are buffers that held the same stream.
pub proof fn lemma_carried(old: Seq<Option<NoteStream>>, streams: Seq<NoteStream>, count: nat)
    requires
        old.len() <= usize::MAX,
        count <= streams.len() <= MAX_NOTE_BUFS,
    ensures
        carried(old, streams, count).len() == MAX_NOTE_BUFS,
        forall|i: int|
            0 <= i < MAX_NOTE_BUFS ==> (#[trigger] carried(old, streams, count)[i] matches Some(
                from,
            ) ==> i < count && from < old.len() && old[from as int] is Some
                && old[from as int]->0.node == streams[i].node && old[from as int]->0.port
                == streams[i].port),
    decreases count,
{
    if count > 0 {
        lemma_carried(old, streams, (count - 1) as nat);
        lemma_carried_from(
            old,
            streams[count - 1],
            carried(old, streams, (count - 1) as nat),
            0,
        );
    }
}

proof fn lemma_arranged(remap: Seq<Option<usize>>, count: nat)
    requires
        count <= remap.len(),
        forall|i: int| 0 <= i < remap.len() ==> (#[trigger] remap[i] matches Some(from) ==> from
            < remap.len()),
    ensures
        arranged(remap, count).len() == remap.len(),
        is_arrangement(arranged(remap, count)),
    decreases count,
{
    if count == 0 {
        let order = arranged(remap, 0);
        assert forall|i: int| 0 <= i < order.len() implies #[trigger] order.contains(i) by {
            assert(order[i] == i);
        }
    } else {
        lemma_arranged(remap, (count - 1) as nat);
        let earlier = arranged(remap, (count - 1) as nat);
        if let Some(from) = remap[count - 1] {
            assert(earlier.contains(from as int));
            lemma_swap_keeps_arrangement(earlier, count - 1, earlier.index_of(from as int));
        }
    }
}

/// No two streams leave the same socket.
pub open spec fn distinct_streams(streams: Seq<NoteStream>) -> bool {
    forall|i: int, j: int|
        0 <= i < j < streams.len() ==> (#[trigger] streams[i]).node != (
        #[trigger] streams[j]).node || streams[i].port != streams[j].port
}

proof fn lemma_settled(remap: Seq<Option<usize>>, count: nat, to: int)
    requires
        count <= remap.len(),
        0 <= to < count,
        remap[to] is Some,
        forall|i: int| 0 <= i < remap.len() ==> (#[trigger] remap[i] matches Some(from) ==> from
            < remap.len()),
        forall|i: int, j: int|
            0 <= i < j < remap.len() && remap[i] is Some ==> #[trigger] remap[i]
                != #[trigger] remap[j],
    ensures
        arranged(remap, count)[to] == remap[to]->0,
    decreases count,
{
    lemma_arranged(remap, (count - 1) as nat);
    let earlier = arranged(remap, (count - 1) as nat);
    if to == count - 1 {
        let from = remap[to]->0 as int;
        assert(earlier.contains(from));
        assert(earlier[earlier.index_of(from)] == from);
    } else {
        lemma_settled(remap, (count - 1) as nat, to);
        if let Some(from) = remap[count - 1] {
            assert(earlier.contains(from as int));
            let at = earlier.index_of(from as int);
            assert(earlier[at] == from);
            assert(remap[to] != remap[count - 1]);
        }
    }
}

impl NotesModel {
    /// The note half as the next program finds it: every stream it carries on
    /// keeps its buffer, and the other buffers are empty.
    pub open spec fn adopted(self, streams: Seq<NoteStream>) -> NotesModel {
        let remap = carried(self.streams, streams, streams.len());
        let order = arranged(remap, remap.len());
        NotesModel {
            bufs: Seq::new(
                self.bufs.len(),
                |i: int|
                    if remap[i] is Some {
                        self.bufs[order[i]]
                    } else {
                        BufModel::empty()
                    },
            ),
            streams: Seq::new(
                self.streams.len(),
                |i: int|
                    if i < streams.len() {
                        Some(streams[i])
                    } else {
                        None
                    },
            ),
            emitted: Seq::new(self.emitted.len(), |i: int| Real::unset()),
            dropped: self.dropped,
        }
    }
}

/// A stream that the next program carries on keeps its events and its held
/// keys, wherever its buffer lies in that program; a stream that is new starts
/// with neither.
pub proof fn law_carried_stream_keeps_its_notes(
    before: NotesModel,
    streams: Seq<NoteStream>,
    to: int,
)
    requires
        before.bufs.len() == MAX_NOTE_BUFS,
        before.streams.len() == MAX_NOTE_BUFS,
        streams.len() <= MAX_NOTE_BUFS,
        distinct_streams(streams),
        0 <= to < MAX_NOTE_BUFS,
    ensures
        match carried(before.streams, streams, streams.len())[to] {
            Some(from) => before.adopted(streams).bufs[to] == before.bufs[from as int],
            None => before.adopted(streams).bufs[to] == BufModel::empty(),
        },
{
    let remap = carried(before.streams, streams, streams.len());
    lemma_carried(before.streams, streams, streams.len());
    if remap[to] is Some {
        assert forall|i: int, j: int|
            0 <= i < j < remap.len() && remap[i] is Some implies #[trigger] remap[i]
            != #[trigger] remap[j] by {
            if remap[i] == remap[j] {
                assert(streams[i].node == streams[j].node);
            }
        }
        lemma_settled(remap, remap.len(), to);
    }
}

/// How many events lie before `bound` at the front of a sorted stream.
fn count_before(events: &[Event], bound: u32) -> (r: usize)
    ensures
        r == first_from(events@, bound as int, 0),
        r <= events@.len(),
{
    let mut at: usize = 0;
    while at < events.len() && events[at].sample_offset() < bound
        invariant
            at <= events@.len(),
            first_from(events@, bound as int, 0) == first_from(events@, bound as int, at as int),
        decreases events@.len() - at,
    {
        at += 1;
    }
    at
}

impl NoteState {
    /// One buffer and one stream for each a program may use.
    pub open spec fn wf(&self) -> bool {
        &&& self.bufs@.len() == MAX_NOTE_BUFS
        &&& self.streams@.len() == MAX_NOTE_BUFS
        &&& self.emitted@.len() == MAX_NOTE_EMITS
    }

    /// Appends unless the buffer is full. Dropping an event is bad; growing a
    /// buffer while audio runs is worse.
    pub fn push(buf: &mut Vec<Event>, dropped: &mut u64, event: Event)
        ensures
            final(buf)@ == filled(old(buf)@, seq![event]),
            *final(dropped) == lost(*old(dropped), old(buf)@, seq![event]),
    {
        if buf.len() < NOTE_BUF_CAPACITY {
            buf.push(event);
        } else {
            *dropped = dropped.saturating_add(1);
            assert(seq![event].take(0) =~= Seq::<Event>::empty());
        }
    }

    /// Appends the events `from..to` of another stream.
    fn push_all(buf: &mut Vec<Event>, dropped: &mut u64, events: &[Event], from: usize, to: usize)
        requires
            from <= to <= events@.len(),
        ensures
            final(buf)@ == filled(old(buf)@, events@.subrange(from as int, to as int)),
            *final(dropped) == lost(
                *old(dropped),
                old(buf)@,
                events@.subrange(from as int, to as int),
            ),
    {
        let mut at: usize = from;
        let ghost before = buf@;
        let ghost count = *dropped;
        assert(events@.subrange(from as int, from as int) =~= Seq::<Event>::empty());
        while at < to
            invariant
                from <= at <= to <= events@.len(),
                buf@ == filled(before, events@.subrange(from as int, at as int)),
                *dropped == lost(count, before, events@.subrange(from as int, at as int)),
            decreases to - at,
        {
            proof {
                lemma_filled_more(
                    count,
                    before,
                    events@.subrange(from as int, at as int),
                    events@[at as int],
                );
                assert(events@.subrange(from as int, at as int).push(events@[at as int])
                    =~= events@.subrange(from as int, at + 1));
            }
            NoteState::push(buf, dropped, events[at]);
            at += 1;
        }
    }

    /// Appends the events of another stream, from `from` on, that a filter hands on.
    fn push_kept(
        buf: &mut Vec<Event>,
        dropped: &mut u64,
        events: &[Event],
        from: usize,
        shut: bool,
        mute: u128,
        channels: u16,
        controllers: u128,
    )
        requires
            from <= events@.len(),
        ensures
            final(buf)@ == filled(
                old(buf)@,
                events@.skip(from as int).filter(
                    |event: Event| kept(event, shut, mute, channels, controllers),
                ),
            ),
            *final(dropped) == lost(
                *old(dropped),
                old(buf)@,
                events@.skip(from as int).filter(
                    |event: Event| kept(event, shut, mute, channels, controllers),
                ),
            ),
    {
        let ghost keeps = |event: Event| kept(event, shut, mute, channels, controllers);
        let ghost before = buf@;
        let ghost count = *dropped;
        let mut at: usize = from;
        proof {
            reveal(Seq::filter);
            assert(events@.subrange(from as int, from as int) =~= Seq::<Event>::empty());
        }
        while at < events.len()
            invariant
                from <= at <= events@.len(),
                keeps == (|event: Event| kept(event, shut, mute, channels, controllers)),
                buf@ == filled(before, events@.subrange(from as int, at as int).filter(keeps)),
                *dropped == lost(
                    count,
                    before,
                    events@.subrange(from as int, at as int).filter(keeps),
                ),
            decreases events@.len() - at,
        {
            let event: Event = events[at];
            proof {
                reveal(Seq::filter);
                let seen = events@.subrange(from as int, at + 1);
                assert(seen.drop_last() =~= events@.subrange(from as int, at as int));
                assert(seen.last() == event);
                lemma_filled_more(
                    count,
                    before,
                    events@.subrange(from as int, at as int).filter(keeps),
                    event,
                );
            }
            at += 1;
            if shut {
                if let Event::Note(NoteEvent::NoteOn { .. }) = event {
                    continue ;
                }
            }
            if !passes(&event, mute, channels, controllers) {
                continue ;
            }
            NoteState::push(buf, dropped, event);
        }
        assert(events@.subrange(from as int, at as int) =~= events@.skip(from as int));
    }

    /// Folds the events a sub-block appended into what the buffer amounts to.
    ///
    /// Over those events and no others: the tables are a running total, and an
    /// event folded in twice would leave a key held after it was let go.
    pub fn follow_notes(&mut self, buf: u16, from: usize)
        requires
            old(self).wf(),
        ensures
            final(self).wf(),
            final(self)@ == if buf < MAX_NOTE_BUFS {
                old(self)@.following(buf as int, from)
            } else {
                old(self)@
            },
    {
        if (buf as usize) >= self.bufs.len() {
            return;
        }
        let index: usize = buf as usize;
        let len: usize = self.bufs[index].events.len();
        let start: usize = if from < len {
            from
        } else {
            len
        };
        let before: Played = self.bufs[index].played;
        let ghost events = self.bufs[index as int].events@;
        let mut played: Played = Played { struck: 0, ..before };
        let mut at: usize = start;
        assert(events.subrange(start as int, start as int) =~= Seq::<Event>::empty());
        while at < len
            invariant
                index < self.bufs@.len(),
                events == self.bufs[index as int].events@,
                start <= at <= len == events.len(),
                played == heard_all(
                    Played { struck: 0, ..before },
                    events.subrange(start as int, at as int),
                ),
            decreases len - at,
        {
            let event: Event = self.bufs[index].events[at];
            proof {
                let seen = events.subrange(start as int, at + 1);
                assert(seen.drop_last() =~= events.subrange(start as int, at as int));
                assert(seen.last() == event);
            }
            match event {
                Event::Note(NoteEvent::NoteOn { key, velocity, .. }) => {
                    played.velocity = velocity;
                    played.key =
                    KeyTrack::Key(
                        if key < 0 {
                            0
                        } else if key > 127 {
                            127
                        } else {
                            key as u8
                        },
                    );
                    played.count = played.count.saturating_add(1);
                    if let Some(bit) = key_bit(key) {
                        played.held = played.held | bit;
                        played.struck = played.struck | bit;
                    }
                },
                Event::Note(NoteEvent::NoteOff { key, .. }) => {
                    played.count = played.count.saturating_sub(1);
                    if let Some(bit) = key_bit(key) {
                        played.held = played.held & !bit;
                    }
                },
                _ => {},
            }
            at += 1;
        }
        proof {
            assert(events.subrange(start as int, len as int) =~= since(events, from));
        }
        self.bufs[index].played = played;
        assert(self@ =~= old(self)@.following(buf as int, from));
    }

    /// One operation of the note half.
    fn run_note_op(
        &mut self,
        op: NoteOp,
        events: &[Event],
        start: u32,
        frames: u32,
        lanes: &[Real],
        base: &[usize],
    )
        requires
            old(self).wf(),
            note_op_fits(op),
            base@.len() == MAX_NOTE_BUFS,
            start + frames <= u32::MAX,
        ensures
            final(self).wf(),
            final(self)@ == old(self)@.stepped(
                op,
                (NoteInput { events: events@, start, frames, lanes: lanes@, base: base@ }),
            ),
    {
        let ghost given = NoteInput { events: events@, start, frames, lanes: lanes@, base: base@ };
        let ghost before = self@;
        match op {
            NoteOp::Input { out, bus } => {
                if bus != 0 {
                    return;
                }
                let from: usize = count_before(events, start);
                let to: usize = count_before(events, start + frames);
                let index: usize = out as usize;
                let end: usize = if to < from {
                    from
                } else {
                    to
                };
                NoteState::push_all(
                    &mut self.bufs[index].events,
                    &mut self.dropped,
                    events,
                    from,
                    end,
                );
                assert(events@.subrange(from as int, end as int) =~= window(
                    events@,
                    start,
                    frames,
                ));
                assert(self@ =~= before.appended(out as int, window(events@, start, frames)));
                self.follow_notes(out, base[out as usize]);
            },
            NoteOp::Emit { a, out, lane, state, channel, cc } => {
                let raw: Real = if (lane as usize) < lanes.len() {
                    lanes[lane as usize]
                } else {
                    Real::zero()
                };
                let value: Real = raw.clamp(Real::zero(), Real::one());
                let moved: bool = !self.emitted[state as usize].is_equal(value);
                self.emitted[state as usize] = value;
                let event: Event = Event::Note(
                    NoteEvent::Cc {
                        port: 0,
                        channel: channel as i16,
                        cc,
                        value,
                        sample_offset: start,
                    },
                );
                let ghost primed = self@;
                let ghost first = if moved {
                    seq![event]
                } else {
                    Seq::empty()
                };
                match a {
                    Some(a) => {
                        let from: usize = base[a as usize];
                        let (source, dest) = index_two(
                            self.bufs.as_mut_slice(),
                            a as usize,
                            out as usize,
                        );
                        let ghost already = dest.events@;
                        let ghost count = self.dropped;
                        let len: usize = source.events.len();
                        let at: usize = if from < len {
                            from
                        } else {
                            len
                        };
                        if moved {
                            NoteState::push(&mut dest.events, &mut self.dropped, event);
                        }
                        NoteState::push_all(
                            &mut dest.events,
                            &mut self.dropped,
                            source.events.as_slice(),
                            at,
                            len,
                        );
                        proof {
                            let passed = since(primed.bufs[a as int].events, from);
                            assert(primed.bufs[a as int].events.subrange(at as int, len as int)
                                =~= passed);
                            lemma_filled_twice(count, already, first, passed);
                            if !moved {
                                assert(first + passed =~= passed);
                            }
                            assert(self@ =~= primed.appended(out as int, first + passed));
                        }
                    },
                    None => {
                        if moved {
                            NoteState::push(
                                &mut self.bufs[out as usize].events,
                                &mut self.dropped,
                                event,
                            );
                        }
                        proof {
                            assert(first + Seq::<Event>::empty() =~= first);
                            assert(primed.bufs[out as int].events + Seq::<Event>::empty()
                                =~= primed.bufs[out as int].events);
                            assert(self@ =~= primed.appended(out as int, first));
                        }
                    },
                }
            },
            NoteOp::Filter { a, out, gate, mute, channels, controllers } => {
                let shut: bool = match gate {
                    None => false,
                    Some(lane) => !((lane as usize) < lanes.len()
                        && lanes[lane as usize].is_at_least(Real::half())),
                };
                let from: usize = base[a as usize];
                let ghost keeps = |event: Event| kept(event, shut, mute, channels, controllers);
                let (source, dest) = index_two(self.bufs.as_mut_slice(), a as usize, out as usize);
                let ghost held = source.events@;
                let len: usize = source.events.len();
                let start_at: usize = if from < len {
                    from
                } else {
                    len
                };
                NoteState::push_kept(
                    &mut dest.events,
                    &mut self.dropped,
                    source.events.as_slice(),
                    start_at,
                    shut,
                    mute,
                    channels,
                    controllers,
                );
                proof {
                    assert(held.skip(start_at as int) =~= since(
                        before.bufs[a as int].events,
                        from,
                    ));
                    assert(self@ =~= before.appended(
                        out as int,
                        since(before.bufs[a as int].events, from).filter(keeps),
                    ));
                }
                self.follow_notes(out, base[out as usize]);
            },
        }
    }

    /// One sub-block's worth of the note half, appended to what the buffers
    /// already hold. `base` is where each of them stood beforehand.
    pub fn run_notes_step(
        &mut self,
        program: &Program,
        stage: Stage,
        events: &[Event],
        start: u32,
        frames: u32,
        lanes: &[Real],
        base: &[usize],
    )
        requires
            old(self).wf(),
            stage.notes.fits(program.note_ops@.len()),
            forall|i: int|
                stage.notes.start <= i < stage.notes.end ==> note_op_fits(
                    #[trigger] program.note_ops@[i],
                ),
            base@.len() == MAX_NOTE_BUFS,
            start + frames <= u32::MAX,
        ensures
            final(self).wf(),
            final(self)@ == old(self)@.ran(
                stage.notes.of(program.note_ops@),
                (NoteInput { events: events@, start, frames, lanes: lanes@, base: base@ }),
            ),
    {
        let ghost given = NoteInput { events: events@, start, frames, lanes: lanes@, base: base@ };
        let mut at: usize = stage.notes.start as usize;
        let end: usize = stage.notes.end as usize;
        let ghost ops = program.note_ops@;
        let ghost before = self@;
        assert(ops.subrange(at as int, at as int) =~= Seq::<NoteOp>::empty());
        while at < end
            invariant
                self.wf(),
                ops == program.note_ops@,
                stage.notes.start <= at <= end == stage.notes.end,
                end <= ops.len(),
                forall|i: int|
                    stage.notes.start <= i < stage.notes.end ==> note_op_fits(
                        #[trigger] program.note_ops@[i],
                    ),
                base@.len() == MAX_NOTE_BUFS,
                start + frames <= u32::MAX,
                given == (NoteInput {
                    events: events@,
                    start,
                    frames,
                    lanes: lanes@,
                    base: base@,
                }),
                self@ == before.ran(ops.subrange(stage.notes.start as int, at as int), given),
            decreases end - at,
        {
            proof {
                let seen = ops.subrange(stage.notes.start as int, at + 1);
                assert(seen.drop_last() =~= ops.subrange(stage.notes.start as int, at as int));
                assert(seen.last() == ops[at as int]);
            }
            self.run_note_op(program.note_ops[at], events, start, frames, lanes, base);
            at += 1;
        }
    }

    pub fn new() -> (r: NoteState)
        ensures
            r.wf(),
            r@.bufs == Seq::new(MAX_NOTE_BUFS as nat, |i: int| BufModel::empty()),
            r@.streams == Seq::new(MAX_NOTE_BUFS as nat, |i: int| None::<NoteStream>),
            r@.emitted == Seq::new(MAX_NOTE_EMITS as nat, |i: int| Real::unset()),
            r@.dropped == 0,
    {
        let mut bufs: Vec<NoteBuf> = Vec::with_capacity(MAX_NOTE_BUFS);
        let mut streams: Vec<Option<NoteStream>> = Vec::with_capacity(MAX_NOTE_BUFS);
        while bufs.len() < MAX_NOTE_BUFS
            invariant
                bufs@.len() == streams@.len() <= MAX_NOTE_BUFS,
                forall|i: int| 0 <= i < bufs@.len() ==> (#[trigger] bufs@[i])@ == BufModel::empty(),
                forall|i: int| 0 <= i < streams@.len() ==> #[trigger] streams@[i] is None,
            decreases MAX_NOTE_BUFS - bufs@.len(),
        {
            bufs.push(NoteBuf::new());
            streams.push(None);
        }
        let emitted: Vec<Real> = vec![Real::not_set(); MAX_NOTE_EMITS];
        NoteState { bufs, streams, emitted, dropped: 0 }
    }

    /// The stream that `next` carries on, if there is one.
    fn find_stream(&self, next: NoteStream, remap: &Vec<Option<usize>>) -> (r: Option<usize>)
        requires
            self.wf(),
            remap@.len() == MAX_NOTE_BUFS,
            next.source matches Some(source) ==> source < MAX_NOTE_BUFS,
        ensures
            r == carried_from(self.streams@, next, remap@, 0),
    {
        let mut at: usize = 0;
        while at < self.streams.len()
            invariant
                self.wf(),
                at <= self.streams@.len(),
                remap@.len() == MAX_NOTE_BUFS,
                next.source matches Some(source) ==> source < MAX_NOTE_BUFS,
                carried_from(self.streams@, next, remap@, 0) == carried_from(
                    self.streams@,
                    next,
                    remap@,
                    at as int,
                ),
            decreases self.streams@.len() - at,
        {
            if let Some(old) = self.streams[at] {
                if old.node == next.node && old.port == next.port && old.kind == next.kind {
                    let sourced: bool = match (old.source, next.source) {
                        (None, None) => true,
                        (Some(from), Some(to)) => match remap[to as usize] {
                            Some(found) => found == from as usize,
                            None => false,
                        },
                        _ => false,
                    };
                    if sourced {
                        return Some(at);
                    }
                }
            }
            at += 1;
        }
        None
    }

    /// Takes up the streams of the next program, and says which buffer each of
    /// its buffers was.
    pub fn adopt(&mut self, streams: &[NoteStream]) -> (remap: Vec<Option<usize>>)
        requires
            old(self).wf(),
            streams@.len() <= MAX_NOTE_BUFS,
            forall|i: int|
                0 <= i < streams@.len() ==> ((#[trigger] streams@[i]).source matches Some(source)
                    ==> source < MAX_NOTE_BUFS),
        ensures
            final(self).wf(),
            final(self)@ == old(self)@.adopted(streams@),
            remap@ == carried(old(self)@.streams, streams@, streams@.len()),
    {
        let ghost before = self@;
        let mut remap: Vec<Option<usize>> = vec![None; MAX_NOTE_BUFS];
        let mut to: usize = 0;
        assert(remap@ =~= carried(before.streams, streams@, 0));
        while to < streams.len()
            invariant
                self.wf(),
                self@ == before,
                to <= streams@.len() <= MAX_NOTE_BUFS,
                remap@.len() == MAX_NOTE_BUFS,
                remap@ == carried(before.streams, streams@, to as nat),
                forall|i: int|
                    0 <= i < streams@.len() ==> ((#[trigger] streams@[i]).source matches Some(
                        source,
                    ) ==> source < MAX_NOTE_BUFS),
            decreases streams@.len() - to,
        {
            let found: Option<usize> = self.find_stream(streams[to], &remap);
            remap[to] = found;
            to += 1;
        }
        proof {
            lemma_carried(before.streams, streams@, streams@.len());
        }

        let mut order: Vec<usize> = Vec::with_capacity(MAX_NOTE_BUFS);
        while order.len() < MAX_NOTE_BUFS
            invariant
                order@.len() <= MAX_NOTE_BUFS,
                forall|i: int| 0 <= i < order@.len() ==> #[trigger] order@[i] == i,
            decreases MAX_NOTE_BUFS - order@.len(),
        {
            order.push(order.len());
        }
        let mut slot: usize = 0;
        let ghost old_bufs = self.bufs@;
        while slot < MAX_NOTE_BUFS
            invariant
                slot <= MAX_NOTE_BUFS,
                remap@.len() == MAX_NOTE_BUFS,
                self.wf(),
                old_bufs.len() == MAX_NOTE_BUFS,
                before.bufs == bufs_view(old_bufs),
                self.streams@ == before.streams,
                self.emitted@ == before.emitted,
                self.dropped == before.dropped,
                order@.len() == MAX_NOTE_BUFS,
                forall|i: int|
                    0 <= i < remap@.len() ==> (#[trigger] remap@[i] matches Some(from) ==> from
                        < remap@.len()),
                arranged(remap@, slot as nat).len() == MAX_NOTE_BUFS,
                forall|i: int|
                    0 <= i < MAX_NOTE_BUFS ==> #[trigger] order@[i] == arranged(
                        remap@,
                        slot as nat,
                    )[i],
                forall|i: int|
                    0 <= i < MAX_NOTE_BUFS ==> (#[trigger] self.bufs@[i]) == old_bufs[order@[i] as int],
            decreases MAX_NOTE_BUFS - slot,
        {
            if let Some(from) = remap[slot] {
                let ghost earlier = arranged(remap@, slot as nat);
                proof {
                    lemma_arranged(remap@, slot as nat);
                    lemma_arranged(remap@, (slot + 1) as nat);
                    assert(earlier.contains(from as int));
                    assert(order@[earlier.index_of(from as int)] == from);
                }
                let mut at: usize = 0;
                while order[at] != from
                    invariant
                        at < order@.len(),
                        order@.len() == MAX_NOTE_BUFS,
                        exists|k: int| at <= k < order@.len() && order@[k] == from,
                    decreases order@.len() - at,
                {
                    at += 1;
                }
                assert(at == earlier.index_of(from as int));
                swap_two(self.bufs.as_mut_slice(), slot, at);
                swap_two(order.as_mut_slice(), slot, at);
            } else {
                proof {
                    lemma_arranged(remap@, (slot + 1) as nat);
                }
            }
            slot += 1;
        }
        proof {
            lemma_arranged(remap@, MAX_NOTE_BUFS as nat);
        }

        let ghost placed = self.bufs@;
        let mut index: usize = 0;
        while index < MAX_NOTE_BUFS
            invariant
                index <= MAX_NOTE_BUFS,
                self.wf(),
                remap@.len() == MAX_NOTE_BUFS,
                placed.len() == MAX_NOTE_BUFS,
                self.emitted@ == before.emitted,
                self.dropped == before.dropped,
                forall|i: int|
                    0 <= i < MAX_NOTE_BUFS ==> (#[trigger] self.bufs@[i])@ == if i < index
                        && remap@[i] is None {
                        BufModel::empty()
                    } else {
                        placed[i]@
                    },
                forall|i: int|
                    0 <= i < index ==> #[trigger] self.streams@[i] == if i < streams@.len() {
                        Some(streams@[i])
                    } else {
                        None
                    },
            decreases MAX_NOTE_BUFS - index,
        {
            if remap[index].is_none() {
                self.bufs[index].events.clear();
                self.bufs[index].silence();
            }
            self.streams[index] =
            if index < streams.len() {
                Some(streams[index])
            } else {
                None
            };
            index += 1;
        }
        self.forget_emitted();
        assert(self@.bufs =~= before.adopted(streams@).bufs);
        assert(self@ =~= before.adopted(streams@));
        remap
    }

    /// Forgets what has been sent, so that every controller is sent again.
    pub fn forget_emitted(&mut self)
        requires
            old(self).wf(),
        ensures
            final(self).wf(),
            final(self)@ == (NotesModel {
                emitted: Seq::new(MAX_NOTE_EMITS as nat, |i: int| Real::unset()),
                ..old(self)@
            }),
    {
        let mut at: usize = 0;
        while at < self.emitted.len()
            invariant
                at <= self.emitted@.len(),
                self.wf(),
                self.bufs == old(self).bufs,
                self.streams == old(self).streams,
                self.dropped == old(self).dropped,
                forall|i: int| 0 <= i < at ==> #[trigger] self.emitted@[i] == Real::unset(),
            decreases self.emitted@.len() - at,
        {
            self.emitted[at] = Real::not_set();
            at += 1;
        }
    }

    /// Forgets what is being played and what has been said about it.
    pub fn forget(&mut self)
        requires
            old(self).wf(),
        ensures
            final(self).wf(),
            final(self)@ == (NotesModel {
                bufs: Seq::new(MAX_NOTE_BUFS as nat, |i: int| BufModel::empty()),
                emitted: Seq::new(MAX_NOTE_EMITS as nat, |i: int| Real::unset()),
                ..old(self)@
            }),
    {
        let mut at: usize = 0;
        while at < self.bufs.len()
            invariant
                at <= self.bufs@.len(),
                self.wf(),
                self.emitted == old(self).emitted,
                self.streams == old(self).streams,
                self.dropped == old(self).dropped,
                forall|i: int| 0 <= i < at ==> (#[trigger] self.bufs@[i])@ == BufModel::empty(),
            decreases self.bufs@.len() - at,
        {
            self.bufs[at].silence();
            self.bufs[at].events.clear();
            at += 1;
        }
        self.forget_emitted();
    }
}

} // verus!
