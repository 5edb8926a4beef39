//! What becomes of a note that comes in: the number it is given, who still plays it, and
//! when the host is told that it is over.
use vstd::prelude::*;
use crate::engine::{reported, taken};
use crate::event::{Event, NoteEvent};
use crate::ledger::{
    answering_from, destined_from, law_a_note_stays_or_is_reported, numbered_from, Destination,
    LedgerModel, LiveModel,
};
use crate::number::Real;
use crate::run::ledger_told;

verus! {

/// A note-on is entered under the number it is handed on with, as the host knows it, and
/// nothing else of the event changes. Where there is room all other notes stay; where there
/// is none the longest alive makes room, and is reported and counted.
pub proof fn law_a_note_on_is_entered(
    ledger: LedgerModel,
    note_id: Option<i32>,
    port: i16,
    channel: i16,
    key: i16,
    velocity: Real,
    sample_offset: u32,
)
    ensures
        ({
            let (after, told) = ledger.translated(
                NoteEvent::NoteOn { note_id, port, channel, key, velocity, sample_offset },
            );
            let note = after.notes.last();
            &&& told == (NoteEvent::NoteOn {
                note_id: Some(note.id),
                port,
                channel,
                key,
                velocity,
                sample_offset,
            })
            &&& note.id == ledger.next_id
            &&& note.name.note_id == note_id && note.name.port == port && note.name.channel
                == channel && note.name.key == key
            &&& !note.released
            &&& note.owed == 0
            &&& note.fallbacks.len() == 0
            &&& ledger.notes.len() < 256 ==> {
                &&& after.notes == ledger.notes.push(note)
                &&& after.gone == ledger.gone
                &&& after.stolen == ledger.stolen
            }
            &&& ledger.notes.len() >= 256 ==> {
                &&& after.notes == ledger.notes.skip(1).push(note)
                &&& after.gone == ledger.gone.push(ledger.notes[0].name)
                &&& ledger.stolen < u64::MAX ==> after.stolen == ledger.stolen + 1
            }
            &&& 0 <= ledger.next_id < i32::MAX ==> after.next_id == ledger.next_id + 1
            &&& ledger.next_id == i32::MAX ==> after.next_id == 0
        }),
{
}

/// Whether a note is one that a note-off can end: still held, at the same place, and not
/// under another name.
pub open spec fn can_end(
    note: LiveModel,
    note_id: Option<i32>,
    port: i16,
    channel: i16,
    key: i16,
) -> bool {
    &&& !note.released
    &&& note.name.port == port && note.name.channel == channel && note.name.key == key
    &&& !(note_id is Some && note.name.note_id is Some && note_id != note.name.note_id)
}

proof fn lemma_answering(
    notes: Seq<LiveModel>,
    note_id: Option<i32>,
    port: i16,
    channel: i16,
    key: i16,
    at: int,
    i: int,
)
    requires
        0 <= at <= i < notes.len(),
        can_end(notes[i], note_id, port, channel, key),
        forall|j: int|
            at <= j < i ==> !can_end(#[trigger] notes[j], note_id, port, channel, key),
    ensures
        answering_from(notes, note_id, port, channel, key, at) == Some(i),
    decreases i - at,
{
    if at < i {
        assert(!can_end(notes[at], note_id, port, channel, key));
        lemma_answering(notes, note_id, port, channel, key, at + 1, i);
    }
}

proof fn lemma_none_answers(
    notes: Seq<LiveModel>,
    note_id: Option<i32>,
    port: i16,
    channel: i16,
    key: i16,
    at: int,
)
    requires
        0 <= at,
        forall|j: int|
            at <= j < notes.len() ==> !can_end(#[trigger] notes[j], note_id, port, channel, key),
    ensures
        answering_from(notes, note_id, port, channel, key, at) is None,
    decreases notes.len() - at,
{
    if at < notes.len() {
        assert(!can_end(notes[at], note_id, port, channel, key));
        lemma_none_answers(notes, note_id, port, channel, key, at + 1);
    }
}

/// A note-off ends the longest alive of the notes it can end, and is handed on under that
/// note's number. One that can end none is handed on without a number and changes nothing.
pub proof fn law_a_note_off_ends_the_longest_alive(
    ledger: LedgerModel,
    note_id: Option<i32>,
    port: i16,
    channel: i16,
    key: i16,
    velocity: Real,
    sample_offset: u32,
    i: int,
)
    ensures
        ({
            let (after, told) = ledger.translated(
                NoteEvent::NoteOff { note_id, port, channel, key, velocity, sample_offset },
            );
            &&& 0 <= i < ledger.notes.len() && can_end(
                ledger.notes[i],
                note_id,
                port,
                channel,
                key,
            ) && (forall|j: int|
                0 <= j < i ==> !can_end(
                    #[trigger] ledger.notes[j],
                    note_id,
                    port,
                    channel,
                    key,
                )) ==> {
                &&& told == (NoteEvent::NoteOff {
                    note_id: Some(ledger.notes[i].id),
                    port,
                    channel,
                    key,
                    velocity,
                    sample_offset,
                })
                &&& after.notes.len() == ledger.notes.len()
                &&& after.notes[i].released
                &&& after.notes[i].owed == ledger.notes[i].owed
                &&& after.notes[i].fallbacks == ledger.notes[i].fallbacks
                &&& after.notes[i].name == ledger.notes[i].name
                &&& forall|k: int|
                    0 <= k < ledger.notes.len() && k != i ==> #[trigger] after.notes[k]
                        == ledger.notes[k]
            }
            &&& (forall|j: int|
                0 <= j < ledger.notes.len() ==> !can_end(
                    #[trigger] ledger.notes[j],
                    note_id,
                    port,
                    channel,
                    key,
                )) ==> after == ledger && told == (NoteEvent::NoteOff {
                note_id: None,
                port,
                channel,
                key,
                velocity,
                sample_offset,
            })
        }),
{
    if 0 <= i < ledger.notes.len() && can_end(ledger.notes[i], note_id, port, channel, key) && (
    forall|j: int|
        0 <= j < i ==> !can_end(#[trigger] ledger.notes[j], note_id, port, channel, key)) {
        lemma_answering(ledger.notes, note_id, port, channel, key, 0, i);
    }
    if forall|j: int|
        0 <= j < ledger.notes.len() ==> !can_end(
            #[trigger] ledger.notes[j],
            note_id,
            port,
            channel,
            key,
        ) {
        lemma_none_answers(ledger.notes, note_id, port, channel, key, 0);
    }
}

/// An event that is neither a note-on nor a note-off is handed on as it is.
pub proof fn law_other_events_pass(ledger: LedgerModel, event: NoteEvent)
    requires
        !(event is NoteOn),
        !(event is NoteOff),
    ensures
        ledger.translated(event) == (ledger, event),
{
}

proof fn lemma_numbered(notes: Seq<LiveModel>, id: i32, at: int, i: int)
    requires
        0 <= at <= i < notes.len(),
        notes[i].id == id,
        forall|j: int| at <= j < i ==> (#[trigger] notes[j]).id != id,
    ensures
        numbered_from(notes, id, at) == Some(i),
    decreases i - at,
{
    if at < i {
        assert(notes[at].id != id);
        lemma_numbered(notes, id, at + 1, i);
    }
}

/// No two notes have one number.
pub open spec fn told_apart(notes: Seq<LiveModel>) -> bool {
    forall|i: int, j: int|
        0 <= i < j < notes.len() ==> (#[trigger] notes[i]).id != (#[trigger] notes[j]).id
}

/// A plugin that reports is owed for from when it is handed a note until it says that it is
/// done: being handed one more and saying so once leaves the note as it was.
pub proof fn law_a_reporting_plugin_is_waited_for(
    ledger: LedgerModel,
    port: i16,
    channel: i16,
    key: i16,
    velocity: Real,
    sample_offset: u32,
    instance: usize,
    i: int,
)
    requires
        0 <= i < ledger.notes.len(),
        told_apart(ledger.notes),
        ledger.notes[i].owed < u32::MAX,
    ensures
        ({
            let id = ledger.notes[i].id;
            let on = Event::Note(
                NoteEvent::NoteOn {
                    note_id: Some(id),
                    port,
                    channel,
                    key,
                    velocity,
                    sample_offset,
                },
            );
            let end = Event::Note(
                NoteEvent::NoteEnd { note_id: Some(id), port, channel, key, sample_offset },
            );
            let handed = ledger_told(ledger, on, instance, true);
            let done = reported(handed, seq![end], 1);
            &&& handed.notes[i].owed == ledger.notes[i].owed + 1
            &&& handed.notes[i].fallbacks == ledger.notes[i].fallbacks
            &&& done.notes == ledger.notes
            &&& forall|k: int|
                0 <= k < ledger.notes.len() && k != i ==> #[trigger] handed.notes[k]
                    == ledger.notes[k]
        }),
{
    let id = ledger.notes[i].id;
    assert forall|j: int| 0 <= j < i implies (#[trigger] ledger.notes[j]).id != id by {}
    lemma_numbered(ledger.notes, id, 0, i);
    let handed = ledger.handed(id);
    assert forall|j: int| 0 <= j < i implies (#[trigger] handed.notes[j]).id != id by {
        assert(handed.notes[j] == ledger.notes[j]);
    }
    lemma_numbered(handed.notes, id, 0, i);
    let end = Event::Note(
        NoteEvent::NoteEnd { note_id: Some(id), port, channel, key, sample_offset },
    );
    reveal_with_fuel(reported, 2);
    let done = reported(handed, seq![end], 1);
    assert(done.notes =~= ledger.notes);
}

proof fn lemma_destined(list: Seq<Destination>, to: Destination, at: int, i: int)
    requires
        0 <= at <= i < list.len(),
        list[i] == to,
        forall|j: int| at <= j < i ==> #[trigger] list[j] != to,
    ensures
        destined_from(list, to, at) == Some(i),
    decreases i - at,
{
    if at < i {
        assert(list[at] != to);
        lemma_destined(list, to, at + 1, i);
    }
}

/// A plugin that does not report plays a note from when it is handed it until it is handed
/// the note-off, at the place it was handed it: after both the note is as it was.
pub proof fn law_a_silent_plugin_plays_until_it_is_let_go(
    ledger: LedgerModel,
    port: i16,
    channel: i16,
    key: i16,
    velocity: Real,
    sample_offset: u32,
    instance: usize,
    i: int,
)
    requires
        0 <= i < ledger.notes.len(),
        told_apart(ledger.notes),
        !ledger.notes[i].fallbacks.contains(Destination { instance, port }),
    ensures
        ({
            let id = ledger.notes[i].id;
            let on = Event::Note(
                NoteEvent::NoteOn {
                    note_id: Some(id),
                    port,
                    channel,
                    key,
                    velocity,
                    sample_offset,
                },
            );
            let off = Event::Note(
                NoteEvent::NoteOff {
                    note_id: Some(id),
                    port,
                    channel,
                    key,
                    velocity,
                    sample_offset,
                },
            );
            let handed = ledger_told(ledger, on, instance, false);
            let gone = ledger_told(handed, off, instance, false);
            &&& handed.notes[i].fallbacks == ledger.notes[i].fallbacks.push(
                Destination { instance, port },
            )
            &&& handed.notes[i].owed == ledger.notes[i].owed
            &&& gone.notes == ledger.notes
            &&& ledger_told(handed, off, instance, true) == handed
        }),
{
    let id = ledger.notes[i].id;
    let to = Destination { instance, port };
    assert forall|j: int| 0 <= j < i implies (#[trigger] ledger.notes[j]).id != id by {}
    lemma_numbered(ledger.notes, id, 0, i);
    let handed = ledger.handed_over(id, to);
    assert forall|j: int| 0 <= j < i implies (#[trigger] handed.notes[j]).id != id by {
        assert(handed.notes[j] == ledger.notes[j]);
    }
    lemma_numbered(handed.notes, id, 0, i);
    let list = handed.notes[i].fallbacks;
    let last = list.len() - 1;
    assert forall|j: int| 0 <= j < last implies #[trigger] list[j] != to by {
        assert(list[j] == ledger.notes[i].fallbacks[j]);
    }
    lemma_destined(list, to, 0, last);
    assert(list.remove(last) =~= ledger.notes[i].fallbacks);
    assert(handed.let_go(id, to).notes =~= ledger.notes);
}

/// At the end of a block a note that nothing plays any more is reported and leaves, and one
/// that something still plays stays.
pub proof fn law_a_note_is_over_when_nothing_plays_it(ledger: LedgerModel, i: int)
    requires
        0 <= i < ledger.notes.len(),
    ensures
        ({
            let note = ledger.notes[i];
            &&& note.owed == 0 && note.fallbacks.len() == 0 ==> ledger.endings().contains(
                note.name,
            ) && !ledger.settled().notes.contains(note)
            &&& note.owed > 0 || note.fallbacks.len() > 0 ==> ledger.settled().notes.contains(note)
        }),
{
    law_a_note_stays_or_is_reported(ledger, i);
}

/// Whether an event taken in is still the same: a note-on or a note-off of the same key at
/// the same place and time, or the very same event.
pub open spec fn same_but_for_its_number(event: Event, told: Event) -> bool {
    match event {
        Event::Note(
            NoteEvent::NoteOn { port, channel, key, velocity, sample_offset, .. },
        ) => told matches Event::Note(
            NoteEvent::NoteOn {
                port: p,
                channel: c,
                key: k,
                velocity: v,
                sample_offset: s,
                ..
            },
        ) && p == port && c == channel && k == key && v == velocity && s == sample_offset,
        Event::Note(
            NoteEvent::NoteOff { port, channel, key, velocity, sample_offset, .. },
        ) => told matches Event::Note(
            NoteEvent::NoteOff {
                port: p,
                channel: c,
                key: k,
                velocity: v,
                sample_offset: s,
                ..
            },
        ) && p == port && c == channel && k == key && v == velocity && s == sample_offset,
        _ => told == event,
    }
}

/// The events of a block are taken in one by one and in their order, as many as there is
/// room for; the rest are counted.
pub proof fn law_events_are_taken_in_order(
    ledger: LedgerModel,
    events: Seq<Event>,
    count: nat,
    i: int,
)
    requires
        count <= events.len(),
    ensures
        ({
            let (after, list, lost) = taken(ledger, events, count);
            &&& list.len() + lost == count
            &&& list.len() <= 1024
            &&& lost > 0 ==> list.len() == 1024
            &&& 0 <= i < list.len() ==> same_but_for_its_number(events[i], list[i])
        }),
    decreases count,
{
    if count > 0 {
        law_events_are_taken_in_order(ledger, events, (count - 1) as nat, i);
    }
}

} // verus!
