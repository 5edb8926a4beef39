//! Who is playing, and who still owes an ending.
//!
//! Every note that comes in is given a number of the graph's own, and every
//! note-off is matched back to the note it ends by where it was played, because
//! not every note-off carries a number. A note is over when nothing it was
//! handed to is still playing it; the DAW is then told, under the name it knows.
use vstd::prelude::*;
use crate::event::NoteEvent;

verus! {

/// How many notes can be alive at once.
pub const MAX_LIVE_NOTES: usize = 256;

/// A note that is over, as the DAW knows it.
#[derive(Debug, Clone, Copy, PartialEq, Eq, Structural)]
pub struct Ended {
    pub note_id: Option<i32>,
    pub port: i16,
    pub channel: i16,
    pub key: i16,
}

/// Where a note went that will not report its end: it is over there when it is
/// let go.
#[derive(Debug, Clone, Copy, PartialEq, Eq, Structural)]
pub struct Destination {
    pub instance: usize,
    pub port: i16,
}

/// A note that is not over.
#[derive(Debug)]
pub struct Live {
    pub id: i32,
    pub name: Ended,
    /// The key has been let go.
    pub released: bool,
    /// How many plugins will say that they are done with it.
    pub owed: u32,
    pub fallbacks: Vec<Destination>,
}

#[verifier::ext_equal]
pub struct LiveModel {
    pub id: i32,
    pub name: Ended,
    pub released: bool,
    pub owed: u32,
    pub fallbacks: Seq<Destination>,
}

impl View for Live {
    type V = LiveModel;

    open spec fn view(&self) -> LiveModel {
        LiveModel {
            id: self.id,
            name: self.name,
            released: self.released,
            owed: self.owed,
            fallbacks: self.fallbacks@,
        }
    }
}

impl LiveModel {
    /// Nothing plays the note any more.
    pub open spec fn over(self) -> bool {
        self.owed == 0 && self.fallbacks.len() == 0
    }

    /// Whether a note-off is meant for this note. A name it carries has to be
    /// the note's own.
    pub open spec fn answers(self, note_id: Option<i32>, port: i16, channel: i16, key: i16) -> bool {
        &&& !self.released
        &&& self.name.port == port
        &&& self.name.channel == channel
        &&& self.name.key == key
        &&& (note_id is None || self.name.note_id is None || self.name.note_id == note_id)
    }
}

#[derive(Debug)]
pub struct NoteLedger {
    /// The longest alive first.
    pub notes: Vec<Live>,
    pub next_id: i32,
    /// Notes that had to make room, to be reported with the next endings.
    pub gone: Vec<Ended>,
    pub stolen: u64,
}

#[verifier::ext_equal]
pub struct LedgerModel {
    pub notes: Seq<LiveModel>,
    pub next_id: i32,
    pub gone: Seq<Ended>,
    pub stolen: u64,
}

pub open spec fn live_of(notes: Seq<Live>) -> Seq<LiveModel> {
    Seq::new(notes.len(), |i: int| notes[i]@)
}

impl View for NoteLedger {
    type V = LedgerModel;

    open spec fn view(&self) -> LedgerModel {
        LedgerModel {
            notes: live_of(self.notes@),
            next_id: self.next_id,
            gone: self.gone@,
            stolen: self.stolen,
        }
    }
}

/// The first note from `at` on that a note-off is meant for.
pub open spec fn answering_from(
    notes: Seq<LiveModel>,
    note_id: Option<i32>,
    port: i16,
    channel: i16,
    key: i16,
    at: int,
) -> Option<int>
    decreases notes.len() - at,
{
    if at >= notes.len() {
        None
    } else if notes[at].answers(note_id, port, channel, key) {
        Some(at)
    } else {
        answering_from(notes, note_id, port, channel, key, at + 1)
    }
}

/// The first note from `at` on with that number.
pub open spec fn numbered_from(notes: Seq<LiveModel>, id: i32, at: int) -> Option<int>
    decreases notes.len() - at,
{
    if at >= notes.len() {
        None
    } else if notes[at].id == id {
        Some(at)
    } else {
        numbered_from(notes, id, at + 1)
    }
}

/// The first such destination from `at` on.
pub open spec fn destined_from(list: Seq<Destination>, to: Destination, at: int) -> Option<int>
    decreases list.len() - at,
{
    if at >= list.len() {
        None
    } else if list[at] == to {
        Some(at)
    } else {
        destined_from(list, to, at + 1)
    }
}

pub open spec fn names_of(notes: Seq<LiveModel>) -> Seq<Ended> {
    Seq::new(notes.len(), |i: int| notes[i].name)
}

pub open spec fn following_id(id: i32) -> i32 {
    if id == i32::MAX || id < 0 {
        0
    } else {
        (id + 1) as i32
    }
}

impl LedgerModel {
    pub open spec fn empty() -> LedgerModel {
        LedgerModel { notes: Seq::empty(), next_id: 0, gone: Seq::empty(), stolen: 0 }
    }

    /// Room for one more note: the longest alive gives way.
    pub open spec fn with_room(self) -> LedgerModel {
        if self.notes.len() < MAX_LIVE_NOTES {
            self
        } else {
            LedgerModel {
                notes: self.notes.skip(1),
                gone: self.gone.push(self.notes[0].name),
                stolen: if self.stolen == u64::MAX {
                    u64::MAX
                } else {
                    (self.stolen + 1) as u64
                },
                ..self
            }
        }
    }

    /// A note struck.
    pub open spec fn struck(self, name: Ended) -> LedgerModel {
        let room = self.with_room();
        LedgerModel {
            notes: room.notes.push(
                LiveModel {
                    id: self.next_id,
                    name,
                    released: false,
                    owed: 0,
                    fallbacks: Seq::empty(),
                },
            ),
            next_id: following_id(self.next_id),
            ..room
        }
    }

    /// What becomes of the ledger and of an event that comes in.
    pub open spec fn translated(self, event: NoteEvent) -> (LedgerModel, NoteEvent) {
        match event {
            NoteEvent::NoteOn { note_id, port, channel, key, velocity, sample_offset } => (
                self.struck(Ended { note_id, port, channel, key }),
                NoteEvent::NoteOn {
                    note_id: Some(self.next_id),
                    port,
                    channel,
                    key,
                    velocity,
                    sample_offset,
                },
            ),
            NoteEvent::NoteOff { note_id, port, channel, key, velocity, sample_offset } => {
                match answering_from(self.notes, note_id, port, channel, key, 0) {
                    Some(at) => (
                        LedgerModel {
                            notes: self.notes.update(
                                at,
                                LiveModel { released: true, ..self.notes[at] },
                            ),
                            ..self
                        },
                        NoteEvent::NoteOff {
                            note_id: Some(self.notes[at].id),
                            port,
                            channel,
                            key,
                            velocity,
                            sample_offset,
                        },
                    ),
                    None => (
                        self,
                        NoteEvent::NoteOff {
                            note_id: None,
                            port,
                            channel,
                            key,
                            velocity,
                            sample_offset,
                        },
                    ),
                }
            },
            _ => (self, event),
        }
    }

    /// A note handed to a plugin that will say when it is done.
    pub open spec fn handed(self, id: i32) -> LedgerModel {
        match numbered_from(self.notes, id, 0) {
            Some(at) => LedgerModel {
                notes: self.notes.update(
                    at,
                    LiveModel {
                        owed: if self.notes[at].owed == u32::MAX {
                            u32::MAX
                        } else {
                            (self.notes[at].owed + 1) as u32
                        },
                        ..self.notes[at]
                    },
                ),
                ..self
            },
            None => self,
        }
    }

    /// A note handed to a plugin that will not.
    pub open spec fn handed_over(self, id: i32, to: Destination) -> LedgerModel {
        match numbered_from(self.notes, id, 0) {
            Some(at) => LedgerModel {
                notes: self.notes.update(
                    at,
                    LiveModel {
                        fallbacks: self.notes[at].fallbacks.push(to),
                        ..self.notes[at]
                    },
                ),
                ..self
            },
            None => self,
        }
    }

    /// A note let go of at such a plugin.
    pub open spec fn let_go(self, id: i32, to: Destination) -> LedgerModel {
        match numbered_from(self.notes, id, 0) {
            Some(at) => match destined_from(self.notes[at].fallbacks, to, 0) {
                Some(k) => LedgerModel {
                    notes: self.notes.update(
                        at,
                        LiveModel {
                            fallbacks: self.notes[at].fallbacks.remove(k),
                            ..self.notes[at]
                        },
                    ),
                    ..self
                },
                None => self,
            },
            None => self,
        }
    }

    /// A plugin done with a note.
    pub open spec fn done(self, id: i32) -> LedgerModel {
        match numbered_from(self.notes, id, 0) {
            Some(at) => LedgerModel {
                notes: self.notes.update(
                    at,
                    LiveModel {
                        owed: if self.notes[at].owed == 0 {
                            0
                        } else {
                            (self.notes[at].owed - 1) as u32
                        },
                        ..self.notes[at]
                    },
                ),
                ..self
            },
            None => self,
        }
    }

    /// The end of a block: the notes that are over leave.
    pub open spec fn settled(self) -> LedgerModel {
        LedgerModel {
            notes: self.notes.filter(|note: LiveModel| !note.over()),
            gone: Seq::empty(),
            ..self
        }
    }

    /// The notes to report at the end of a block: those that made room, and
    /// those that are over.
    pub open spec fn endings(self) -> Seq<Ended> {
        self.gone + names_of(self.notes.filter(|note: LiveModel| note.over()))
    }

    /// No two notes have one number, and the next number is new.
    pub open spec fn numbered_apart(self) -> bool {
        &&& forall|i: int, j: int|
            0 <= i < j < self.notes.len() ==> (#[trigger] self.notes[i]).id != (
            #[trigger] self.notes[j]).id
        &&& forall|i: int| 0 <= i < self.notes.len() ==> (#[trigger] self.notes[i]).id != self.next_id
    }
}

proof fn lemma_answering_from(
    notes: Seq<LiveModel>,
    note_id: Option<i32>,
    port: i16,
    channel: i16,
    key: i16,
    at: int,
)
    requires
        0 <= at,
    ensures
        match answering_from(notes, note_id, port, channel, key, at) {
            Some(i) => at <= i < notes.len() && notes[i].answers(note_id, port, channel, key),
            None => forall|i: int|
                at <= i < notes.len() ==> !(#[trigger] notes[i]).answers(
                    note_id,
                    port,
                    channel,
                    key,
                ),
        },
    decreases notes.len() - at,
{
    if at < notes.len() && !notes[at].answers(note_id, port, channel, key) {
        lemma_answering_from(notes, note_id, port, channel, key, at + 1);
    }
}

/// A note-off lets go of exactly the note it is handed on as, and of no other: a
/// note-off that answers to nothing changes nothing.
pub proof fn law_note_off_lifts_one(
    ledger: LedgerModel,
    note_id: Option<i32>,
    port: i16,
    channel: i16,
    key: i16,
    velocity: crate::number::Real,
    sample_offset: u32,
)
    ensures
        ({
            let event = NoteEvent::NoteOff {
                note_id,
                port,
                channel,
                key,
                velocity,
                sample_offset,
            };
            let (after, told) = ledger.translated(event);
            match answering_from(ledger.notes, note_id, port, channel, key, 0) {
                Some(at) => {
                    &&& told.id_of() == Some(ledger.notes[at].id)
                    &&& after.notes[at].released && !ledger.notes[at].released
                    &&& after.notes.len() == ledger.notes.len()
                    &&& forall|i: int|
                        0 <= i < ledger.notes.len() && i != at ==> #[trigger] after.notes[i]
                            == ledger.notes[i]
                },
                None => told.id_of() is None && after == ledger,
            }
        }),
{
    lemma_answering_from(ledger.notes, note_id, port, channel, key, 0);
}

/// A note-on is given a number that no other note has, as long as the next
/// number has not come round to a note that is still alive.
pub proof fn law_notes_are_told_apart(ledger: LedgerModel, name: Ended)
    requires
        ledger.numbered_apart(),
        forall|i: int|
            0 <= i < ledger.notes.len() ==> (#[trigger] ledger.notes[i]).id != following_id(
                ledger.next_id,
            ),
    ensures
        ledger.struck(name).numbered_apart(),
        ledger.struck(name).notes.last().id == ledger.next_id,
{
    let room = ledger.with_room();
    let after = ledger.struck(name);
    assert forall|i: int, j: int| 0 <= i < j < after.notes.len() implies (
    #[trigger] after.notes[i]).id != (#[trigger] after.notes[j]).id by {
        if ledger.notes.len() < MAX_LIVE_NOTES {
            assert(after.notes[i] == ledger.notes[i]);
            if j < ledger.notes.len() {
                assert(after.notes[j] == ledger.notes[j]);
            }
        } else {
            assert(after.notes[i] == ledger.notes[i + 1]);
            if j < room.notes.len() {
                assert(after.notes[j] == ledger.notes[j + 1]);
            }
        }
    }
    assert forall|i: int| 0 <= i < after.notes.len() implies (#[trigger] after.notes[i]).id
        != after.next_id by {
        if i < room.notes.len() {
            if ledger.notes.len() < MAX_LIVE_NOTES {
                assert(after.notes[i] == ledger.notes[i]);
            } else {
                assert(after.notes[i] == ledger.notes[i + 1]);
            }
        }
    }
}

/// What is over and what is not make up all the notes.
proof fn lemma_over_or_live(notes: Seq<LiveModel>)
    ensures
        notes.filter(|note: LiveModel| note.over()).len() + notes.filter(
            |note: LiveModel| !note.over(),
        ).len() == notes.len(),
    decreases notes.len(),
{
    reveal(Seq::filter);
    if notes.len() > 0 {
        lemma_over_or_live(notes.drop_last());
    }
}

/// Every note is reported over once: at the end of a block the notes that are over
/// leave and are reported, each as often as it leaves, and the rest stay.
pub proof fn law_a_note_stays_or_is_reported(ledger: LedgerModel, i: int)
    requires
        0 <= i < ledger.notes.len(),
    ensures
        ledger.notes[i].over() ==> ledger.endings().contains(ledger.notes[i].name),
        !ledger.notes[i].over() <==> ledger.settled().notes.contains(ledger.notes[i]),
        ledger.endings().len() + ledger.settled().notes.len() == ledger.gone.len()
            + ledger.notes.len(),
        ledger.settled().gone.len() == 0,
{
    lemma_over_or_live(ledger.notes);
    let over = |note: LiveModel| note.over();
    let live = |note: LiveModel| !note.over();
    broadcast use vstd::seq_lib::group_filter_ensures;

    let note = ledger.notes[i];
    if note.over() {
        let left = ledger.notes.filter(over);
        assert(left.contains(note));
        let k = choose|k: int| 0 <= k < left.len() && left[k] == note;
        assert(names_of(left)[k] == note.name);
        assert(ledger.endings()[ledger.gone.len() + k] == note.name);
        if ledger.settled().notes.contains(note) {
            let k = choose|k: int|
                0 <= k < ledger.settled().notes.len() && ledger.settled().notes[k] == note;
            assert(live(ledger.notes.filter(live)[k]));
        }
    } else {
        assert(ledger.notes.filter(live).contains(note));
    }
}

impl NoteLedger {
    pub fn new() -> (r: NoteLedger)
        ensures
            r@ == LedgerModel::empty(),
    {
        let ledger: NoteLedger = NoteLedger {
            notes: Vec::new(),
            next_id: 0,
            gone: Vec::new(),
            stolen: 0,
        };
        assert(ledger@ =~= LedgerModel::empty());
        ledger
    }

    fn find_answering(&self, note_id: Option<i32>, port: i16, channel: i16, key: i16) -> (r: Option<
        usize,
    >)
        ensures
            match r {
                Some(at) => at < self.notes@.len() && answering_from(
                    self@.notes,
                    note_id,
                    port,
                    channel,
                    key,
                    0,
                ) == Some(at as int),
                None => answering_from(self@.notes, note_id, port, channel, key, 0) is None,
            },
    {
        let mut at: usize = 0;
        while at < self.notes.len()
            invariant
                at <= self.notes@.len(),
                answering_from(self@.notes, note_id, port, channel, key, 0) == answering_from(
                    self@.notes,
                    note_id,
                    port,
                    channel,
                    key,
                    at as int,
                ),
            decreases self.notes@.len() - at,
        {
            let note: &Live = &self.notes[at];
            assert(self@.notes[at as int] == note@);
            let named: bool = match (note_id, note.name.note_id) {
                (Some(a), Some(b)) => a == b,
                _ => true,
            };
            if !note.released && note.name.port == port && note.name.channel == channel
                && note.name.key == key && named {
                return Some(at);
            }
            at += 1;
        }
        None
    }

    fn find_numbered(&self, id: i32) -> (r: Option<usize>)
        ensures
            match r {
                Some(at) => at < self.notes@.len() && numbered_from(self@.notes, id, 0) == Some(
                    at as int,
                ),
                None => numbered_from(self@.notes, id, 0) is None,
            },
    {
        let mut at: usize = 0;
        while at < self.notes.len()
            invariant
                at <= self.notes@.len(),
                numbered_from(self@.notes, id, 0) == numbered_from(self@.notes, id, at as int),
            decreases self.notes@.len() - at,
        {
            assert(self@.notes[at as int] == self.notes@[at as int]@);
            if self.notes[at].id == id {
                return Some(at);
            }
            at += 1;
        }
        None
    }

    /// Takes a note in.
    fn strike(&mut self, name: Ended)
        ensures
            final(self)@ == old(self)@.struck(name),
    {
        let ghost before = self@;
        let id: i32 = self.next_id;
        if self.notes.len() >= MAX_LIVE_NOTES {
            let oldest: Live = self.notes.remove(0);
            self.gone.push(oldest.name);
            self.stolen = self.stolen.saturating_add(1);
            assert(self@ =~= before.with_room());
        }
        let ghost room = self@;
        self.notes.push(
            Live { id, name, released: false, owed: 0, fallbacks: Vec::new() },
        );
        self.next_id = if id == i32::MAX || id < 0 {
            0
        } else {
            id + 1
        };
        proof {
            let last = self.notes@.last()@;
            assert(last.fallbacks =~= Seq::empty());
            assert(self@ =~= before.struck(name));
        }
    }

    /// Gives a note-on a number of the graph's own, and a note-off the number of
    /// the note it ends.
    pub fn translate(&mut self, event: NoteEvent) -> (r: NoteEvent)
        ensures
            (final(self)@, r) == old(self)@.translated(event),
    {
        match event {
            NoteEvent::NoteOn { note_id, port, channel, key, velocity, sample_offset } => {
                let id: i32 = self.next_id;
                self.strike(Ended { note_id, port, channel, key });
                NoteEvent::NoteOn {
                    note_id: Some(id),
                    port,
                    channel,
                    key,
                    velocity,
                    sample_offset,
                }
            },
            NoteEvent::NoteOff { note_id, port, channel, key, velocity, sample_offset } => {
                let ghost before = self@;
                let named: Option<i32> = match self.find_answering(note_id, port, channel, key) {
                    Some(at) => {
                        let id: i32 = self.notes[at].id;
                        self.notes[at].released = true;
                        proof {
                            assert(self@.notes =~= before.notes.update(
                                at as int,
                                LiveModel { released: true, ..before.notes[at as int] },
                            ));
                        }
                        Some(id)
                    },
                    None => None,
                };
                NoteEvent::NoteOff { note_id: named, port, channel, key, velocity, sample_offset }
            },
            _ => event,
        }
    }

    /// Notes that a plugin that reports its endings was handed a note.
    pub fn delivered(&mut self, id: i32)
        ensures
            final(self)@ == old(self)@.handed(id),
    {
        let ghost before = self@;
        if let Some(at) = self.find_numbered(id) {
            let owed: u32 = self.notes[at].owed.saturating_add(1);
            self.notes[at].owed = owed;
            assert(self@.notes =~= before.notes.update(
                at as int,
                LiveModel { owed, ..before.notes[at as int] },
            ));
        }
    }

    /// Notes that a plugin that reports no endings was handed a note.
    pub fn delivered_with_fallback(&mut self, id: i32, instance: usize, port: i16)
        ensures
            final(self)@ == old(self)@.handed_over(id, (Destination { instance, port })),
    {
        let ghost before = self@;
        if let Some(at) = self.find_numbered(id) {
            self.notes[at].fallbacks.push(Destination { instance, port });
            assert(self@.notes =~= before.notes.update(
                at as int,
                LiveModel {
                    fallbacks: before.notes[at as int].fallbacks.push(
                        Destination { instance, port },
                    ),
                    ..before.notes[at as int]
                },
            ));
        }
    }

    /// Notes that such a plugin was told to let a note go.
    pub fn released_to(&mut self, id: i32, instance: usize, port: i16)
        ensures
            final(self)@ == old(self)@.let_go(id, (Destination { instance, port })),
    {
        let ghost before = self@;
        let to: Destination = Destination { instance, port };
        if let Some(at) = self.find_numbered(id) {
            assert(before.notes[at as int] == self.notes@[at as int]@);
            if let Some(k) = find_destination(&self.notes[at].fallbacks, to) {
                let _ = self.notes[at].fallbacks.remove(k);
                assert(self@.notes =~= before.notes.update(
                    at as int,
                    LiveModel {
                        fallbacks: before.notes[at as int].fallbacks.remove(k as int),
                        ..before.notes[at as int]
                    },
                ));
            }
        }
    }

    /// Notes that a plugin is done with a note.
    pub fn finished(&mut self, id: i32)
        ensures
            final(self)@ == old(self)@.done(id),
    {
        let ghost before = self@;
        if let Some(at) = self.find_numbered(id) {
            let owed: u32 = self.notes[at].owed.saturating_sub(1);
            self.notes[at].owed = owed;
            assert(self@.notes =~= before.notes.update(
                at as int,
                LiveModel { owed, ..before.notes[at as int] },
            ));
        }
    }

    /// Reports the notes that are over, and forgets them.
    pub fn end_block(&mut self, ended: &mut Vec<Ended>)
        ensures
            final(self)@ == old(self)@.settled(),
            final(ended)@ == old(ended)@ + old(self)@.endings(),
    {
        let ghost before = self@;
        let ghost had = ended@;
        let ghost over = |note: LiveModel| note.over();
        let ghost live = |note: LiveModel| !note.over();
        ended.append(&mut self.gone);
        let mut staying: Vec<Live> = Vec::new();
        std::mem::swap(&mut staying, &mut self.notes);
        let ghost all = before.notes;
        let mut count: usize = 0;
        let total: usize = staying.len();
        proof {
            reveal(Seq::filter);
            assert(all.take(0) =~= Seq::<LiveModel>::empty());
            assert(names_of(all.take(0).filter(over)) =~= Seq::<Ended>::empty());
            assert(live_of(staying@) =~= all);
            assert(all.skip(0) =~= all);
        }
        while count < total
            invariant
                count <= total,
                total == all.len(),
                all == before.notes,
                over == (|note: LiveModel| note.over()),
                live == (|note: LiveModel| !note.over()),
                live_of(staying@) == all.skip(count as int),
                live_of(self.notes@) == all.take(count as int).filter(live),
                ended@ == had + before.gone + names_of(all.take(count as int).filter(over)),
                self.gone@.len() == 0,
                self.next_id == before.next_id,
                self.stolen == before.stolen,
            decreases total - count,
        {
            assert(live_of(staying@).len() == all.len() - count);
            let ghost rest = staying@;
            let note: Live = staying.remove(0);
            proof {
                reveal(Seq::filter);
                assert(all.take(count + 1).drop_last() =~= all.take(count as int));
                assert(live_of(rest)[0] == note@);
                assert(all.take(count + 1).last() == note@);
                assert forall|i: int| 0 <= i < staying@.len() implies live_of(staying@)[i]
                    == all.skip(count + 1)[i] by {
                    assert(live_of(rest)[i + 1] == all.skip(count as int)[i + 1]);
                }
                assert(live_of(staying@) =~= all.skip(count + 1));
            }
            let ghost kept = self.notes@;
            let ghost told = ended@;
            if note.owed == 0 && note.fallbacks.len() == 0 {
                ended.push(note.name);
                assert(names_of(all.take(count + 1).filter(over)) =~= names_of(
                    all.take(count as int).filter(over),
                ).push(note.name));
                assert(ended@ =~= had + before.gone + names_of(
                    all.take(count + 1).filter(over),
                ));
            } else {
                self.notes.push(note);
                assert(live_of(self.notes@) =~= live_of(kept).push(note@));
            }
            count += 1;
        }
        proof {
            assert(all.take(all.len() as int) =~= all);
            assert(self@ =~= before.settled());
            assert(ended@ =~= had + before.endings());
        }
    }

    /// Reports every note, and forgets them all.
    pub fn end_all(&mut self, ended: &mut Vec<Ended>)
        ensures
            final(self)@ == (LedgerModel {
                notes: Seq::empty(),
                gone: Seq::empty(),
                ..old(self)@
            }),
            final(ended)@ == old(ended)@ + old(self)@.gone + names_of(old(self)@.notes),
    {
        let ghost before = self@;
        let ghost had = ended@;
        ended.append(&mut self.gone);
        let mut at: usize = 0;
        assert(names_of(before.notes).take(0) =~= Seq::empty());
        while at < self.notes.len()
            invariant
                at <= self.notes@.len(),
                live_of(self.notes@) == before.notes,
                self.next_id == before.next_id,
                self.stolen == before.stolen,
                self.gone@.len() == 0,
                ended@ == had + before.gone + names_of(before.notes).take(at as int),
            decreases self.notes@.len() - at,
        {
            assert(before.notes[at as int] == self.notes@[at as int]@);
            ended.push(self.notes[at].name);
            assert(names_of(before.notes).take(at + 1) =~= names_of(before.notes).take(
                at as int,
            ).push(before.notes[at as int].name));
            at += 1;
        }
        self.notes.clear();
        proof {
            assert(names_of(before.notes).take(at as int) =~= names_of(before.notes));
            assert(self@.notes =~= Seq::empty());
            assert(self@.gone =~= Seq::empty());
        }
    }

    /// Forgets every note without reporting it: the DAW is the one that jumped.
    pub fn clear(&mut self)
        ensures
            final(self)@ == (LedgerModel {
                notes: Seq::empty(),
                gone: Seq::empty(),
                ..old(self)@
            }),
    {
        self.notes.clear();
        self.gone.clear();
        assert(self@.notes =~= Seq::empty());
        assert(self@.gone =~= Seq::empty());
    }

    /// How many notes had to make room for another.
    pub fn stolen(&self) -> (r: u64)
        ensures
            r == self@.stolen,
    {
        self.stolen
    }
}

fn find_destination(list: &Vec<Destination>, to: Destination) -> (r: Option<usize>)
    ensures
        match r {
            Some(at) => at < list@.len() && destined_from(list@, to, 0) == Some(at as int),
            None => destined_from(list@, to, 0) is None,
        },
{
    let mut at: usize = 0;
    while at < list.len()
        invariant
            at <= list@.len(),
            destined_from(list@, to, 0) == destined_from(list@, to, at as int),
        decreases list@.len() - at,
    {
        if list[at] == to {
            return Some(at);
        }
        at += 1;
    }
    None
}

} // verus!
