//! What travels on a note wire.
use vstd::prelude::*;
use crate::number::Real;

verus! {

/// A note, or something said about one.
#[derive(Debug, Clone, Copy, PartialEq, Eq, Structural)]
pub enum NoteEvent {
    NoteOn {
        note_id: Option<i32>,
        port: i16,
        channel: i16,
        key: i16,
        velocity: Real,
        sample_offset: u32,
    },
    NoteOff {
        note_id: Option<i32>,
        port: i16,
        channel: i16,
        key: i16,
        velocity: Real,
        sample_offset: u32,
    },
    /// A plugin saying that it is done with a voice.
    NoteEnd {
        note_id: Option<i32>,
        port: i16,
        channel: i16,
        key: i16,
        sample_offset: u32,
    },
    /// A control change, its value normalized.
    Cc { port: i16, channel: i16, cc: u8, value: Real, sample_offset: u32 },
}

/// A change to one parameter of a plugin.
#[derive(Debug, Clone, Copy, PartialEq, Eq, Structural)]
pub struct ParamEvent {
    pub id: u32,
    pub value: Real,
    pub sample_offset: u32,
}

#[derive(Debug, Clone, Copy, PartialEq, Eq, Structural)]
pub enum Event {
    Note(NoteEvent),
    Param(ParamEvent),
}

impl NoteEvent {
    pub open spec fn key_of(self) -> Option<i16> {
        match self {
            NoteEvent::NoteOn { key, .. } => Some(key),
            NoteEvent::NoteOff { key, .. } => Some(key),
            NoteEvent::NoteEnd { key, .. } => Some(key),
            NoteEvent::Cc { .. } => None,
        }
    }

    pub open spec fn channel_of(self) -> Option<i16> {
        match self {
            NoteEvent::NoteOn { channel, .. } => Some(channel),
            NoteEvent::NoteOff { channel, .. } => Some(channel),
            NoteEvent::NoteEnd { channel, .. } => Some(channel),
            NoteEvent::Cc { channel, .. } => Some(channel),
        }
    }

    pub open spec fn id_of(self) -> Option<i32> {
        match self {
            NoteEvent::NoteOn { note_id, .. } => note_id,
            NoteEvent::NoteOff { note_id, .. } => note_id,
            NoteEvent::NoteEnd { note_id, .. } => note_id,
            NoteEvent::Cc { .. } => None,
        }
    }

    pub open spec fn offset_of(self) -> u32 {
        match self {
            NoteEvent::NoteOn { sample_offset, .. } => sample_offset,
            NoteEvent::NoteOff { sample_offset, .. } => sample_offset,
            NoteEvent::NoteEnd { sample_offset, .. } => sample_offset,
            NoteEvent::Cc { sample_offset, .. } => sample_offset,
        }
    }

    /// The key the event is about. A control change has none.
    pub fn key(&self) -> (r: Option<i16>)
        ensures
            r == self.key_of(),
    {
        match *self {
            NoteEvent::NoteOn { key, .. } => Some(key),
            NoteEvent::NoteOff { key, .. } => Some(key),
            NoteEvent::NoteEnd { key, .. } => Some(key),
            NoteEvent::Cc { .. } => None,
        }
    }

    pub fn channel(&self) -> (r: Option<i16>)
        ensures
            r == self.channel_of(),
    {
        match *self {
            NoteEvent::NoteOn { channel, .. } => Some(channel),
            NoteEvent::NoteOff { channel, .. } => Some(channel),
            NoteEvent::NoteEnd { channel, .. } => Some(channel),
            NoteEvent::Cc { channel, .. } => Some(channel),
        }
    }

    pub fn note_id(&self) -> (r: Option<i32>)
        ensures
            r == self.id_of(),
    {
        match *self {
            NoteEvent::NoteOn { note_id, .. } => note_id,
            NoteEvent::NoteOff { note_id, .. } => note_id,
            NoteEvent::NoteEnd { note_id, .. } => note_id,
            NoteEvent::Cc { .. } => None,
        }
    }
}

impl Event {
    pub open spec fn offset_of(self) -> u32 {
        match self {
            Event::Note(note) => note.offset_of(),
            Event::Param(param) => param.sample_offset,
        }
    }

    /// Where in the block the event falls, in frames.
    pub fn sample_offset(&self) -> (r: u32)
        ensures
            r == self.offset_of(),
    {
        match *self {
            Event::Note(NoteEvent::NoteOn { sample_offset, .. }) => sample_offset,
            Event::Note(NoteEvent::NoteOff { sample_offset, .. }) => sample_offset,
            Event::Note(NoteEvent::NoteEnd { sample_offset, .. }) => sample_offset,
            Event::Note(NoteEvent::Cc { sample_offset, .. }) => sample_offset,
            Event::Param(param) => param.sample_offset,
        }
    }
}

} // verus!
