//! What each kind of node does to the notes that pass through it.
use vstd::prelude::*;
use crate::ir::{ALL_CHANNELS, ALL_CONTROLLERS};
use crate::nodes::{FilterMode, KeySplit, NodeKind, NoteFilter};

verus! {

/// A mask with the bits of the listed keys, or of the listed controllers.
pub open spec fn key_mask(keys: Seq<u8>) -> u128
    decreases keys.len(),
{
    if keys.len() == 0 {
        0
    } else if keys.last() < 128 {
        key_mask(keys.drop_last()) | (1u128 << (keys.last() as u128))
    } else {
        key_mask(keys.drop_last())
    }
}

/// A mask with the bits of the listed channels.
pub open spec fn channel_mask(channels: Seq<u8>) -> u16
    decreases channels.len(),
{
    if channels.len() == 0 {
        0
    } else if channels.last() < 16 {
        channel_mask(channels.drop_last()) | (1u16 << (channels.last() as u16))
    } else {
        channel_mask(channels.drop_last())
    }
}

/// Whether a key belongs to a band: above the split below it, and no higher than
/// the split above. The bands run from the top of the keyboard down.
pub open spec fn in_band(splits: Seq<u8>, port: int, key: int) -> bool {
    &&& 0 < port <= splits.len() ==> key <= splits[port - 1]
    &&& port < splits.len() ==> key > splits[port]
}

/// A mask of the keys below `count` that do not belong to a band.
pub open spec fn outside_band(splits: Seq<u8>, port: int, count: nat) -> u128
    decreases count,
{
    if count == 0 {
        0
    } else {
        let lower = outside_band(splits, port, (count - 1) as nat);
        if in_band(splits, port, count - 1) {
            lower
        } else {
            lower | (1u128 << ((count - 1) as u128))
        }
    }
}

pub fn mask_keys(keys: &[u8]) -> (mask: u128)
    ensures
        mask == key_mask(keys@),
{
    let mut mask: u128 = 0;
    let mut at: usize = 0;
    assert(keys@.take(0) =~= Seq::<u8>::empty());
    while at < keys.len()
        invariant
            at <= keys@.len(),
            mask == key_mask(keys@.take(at as int)),
        decreases keys@.len() - at,
    {
        assert(keys@.take(at + 1).drop_last() =~= keys@.take(at as int));
        if keys[at] < 128 {
            mask = mask | (1u128 << (keys[at] as u128));
        }
        at += 1;
    }
    assert(keys@.take(at as int) =~= keys@);
    mask
}

pub fn mask_channels(channels: &[u8]) -> (mask: u16)
    ensures
        mask == channel_mask(channels@),
{
    let mut mask: u16 = 0;
    let mut at: usize = 0;
    assert(channels@.take(0) =~= Seq::<u8>::empty());
    while at < channels.len()
        invariant
            at <= channels@.len(),
            mask == channel_mask(channels@.take(at as int)),
        decreases channels@.len() - at,
    {
        assert(channels@.take(at + 1).drop_last() =~= channels@.take(at as int));
        if channels[at] < 16 {
            mask = mask | (1u16 << (channels[at] as u16));
        }
        at += 1;
    }
    assert(channels@.take(at as int) =~= channels@);
    mask
}

impl KeySplit {
    /// The keys that do not leave by an output.
    pub fn muted(&self, port: u8) -> (mask: u128)
        ensures
            mask == outside_band(self.splits@, port as int, 128),
    {
        let mut mask: u128 = 0;
        let mut key: u8 = 0;
        let index: usize = port as usize;
        while key < 128
            invariant
                key <= 128,
                index == port,
                mask == outside_band(self.splits@, port as int, key as nat),
            decreases 128 - key,
        {
            let under: bool = !(index > 0 && index <= self.splits.len()) || key
                <= self.splits[index - 1];
            let over: bool = !(index < self.splits.len()) || key > self.splits[index];
            if !(under && over) {
                mask = mask | (1u128 << (key as u128));
            }
            key += 1;
        }
        mask
    }
}

impl NoteFilter {
    pub open spec fn channels_kept(self) -> u16 {
        match self.channel_mode {
            FilterMode::Keep => channel_mask(self.channels@),
            FilterMode::Drop => !channel_mask(self.channels@),
        }
    }

    pub open spec fn controllers_kept(self) -> u128 {
        match self.controller_mode {
            FilterMode::Keep => key_mask(self.controllers@),
            FilterMode::Drop => !key_mask(self.controllers@),
        }
    }
}

impl NodeKind {
    /// The bus that notes come in from.
    pub open spec fn source_bus(self) -> Option<u16> {
        match self {
            NodeKind::NoteIn => Some(0),
            _ => None,
        }
    }

    /// The input whose notes leave by an output.
    pub open spec fn hands_on(self, port: u8) -> Option<u8> {
        match self {
            NodeKind::NoteGate(_) => Some(0),
            NodeKind::NoteMute(_) => Some(0),
            NodeKind::NoteFilter(_) => Some(0),
            NodeKind::KeySplit(_) => Some(0),
            NodeKind::KeySwitch(_) => Some(0),
            NodeKind::KeyParam(_) => if port == 1 {
                Some(0)
            } else {
                None
            },
            NodeKind::ParamToCc(_) => Some(1),
            _ => None,
        }
    }

    /// The controller that is made at an output: its channel and number.
    pub open spec fn makes(self, port: u8) -> Option<(u8, u8)> {
        match self {
            NodeKind::ParamToCc(to) => Some((to.channel, to.cc)),
            _ => None,
        }
    }

    /// Whether a condition opens and shuts an output.
    pub open spec fn gates(self, port: u8) -> bool {
        self is NoteGate || self is KeySwitch
    }

    /// The keys that do not leave by an output.
    pub open spec fn mutes(self, port: u8) -> u128 {
        match self {
            NodeKind::NoteMute(mute) => key_mask(mute.keys@),
            NodeKind::KeySplit(split) => outside_band(split.splits@, port as int, 128),
            NodeKind::KeySwitch(switch) => if switch.mute_keys {
                key_mask(switch.keys@)
            } else {
                0
            },
            NodeKind::KeyParam(chosen) => if chosen.mute_keys {
                key_mask(chosen.keys@)
            } else {
                0
            },
            _ => 0,
        }
    }

    pub open spec fn channels_on(self, port: u8) -> u16 {
        match self {
            NodeKind::NoteFilter(filter) => filter.channels_kept(),
            _ => ALL_CHANNELS,
        }
    }

    pub open spec fn controllers_on(self, port: u8) -> u128 {
        match self {
            NodeKind::NoteFilter(filter) => filter.controllers_kept(),
            _ => ALL_CONTROLLERS,
        }
    }

    pub fn note_source(&self) -> (r: Option<u16>)
        ensures
            r == self.source_bus(),
    {
        match self {
            NodeKind::NoteIn => Some(0),
            _ => None,
        }
    }

    pub fn note_passthrough(&self, port: u8) -> (r: Option<u8>)
        ensures
            r == self.hands_on(port),
    {
        match self {
            NodeKind::NoteGate(_) => Some(0),
            NodeKind::NoteMute(_) => Some(0),
            NodeKind::NoteFilter(_) => Some(0),
            NodeKind::KeySplit(_) => Some(0),
            NodeKind::KeySwitch(_) => Some(0),
            NodeKind::KeyParam(_) => {
                if port == 1 {
                    Some(0)
                } else {
                    None
                }
            },
            NodeKind::ParamToCc(_) => Some(1),
            _ => None,
        }
    }

    pub fn note_emits(&self, port: u8) -> (r: Option<(u8, u8)>)
        ensures
            r == self.makes(port),
    {
        match self {
            NodeKind::ParamToCc(to) => Some((to.channel, to.cc)),
            _ => None,
        }
    }

    pub fn note_gated(&self, port: u8) -> (r: bool)
        ensures
            r == self.gates(port),
    {
        match self {
            NodeKind::NoteGate(_) => true,
            NodeKind::KeySwitch(_) => true,
            _ => false,
        }
    }

    pub fn note_mute(&self, port: u8) -> (r: u128)
        ensures
            r == self.mutes(port),
    {
        match self {
            NodeKind::NoteMute(mute) => mask_keys(mute.keys.as_slice()),
            NodeKind::KeySplit(split) => split.muted(port),
            NodeKind::KeySwitch(switch) => {
                if switch.mute_keys {
                    mask_keys(switch.keys.as_slice())
                } else {
                    0
                }
            },
            NodeKind::KeyParam(chosen) => {
                if chosen.mute_keys {
                    mask_keys(chosen.keys.as_slice())
                } else {
                    0
                }
            },
            _ => 0,
        }
    }

    pub fn note_channels(&self, port: u8) -> (r: u16)
        ensures
            r == self.channels_on(port),
    {
        match self {
            NodeKind::NoteFilter(filter) => {
                let mask: u16 = mask_channels(filter.channels.as_slice());
                match filter.channel_mode {
                    FilterMode::Keep => mask,
                    FilterMode::Drop => !mask,
                }
            },
            _ => ALL_CHANNELS,
        }
    }

    pub fn note_controllers(&self, port: u8) -> (r: u128)
        ensures
            r == self.controllers_on(port),
    {
        match self {
            NodeKind::NoteFilter(filter) => {
                let mask: u128 = mask_keys(filter.controllers.as_slice());
                match filter.controller_mode {
                    FilterMode::Keep => mask,
                    FilterMode::Drop => !mask,
                }
            },
            _ => ALL_CONTROLLERS,
        }
    }
}

/// A key mask has the keys of its list, and no others.
pub proof fn law_key_mask(keys: Seq<u8>, key: u8)
    requires
        key < 128,
    ensures
        key_mask(keys) & (1u128 << (key as u128)) != 0 <==> keys.contains(key),
    decreases keys.len(),
{
    let b = key as u128;
    if keys.len() == 0 {
        assert(0u128 & (1u128 << b) == 0) by (bit_vector);
    } else {
        let front = keys.drop_last();
        let last = keys.last();
        law_key_mask(front, key);
        if last < 128 {
            lemma_set_bit(key_mask(front), last as u128, b);
        }
        if keys.contains(key) {
            let i = choose|i: int| 0 <= i < keys.len() && keys[i] == key;
            if i < front.len() {
                assert(front[i] == key);
            }
        }
        if front.contains(key) {
            let i = choose|i: int| 0 <= i < front.len() && front[i] == key;
            assert(keys[i] == key);
        }
        assert(keys[keys.len() - 1] == last);
    }
}

/// A key leaves a split by the output of its band, and by no other.
pub proof fn law_split_divides(splits: Seq<u8>, port: int, key: u8)
    requires
        key < 128,
    ensures
        outside_band(splits, port, 128) & (1u128 << (key as u128)) == 0 <==> in_band(
            splits,
            port,
            key as int,
        ),
{
    lemma_outside_band(splits, port, 128, key);
}

proof fn lemma_outside_band(splits: Seq<u8>, port: int, count: nat, key: u8)
    requires
        count <= 128,
        key < 128,
    ensures
        outside_band(splits, port, count) & (1u128 << (key as u128)) == 0 <==> key >= count
            || in_band(splits, port, key as int),
    decreases count,
{
    let b = key as u128;
    if count == 0 {
        assert(0u128 & (1u128 << b) == 0) by (bit_vector);
    } else {
        lemma_outside_band(splits, port, (count - 1) as nat, key);
        lemma_set_bit(
            outside_band(splits, port, (count - 1) as nat),
            (count - 1) as u128,
            b,
        );
    }
}

proof fn lemma_set_bit(table: u128, a: u128, b: u128)
    requires
        a < 128,
        b < 128,
    ensures
        (table | (1u128 << a)) & (1u128 << b) != 0 <==> a == b || table & (1u128 << b) != 0,
{
    assert((table | (1u128 << a)) & (1u128 << b) != 0 <==> a == b || table & (1u128 << b) != 0)
        by (bit_vector)
        requires
            a < 128,
            b < 128,
    ;
}

} // verus!
