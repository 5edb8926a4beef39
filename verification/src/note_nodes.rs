//! What the note half of a program holds for each kind of node: which buffer is handed on,
//! what becomes of it on the way, and which lane opens it.
use vstd::prelude::*;
use crate::audio_nodes::{is_read, lemma_is_read, lemma_lookup_at, lemma_source_at};
use crate::compile::{follow_from, told_all};
use crate::error::CompileError;
use crate::graph::{lemma_source_from, Link};
use crate::ir::{Buf, NodeId, NoteOp, Op};
use crate::nodes::{NodeKind, ParamToCc};
use crate::note_half::{
    filled_in, heard_of, in_vain, notes_into, wanted, with_lane, NoteHalf, Pending, Wants,
};
use crate::tables::{lemma_lookup_from, lookup};

verus! {

/// Notes come in from the host on its first bus, into a buffer of their own.
pub proof fn law_notes_come_in_from_the_host(
    half: NoteHalf,
    links: Seq<Link>,
    order: Seq<NodeId>,
    id: NodeId,
    after: NoteHalf,
)
    requires
        half.bufs < u16::MAX,
        half.routed(links, order, id, NodeKind::NoteIn) == Ok::<NoteHalf, CompileError>(after),
    ensures
        after.ops == half.ops.push(NoteOp::Input { out: half.bufs, bus: 0 }),
        after.bufs == half.bufs + 1,
        after.outputs == half.outputs.push(((id, 0), half.bufs)),
        after.pending == half.pending,
        after.states == half.states,
{
}

/// An output that nothing reads gets no buffer.
pub proof fn law_an_unread_note_output_is_left_out(
    half: NoteHalf,
    links: Seq<Link>,
    order: Seq<NodeId>,
    id: NodeId,
    kind: NodeKind,
    port: u8,
)
    requires
        !is_read(links, order, id, port),
    ensures
        half.routed_port(links, order, id, kind, port) == Ok::<NoteHalf, CompileError>(half),
{
    lemma_is_read(links, order, id, port);
}

/// Whether `buf` is the note buffer wired to an input, by the link `k` from an output that
/// the entry `j` names the buffer of.
pub open spec fn wired_by(
    half: NoteHalf,
    links: Seq<Link>,
    id: NodeId,
    input: u8,
    k: int,
    j: int,
) -> bool {
    &&& 0 <= k < links.len()
    &&& links[k].to == id && links[k].to_port == input
    &&& forall|b: int|
        0 <= b < k ==> !((#[trigger] links[b]).to == id && links[b].to_port == input)
    &&& 0 <= j < half.outputs.len()
    &&& half.outputs[j].0 == (links[k].from, links[k].from_port)
    &&& forall|b: int|
        0 <= b < j ==> (#[trigger] half.outputs[b]).0 != (links[k].from, links[k].from_port)
}

/// Whether nothing is wired to an input.
pub open spec fn unwired(links: Seq<Link>, id: NodeId, input: u8) -> bool {
    forall|k: int|
        0 <= k < links.len() ==> !((#[trigger] links[k]).to == id && links[k].to_port == input)
}

proof fn lemma_wired_by(
    half: NoteHalf,
    links: Seq<Link>,
    id: NodeId,
    input: u8,
    k: int,
    j: int,
)
    requires
        wired_by(half, links, id, input, k, j),
    ensures
        notes_into(links, half.outputs, id, input) == Some(half.outputs[j].1),
{
    lemma_source_at(links, id, input, 0, k);
    lemma_lookup_at(half.outputs, (links[k].from, links[k].from_port), 0, j);
}

proof fn lemma_unwired(links: Seq<Link>, outputs: Seq<((NodeId, u8), u16)>, id: NodeId, input: u8)
    requires
        unwired(links, id, input),
    ensures
        notes_into(links, outputs, id, input) is None,
{
    lemma_source_from(links, id, input, 0);
}

/// Whether a node hands notes on from its first input to an output.
pub open spec fn is_passed(kind: NodeKind, port: u8) -> bool {
    match kind {
        NodeKind::NoteGate(_) => true,
        NodeKind::NoteMute(_) => true,
        NodeKind::NoteFilter(_) => true,
        NodeKind::KeySplit(_) => true,
        NodeKind::KeySwitch(_) => true,
        NodeKind::KeyParam(_) => port == 1,
        _ => false,
    }
}

/// Notes are handed on from what is wired to a node. A node that would hand on everything
/// hands on the buffer itself; any other filters it into a buffer of its own, and a gate or
/// a switch waits for the lane that opens the output.
pub proof fn law_notes_are_handed_on(
    half: NoteHalf,
    links: Seq<Link>,
    order: Seq<NodeId>,
    id: NodeId,
    kind: NodeKind,
    port: u8,
    k: int,
    j: int,
    after: NoteHalf,
)
    requires
        is_passed(kind, port),
        is_read(links, order, id, port),
        wired_by(half, links, id, 0, k, j),
        half.bufs < u16::MAX,
        half.routed_port(links, order, id, kind, port) == Ok::<NoteHalf, CompileError>(after),
    ensures
        after.outputs.len() == half.outputs.len() + 1,
        after.outputs.drop_last() == half.outputs,
        after.outputs.last().0 == (id, port),
        ({
            let a = half.outputs[j].1;
            let opens = kind is NoteGate || kind is KeySwitch;
            if !opens && kind.mutes(port) == 0 && kind.channels_on(port) == 0xffff
                && kind.controllers_on(port) == 0xffff_ffff_ffff_ffff_ffff_ffff_ffff_ffff {
                &&& after.outputs.last().1 == a
                &&& after.ops == half.ops
                &&& after.bufs == half.bufs
                &&& after.pending == half.pending
            } else {
                &&& after.outputs.last().1 == half.bufs
                &&& after.bufs == half.bufs + 1
                &&& after.ops == half.ops.push(
                    NoteOp::Filter {
                        a,
                        out: half.bufs,
                        gate: None,
                        mute: kind.mutes(port),
                        channels: kind.channels_on(port),
                        controllers: kind.controllers_on(port),
                    },
                )
                &&& !opens ==> after.pending == half.pending
                &&& opens ==> after.pending == half.pending.push(
                    Pending { op: half.ops.len() as usize, node: id, port, wants: Wants::Gate },
                )
            }
        }),
{
    lemma_is_read(links, order, id, port);
    lemma_wired_by(half, links, id, 0, k, j);
    assert(after.outputs.drop_last() =~= half.outputs);
}

/// A node that nothing is wired to hands nothing on.
pub proof fn law_nothing_is_handed_on_without_a_wire(
    half: NoteHalf,
    links: Seq<Link>,
    order: Seq<NodeId>,
    id: NodeId,
    kind: NodeKind,
    port: u8,
)
    requires
        is_passed(kind, port),
        unwired(links, id, 0),
    ensures
        half.routed_port(links, order, id, kind, port) == Ok::<NoteHalf, CompileError>(half),
{
    lemma_unwired(links, half.outputs, id, 0);
}

/// A generator makes controllers of its own number on its own channel among the notes that
/// are wired to its second input, or alone, and waits for the lane of its value.
pub proof fn law_a_generator_makes_its_controller(
    half: NoteHalf,
    links: Seq<Link>,
    order: Seq<NodeId>,
    id: NodeId,
    node: ParamToCc,
    port: u8,
    k: int,
    j: int,
    after: NoteHalf,
)
    requires
        is_read(links, order, id, port),
        half.bufs < u16::MAX,
        half.states < u16::MAX,
        half.routed_port(links, order, id, NodeKind::ParamToCc(node), port) == Ok::<
            NoteHalf,
            CompileError,
        >(after),
    ensures
        after.outputs == half.outputs.push(((id, port), half.bufs)),
        after.bufs == half.bufs + 1,
        after.states == half.states + 1,
        after.pending == half.pending.push(
            Pending { op: half.ops.len() as usize, node: id, port, wants: Wants::Value },
        ),
        after.ops.len() == half.ops.len() + 1,
        after.ops.last() matches NoteOp::Emit { a, out, state, channel, cc, .. } && {
            &&& out == half.bufs
            &&& state == half.states
            &&& channel == node.channel
            &&& cc == node.cc
            &&& wired_by(half, links, id, 1, k, j) ==> a == Some(half.outputs[j].1)
            &&& unwired(links, id, 1) ==> a is None
        },
{
    lemma_is_read(links, order, id, port);
    if wired_by(half, links, id, 1, k, j) {
        lemma_wired_by(half, links, id, 1, k, j);
    }
    if unwired(links, id, 1) {
        lemma_unwired(links, half.outputs, id, 1);
    }
}

/// The socket that the lane of something that waits is filed against: an output behind all
/// inputs for a gate, the first input for a generator.
pub open spec fn filed_against(pending: Pending) -> (NodeId, int) {
    match pending.wants {
        Wants::Gate => (pending.node, 128 + pending.port),
        Wants::Value => (pending.node, 0),
    }
}

/// Whether `lane` is filed first of all against a socket.
pub open spec fn filed(
    lanes: Seq<((NodeId, u8), u16)>,
    socket: (NodeId, int),
    at: int,
) -> bool {
    &&& 0 <= at < lanes.len()
    &&& lanes[at].0.0 == socket.0 && lanes[at].0.1 == socket.1
    &&& forall|b: int|
        0 <= b < at ==> !((#[trigger] lanes[b]).0.0 == socket.0 && lanes[b].0.1 == socket.1)
}

proof fn lemma_filled_apart(
    ops: Seq<NoteOp>,
    pending: Seq<Pending>,
    lanes: Seq<((NodeId, u8), u16)>,
    count: nat,
    op: int,
)
    requires
        count <= pending.len(),
        forall|i: int| 0 <= i < pending.len() ==> (#[trigger] pending[i]).op < ops.len(),
        forall|i: int| 0 <= i < count ==> (#[trigger] pending[i]).op != op,
        0 <= op < ops.len(),
    ensures
        filled_in(ops, pending, lanes, count).len() == ops.len(),
        filled_in(ops, pending, lanes, count)[op] == ops[op],
    decreases count,
{
    if count > 0 {
        lemma_filled_apart(ops, pending, lanes, (count - 1) as nat, op);
        assert(pending[count - 1].op != op);
    }
}

proof fn lemma_filled(
    ops: Seq<NoteOp>,
    pending: Seq<Pending>,
    lanes: Seq<((NodeId, u8), u16)>,
    count: nat,
    i: int,
)
    requires
        0 <= i < count <= pending.len(),
        forall|m: int| 0 <= m < pending.len() ==> (#[trigger] pending[m]).op < ops.len(),
        forall|m: int, n: int|
            0 <= m < n < pending.len() ==> (#[trigger] pending[m]).op != (#[trigger] pending[n]).op,
    ensures
        filled_in(ops, pending, lanes, count).len() == ops.len(),
        filled_in(ops, pending, lanes, count)[pending[i].op as int] == (match lookup(
            lanes,
            wanted(pending[i]),
        ) {
            Some(lane) => with_lane(ops[pending[i].op as int], lane),
            None => ops[pending[i].op as int],
        }),
    decreases count,
{
    let op = pending[i].op as int;
    if i == count - 1 {
        assert forall|m: int| 0 <= m < count - 1 implies (#[trigger] pending[m]).op != op by {
            assert(pending[m].op != pending[i].op);
        }
        lemma_filled_apart(ops, pending, lanes, (count - 1) as nat, op);
    } else {
        lemma_filled(ops, pending, lanes, (count - 1) as nat, i);
        assert(pending[count - 1].op != pending[i].op);
    }
}

/// An operation that waits for a lane gets the lane that is filed for it, and nothing else
/// of it changes: a filter opens with the lane of its node's output, a generator follows the
/// lane of its node's first input.
pub proof fn law_an_operation_gets_its_lane(
    ops: Seq<NoteOp>,
    pending: Seq<Pending>,
    lanes: Seq<((NodeId, u8), u16)>,
    i: int,
    at: int,
)
    requires
        0 <= i < pending.len(),
        pending[i].wants is Gate ==> pending[i].port < 128,
        forall|m: int| 0 <= m < pending.len() ==> (#[trigger] pending[m]).op < ops.len(),
        forall|m: int, n: int|
            0 <= m < n < pending.len() ==> (#[trigger] pending[m]).op != (#[trigger] pending[n]).op,
        filed(lanes, filed_against(pending[i]), at),
    ensures
        ({
            let op = pending[i].op as int;
            let after = filled_in(ops, pending, lanes, pending.len());
            &&& after.len() == ops.len()
            &&& ops[op] matches NoteOp::Filter { a, out, gate, mute, channels, controllers }
                ==> after[op] == (NoteOp::Filter {
                a,
                out,
                gate: Some(lanes[at].1),
                mute,
                channels,
                controllers,
            })
            &&& ops[op] matches NoteOp::Emit { a, out, lane, state, channel, cc } ==> after[op]
                == (NoteOp::Emit { a, out, lane: lanes[at].1, state, channel, cc })
        }),
{
    lemma_filled(ops, pending, lanes, pending.len(), i);
    let key = wanted(pending[i]);
    assert forall|b: int| 0 <= b < at implies (#[trigger] lanes[b]).0 != key by {
        assert(!(lanes[b].0.0 == filed_against(pending[i]).0 && lanes[b].0.1 == filed_against(
            pending[i],
        ).1));
    }
    lemma_lookup_at(lanes, key, 0, at);
}

/// Whether an operation waits for a lane that is not filed.
pub open spec fn waits_in_vain(
    pending: Seq<Pending>,
    lanes: Seq<((NodeId, u8), u16)>,
    op: int,
) -> bool {
    exists|i: int|
        0 <= i < pending.len() && (#[trigger] pending[i]).op == op && forall|l: int|
            0 <= l < lanes.len() ==> !((#[trigger] lanes[l]).0.0 == filed_against(pending[i]).0
                && lanes[l].0.1 == filed_against(pending[i]).1)
}

proof fn lemma_in_vain(pending: Seq<Pending>, lanes: Seq<((NodeId, u8), u16)>, op: int)
    requires
        forall|i: int|
            0 <= i < pending.len() ==> ((#[trigger] pending[i]).wants is Gate ==> pending[i].port
                < 128),
    ensures
        in_vain(pending, lanes, op) == waits_in_vain(pending, lanes, op),
{
    if in_vain(pending, lanes, op) {
        let i = choose|i: int|
            0 <= i < pending.len() && (#[trigger] pending[i]).op == op && lookup(
                lanes,
                wanted(pending[i]),
            ) is None;
        lemma_lookup_from(lanes, wanted(pending[i]), 0);
        assert forall|l: int| 0 <= l < lanes.len() implies !((#[trigger] lanes[l]).0.0
            == filed_against(pending[i]).0 && lanes[l].0.1 == filed_against(pending[i]).1) by {
            assert(lanes[l].0 != wanted(pending[i]));
        }
        assert(pending[i].op == op);
    }
    if waits_in_vain(pending, lanes, op) {
        let i = choose|i: int|
            0 <= i < pending.len() && (#[trigger] pending[i]).op == op && forall|l: int|
                0 <= l < lanes.len() ==> !((#[trigger] lanes[l]).0.0 == filed_against(pending[i]).0
                    && lanes[l].0.1 == filed_against(pending[i]).1);
        lemma_lookup_from(lanes, wanted(pending[i]), 0);
        assert(pending[i].op == op);
    }
}

/// What waits in vain is left out, and everything else stays in its order: the operation
/// `i` comes behind those that stay before it.
pub proof fn law_what_waits_in_vain_is_left_out<T>(
    list: Seq<T>,
    pending: Seq<Pending>,
    lanes: Seq<((NodeId, u8), u16)>,
    count: nat,
    i: int,
)
    requires
        0 <= i < count <= list.len(),
        forall|m: int|
            0 <= m < pending.len() ==> ((#[trigger] pending[m]).wants is Gate ==> pending[m].port
                < 128),
    ensures
        ({
            let before = heard_of(list, pending, lanes, i as nat);
            let through = heard_of(list, pending, lanes, (i + 1) as nat);
            let all = heard_of(list, pending, lanes, count);
            &&& before.len() <= i
            &&& i == 0 ==> before.len() == 0
            &&& waits_in_vain(pending, lanes, i) ==> through == before
            &&& !waits_in_vain(pending, lanes, i) ==> through.len() == before.len() + 1
                && before.len() < all.len() && all[before.len() as int] == list[i]
        }),
    decreases count,
{
    lemma_in_vain(pending, lanes, i);
    lemma_heard_short(list, pending, lanes, i as nat);
    if i < count - 1 {
        law_what_waits_in_vain_is_left_out(list, pending, lanes, (count - 1) as nat, i);
    }
}

proof fn lemma_heard_short<T>(
    list: Seq<T>,
    pending: Seq<Pending>,
    lanes: Seq<((NodeId, u8), u16)>,
    count: nat,
)
    ensures
        heard_of(list, pending, lanes, count).len() <= count,
    decreases count,
{
    if count > 0 {
        lemma_heard_short(list, pending, lanes, (count - 1) as nat);
    }
}

proof fn lemma_follow_at(follows: Seq<(NodeId, Buf)>, node: NodeId, at: int, j: int)
    requires
        0 <= at <= j < follows.len(),
        follows[j].0 == node,
        forall|b: int| at <= b < j ==> (#[trigger] follows[b]).0 != node,
    ensures
        follow_from(follows, node, at) == Some(follows[j].1),
    decreases j - at,
{
    if at < j {
        assert(follows[at].0 != node);
        lemma_follow_at(follows, node, at + 1, j);
    }
}

/// A follower's operation reads the buffer that was noted for its node, and nothing else of
/// the operations changes.
pub proof fn law_a_follower_is_told_its_buffer(
    ops: Seq<Op>,
    latch_nodes: Seq<NodeId>,
    follows: Seq<(NodeId, Buf)>,
    i: int,
    j: int,
)
    requires
        0 <= i < ops.len(),
    ensures
        told_all(ops, latch_nodes, follows).len() == ops.len(),
        ({
            let after = told_all(ops, latch_nodes, follows)[i];
            &&& !(ops[i] is Follow) ==> after == ops[i]
            &&& ops[i] matches Op::Follow { out, buf, state, detect, attack, release } ==> {
                &&& after matches Op::Follow {
                    out: o,
                    state: s,
                    detect: d,
                    attack: a,
                    release: r,
                    ..
                } && o == out && s == state && d == detect && a == attack && r == release
                &&& state < latch_nodes.len() && 0 <= j < follows.len() && follows[j].0
                    == latch_nodes[state as int] && (forall|b: int|
                    0 <= b < j ==> (#[trigger] follows[b]).0 != latch_nodes[state as int]) ==> (
                after matches Op::Follow { buf: found, .. } && found == follows[j].1)
            }
        }),
{
    if let Op::Follow { out, buf, state, detect, attack, release } = ops[i] {
        if state < latch_nodes.len() && 0 <= j < follows.len() && follows[j].0
            == latch_nodes[state as int] && (forall|b: int|
            0 <= b < j ==> (#[trigger] follows[b]).0 != latch_nodes[state as int]) {
            lemma_follow_at(follows, latch_nodes[state as int], 0, j);
        }
    }
}

} // verus!
