//! The note half of a program.
//!
//! Laid out before the other two, because both of them name note buffers. Which
//! buffer leaves which socket is pure topology; what is not is the lane a gate
//! or a generator listens to, and an operation that needs one is laid out with a
//! hole that is filled in once the parameter half has booked its lanes.
use vstd::prelude::*;
use crate::error::CompileError;
use crate::graph::{find, source, Graph, Link};
use crate::ir::{
    NodeId, NoteOp, NoteStream, Span, NoteStreamKind, ALL_CHANNELS, ALL_CONTROLLERS, MAX_NOTE_BUFS,
    MAX_NOTE_EMITS,
};
use crate::nodes::NodeKind;
use crate::note_state::{distinct_streams, note_op_fits};
use crate::port::{numbered, numbered_sockets, sockets, Port};
use crate::stages::{lemma_index_from, position, Plan};
use crate::tables::{find_key, lemma_lookup_from, lookup};

verus! {

/// Added to an output socket's number when a lane is filed against an output:
/// every other lane is filed against an input.
pub const OUTPUT_SOCKET: u8 = 128;

/// Which lane an operation is waiting for.
#[derive(Debug, Clone, Copy, PartialEq, Eq, Structural)]
pub enum Wants {
    /// The condition of a gate, filed against the node's output.
    Gate,
    /// The value of a generator, filed against the node's first input.
    Value,
}

/// An operation whose lane has yet to be booked.
#[derive(Debug, Clone, Copy, PartialEq, Eq, Structural)]
pub struct Pending {
    pub op: usize,
    pub node: NodeId,
    pub port: u8,
    pub wants: Wants,
}

/// The note half while it is laid out.
pub struct Notes {
    pub ops: Vec<NoteOp>,
    pub bufs: u16,
    pub streams: Vec<NoteStream>,
    /// Which stage each operation belongs to.
    pub stages: Vec<usize>,
    /// The buffer leaving each output socket. A filter that drops nothing hands
    /// on the buffer it was given, so several sockets may name one buffer.
    pub outputs: Vec<((NodeId, u8), u16)>,
    pub pending: Vec<Pending>,
    pub states: u16,
}

#[verifier::ext_equal]
pub struct NoteHalf {
    pub ops: Seq<NoteOp>,
    pub bufs: u16,
    pub streams: Seq<NoteStream>,
    pub stages: Seq<usize>,
    pub outputs: Seq<((NodeId, u8), u16)>,
    pub pending: Seq<Pending>,
    pub states: u16,
}

impl View for Notes {
    type V = NoteHalf;

    open spec fn view(&self) -> NoteHalf {
        NoteHalf {
            ops: self.ops@,
            bufs: self.bufs,
            streams: self.streams@,
            stages: self.stages@,
            outputs: self.outputs@,
            pending: self.pending@,
            states: self.states,
        }
    }
}

/// The note buffer wired into an input.
pub open spec fn notes_into(
    links: Seq<Link>,
    outputs: Seq<((NodeId, u8), u16)>,
    node: NodeId,
    port: u8,
) -> Option<u16> {
    match source(links, node, port) {
        Some(from) => lookup(outputs, from),
        None => None,
    }
}

/// How many links leave a socket for a node that runs.
pub open spec fn reader_count(
    links: Seq<Link>,
    order: Seq<NodeId>,
    node: NodeId,
    port: u8,
) -> nat {
    links.filter(
        |link: Link| link.from == node && link.from_port == port && order.contains(link.to),
    ).len()
}

pub open spec fn too_many_bufs() -> CompileError {
    CompileError::TooLarge { what: "note buffers", limit: MAX_NOTE_BUFS }
}

pub open spec fn too_many_states() -> CompileError {
    CompileError::TooLarge { what: "nodes that generate controllers", limit: MAX_NOTE_EMITS }
}

/// Whether a filter would hand everything on.
pub open spec fn drops_nothing(kind: NodeKind, port: u8) -> bool {
    !kind.gates(port) && kind.mutes(port) == 0 && kind.channels_on(port) == ALL_CHANNELS
        && kind.controllers_on(port) == ALL_CONTROLLERS
}

impl NoteHalf {
    pub open spec fn empty() -> NoteHalf {
        NoteHalf {
            ops: Seq::empty(),
            bufs: 0,
            streams: Seq::empty(),
            stages: Seq::empty(),
            outputs: Seq::empty(),
            pending: Seq::empty(),
            states: 0,
        }
    }

    /// One more operation, with a buffer of its own to fill.
    pub open spec fn laid(self, op: NoteOp, stream: NoteStream) -> NoteHalf {
        NoteHalf {
            ops: self.ops.push(op),
            bufs: (self.bufs + 1) as u16,
            streams: self.streams.push(stream),
            outputs: self.outputs.push(((stream.node, stream.port), self.bufs)),
            ..self
        }
    }

    /// One output socket's share.
    pub open spec fn routed_port(
        self,
        links: Seq<Link>,
        order: Seq<NodeId>,
        id: NodeId,
        kind: NodeKind,
        port: u8,
    ) -> Result<NoteHalf, CompileError> {
        let a = match kind.hands_on(port) {
            Some(input) => notes_into(links, self.outputs, id, input),
            None => None,
        };
        if reader_count(links, order, id, port) == 0 {
            // A socket nobody reads gets no buffer.
            Ok(self)
        } else if let Some((channel, cc)) = kind.makes(port) {
            if self.bufs >= MAX_NOTE_BUFS {
                Err(too_many_bufs())
            } else if self.states >= MAX_NOTE_EMITS {
                Err(too_many_states())
            } else {
                Ok(
                    NoteHalf {
                        states: (self.states + 1) as u16,
                        pending: self.pending.push(
                            Pending {
                                op: self.ops.len() as usize,
                                node: id,
                                port,
                                wants: Wants::Value,
                            },
                        ),
                        ..self.laid(
                            NoteOp::Emit {
                                a,
                                out: self.bufs,
                                lane: 0,
                                state: self.states,
                                channel,
                                cc,
                            },
                            NoteStream { node: id, port, source: a, kind: NoteStreamKind::Emit },
                        )
                    },
                )
            }
        } else if a is None {
            // Nothing is wired upstream, and an instrument behind it is silent.
            Ok(self)
        } else if drops_nothing(kind, port) {
            Ok(NoteHalf { outputs: self.outputs.push(((id, port), a->0)), ..self })
        } else if self.bufs >= MAX_NOTE_BUFS {
            Err(too_many_bufs())
        } else {
            Ok(
                NoteHalf {
                    pending: if kind.gates(port) {
                        self.pending.push(
                            Pending {
                                op: self.ops.len() as usize,
                                node: id,
                                port,
                                wants: Wants::Gate,
                            },
                        )
                    } else {
                        self.pending
                    },
                    ..self.laid(
                        NoteOp::Filter {
                            a: a->0,
                            out: self.bufs,
                            gate: None,
                            mute: kind.mutes(port),
                            channels: kind.channels_on(port),
                            controllers: kind.controllers_on(port),
                        },
                        NoteStream { node: id, port, source: a, kind: NoteStreamKind::Filter },
                    )
                },
            )
        }
    }

    /// The share of the first `count` output sockets.
    pub open spec fn routed_ports(
        self,
        links: Seq<Link>,
        order: Seq<NodeId>,
        id: NodeId,
        kind: NodeKind,
        count: nat,
    ) -> Result<NoteHalf, CompileError>
        decreases count,
    {
        if count == 0 {
            Ok(self)
        } else {
            match self.routed_ports(links, order, id, kind, (count - 1) as nat) {
                Ok(half) => half.routed_port(links, order, id, kind, (count - 1) as u8),
                Err(error) => Err(error),
            }
        }
    }

    /// One node's share: what it makes, and what it hands on of what it is given.
    pub open spec fn routed(
        self,
        links: Seq<Link>,
        order: Seq<NodeId>,
        id: NodeId,
        kind: NodeKind,
    ) -> Result<NoteHalf, CompileError> {
        match kind.source_bus() {
            Some(bus) => if self.bufs >= MAX_NOTE_BUFS {
                Err(too_many_bufs())
            } else {
                Ok(
                    self.laid(
                        NoteOp::Input { out: self.bufs, bus },
                        NoteStream { node: id, port: 0, source: None, kind: NoteStreamKind::Input(bus) },
                    ),
                )
            },
            None => self.routed_ports(
                links,
                order,
                id,
                kind,
                numbered(kind.outputs().len()),
            ),
        }
    }

    /// Every buffer and state named exists, an operation reads a buffer filled
    /// before it fills its own, and no two streams leave one socket.
    pub open spec fn wf(self) -> bool {
        &&& self.bufs <= MAX_NOTE_BUFS
        &&& self.states <= MAX_NOTE_EMITS
        &&& self.streams.len() == self.bufs
        &&& self.ops.len() == self.bufs
        &&& forall|i: int|
            0 <= i < self.streams.len() ==> ((#[trigger] self.streams[i]).source matches Some(a)
                ==> a < i)
        &&& forall|i: int| 0 <= i < self.outputs.len() ==> (#[trigger] self.outputs[i]).1 < self.bufs
        &&& forall|i: int| 0 <= i < self.ops.len() ==> op_laid(self, #[trigger] self.ops[i])
        &&& forall|i: int|
            0 <= i < self.pending.len() ==> (#[trigger] self.pending[i]).op < self.ops.len()
                && (self.pending[i].wants is Gate ==> self.pending[i].port < OUTPUT_SOCKET)
        &&& distinct_streams(self.streams)
    }
}

/// An operation names what has been laid out.
pub open spec fn op_laid(half: NoteHalf, op: NoteOp) -> bool {
    &&& note_op_fits(op)
    &&& match op {
        NoteOp::Input { out, .. } => out < half.bufs,
        NoteOp::Emit { a, out, .. } => out < half.bufs && (a matches Some(a) ==> a < out),
        NoteOp::Filter { a, out, .. } => out < half.bufs && a < out,
    }
}

impl Notes {
    /// The note buffer wired into an input. `None` when nothing is connected,
    /// which is what makes an unwired instrument silent.
    pub fn source_of(&self, graph: &Graph, node: NodeId, port: u8) -> (r: Option<u16>)
        ensures
            r == notes_into(graph.links@, self.outputs@, node, port),
    {
        match graph.source_of(node, port) {
            Some(from) => find_key(&self.outputs, from),
            None => None,
        }
    }
}

/// How many links leave a socket for a node that runs.
pub fn readers_of(graph: &Graph, order: &[NodeId], node: NodeId, port: u8) -> (r: usize)
    ensures
        r == reader_count(graph.links@, order@, node, port),
{
    let ghost read = |link: Link|
        link.from == node && link.from_port == port && order@.contains(link.to);
    let ghost links = graph.links@;
    let mut count: usize = 0;
    let mut at: usize = 0;
    proof {
        reveal(Seq::filter);
        assert(links.take(0) =~= Seq::<Link>::empty());
    }
    while at < graph.links.len()
        invariant
            links == graph.links@,
            count <= at <= links.len(),
            read == (|link: Link|
                link.from == node && link.from_port == port && order@.contains(link.to)),
            count == links.take(at as int).filter(read).len(),
        decreases links.len() - at,
    {
        proof {
            reveal(Seq::filter);
            assert(links.take(at + 1).drop_last() =~= links.take(at as int));
            lemma_index_from(order@, links[at as int].to, 0);
        }
        let link: Link = graph.links[at];
        if link.from == node && link.from_port == port {
            if position(order, link.to).is_some() {
                count += 1;
            }
        }
        at += 1;
    }
    assert(links.take(at as int) =~= links);
    count
}

proof fn lemma_laid_wf(half: NoteHalf, op: NoteOp, stream: NoteStream)
    requires
        half.wf(),
        half.bufs < MAX_NOTE_BUFS,
        stream.source matches Some(a) ==> a < half.bufs,
        forall|i: int|
            0 <= i < half.streams.len() ==> (#[trigger] half.streams[i]).node != stream.node
                || half.streams[i].port != stream.port,
        op_laid(half.laid(op, stream), op),
    ensures
        half.laid(op, stream).wf(),
{
    let after = half.laid(op, stream);
    assert forall|i: int| 0 <= i < after.ops.len() implies op_laid(after, #[trigger] after.ops[i]) by {
        if i < half.ops.len() {
            assert(op_laid(half, half.ops[i]));
        }
    }
}

proof fn lemma_notes_into(half: NoteHalf, links: Seq<Link>, node: NodeId, port: u8)
    requires
        half.wf(),
    ensures
        notes_into(links, half.outputs, node, port) matches Some(a) ==> a < half.bufs,
{
    if let Some(from) = source(links, node, port) {
        lemma_lookup_from(half.outputs, from, 0);
    }
}

/// One output socket's share of the note half.
fn route_port(
    graph: &Graph,
    order: &[NodeId],
    notes: &mut Notes,
    id: NodeId,
    kind: &NodeKind,
    port: u8,
) -> (r: Result<(), CompileError>)
    requires
        old(notes)@.wf(),
        port < kind.outputs().len(),
        forall|i: int|
            0 <= i < old(notes)@.streams.len() ==> (#[trigger] old(notes)@.streams[i]).node != id
                || old(notes)@.streams[i].port != port,
    ensures
        match old(notes)@.routed_port(graph.links@, order@, id, *kind, port) {
            Ok(half) => r is Ok && final(notes)@ == half && half.wf() && (forall|i: int|
                0 <= i < half.streams.len() ==> (#[trigger] half.streams[i]).node == id
                    && half.streams[i].port == port || i < old(notes)@.streams.len()
                    && half.streams[i] == old(notes)@.streams[i]),
            Err(error) => r == Err::<(), CompileError>(error),
        },
{
    let ghost before = notes@;
    if readers_of(graph, order, id, port) == 0 {
        return Ok(());
    }
    let a: Option<u16> = match kind.note_passthrough(port) {
        Some(input) => notes.source_of(graph, id, input),
        None => None,
    };
    proof {
        if let Some(input) = kind.hands_on(port) {
            lemma_notes_into(before, graph.links@, id, input);
        }
    }
    if let Some((channel, cc)) = kind.note_emits(port) {
        if notes.bufs as usize >= MAX_NOTE_BUFS {
            return Err(CompileError::TooLarge { what: "note buffers", limit: MAX_NOTE_BUFS });
        }
        if notes.states as usize >= MAX_NOTE_EMITS {
            return Err(
                CompileError::TooLarge {
                    what: "nodes that generate controllers",
                    limit: MAX_NOTE_EMITS,
                },
            );
        }
        let out: u16 = notes.bufs;
        let state: u16 = notes.states;
        let op: NoteOp = NoteOp::Emit { a, out, lane: 0, state, channel, cc };
        let stream: NoteStream = NoteStream { node: id, port, source: a, kind: NoteStreamKind::Emit };
        proof {
            lemma_laid_wf(before, op, stream);
        }
        notes.pending.push(
            Pending { op: notes.ops.len(), node: id, port, wants: Wants::Value },
        );
        notes.ops.push(op);
        notes.bufs = notes.bufs + 1;
        notes.states = notes.states + 1;
        notes.streams.push(stream);
        notes.outputs.push(((id, port), out));
        assert(notes@ =~= before.routed_port(graph.links@, order@, id, *kind, port)->Ok_0);
        assert(notes@.wf()) by {
            let laid = before.laid(op, stream);
            assert forall|i: int| 0 <= i < notes@.ops.len() implies op_laid(
                notes@,
                #[trigger] notes@.ops[i],
            ) by {
                assert(op_laid(laid, laid.ops[i]));
            }
        }
        return Ok(());
    }
    let a: u16 = match a {
        Some(a) => a,
        None => {
            return Ok(());
        },
    };
    let gated: bool = kind.note_gated(port);
    let mute: u128 = kind.note_mute(port);
    let channels: u16 = kind.note_channels(port);
    let controllers: u128 = kind.note_controllers(port);
    if !gated && mute == 0 && channels == ALL_CHANNELS && controllers == ALL_CONTROLLERS {
        notes.outputs.push(((id, port), a));
        return Ok(());
    }
    if notes.bufs as usize >= MAX_NOTE_BUFS {
        return Err(CompileError::TooLarge { what: "note buffers", limit: MAX_NOTE_BUFS });
    }
    let out: u16 = notes.bufs;
    let op: NoteOp = NoteOp::Filter { a, out, gate: None, mute, channels, controllers };
    let stream: NoteStream = NoteStream {
        node: id,
        port,
        source: Some(a),
        kind: NoteStreamKind::Filter,
    };
    proof {
        lemma_laid_wf(before, op, stream);
    }
    if gated {
        notes.pending.push(Pending { op: notes.ops.len(), node: id, port, wants: Wants::Gate });
    }
    notes.ops.push(op);
    notes.bufs = notes.bufs + 1;
    notes.streams.push(stream);
    notes.outputs.push(((id, port), out));
    assert(notes@ =~= before.routed_port(graph.links@, order@, id, *kind, port)->Ok_0);
    assert(notes@.wf()) by {
        let laid = before.laid(op, stream);
        assert forall|i: int| 0 <= i < notes@.ops.len() implies op_laid(
            notes@,
            #[trigger] notes@.ops[i],
        ) by {
            assert(op_laid(laid, laid.ops[i]));
        }
    }
    Ok(())
}

/// One node's share of the note half.
///
/// What a note node contributes is described by the questions it answers: where
/// notes come from, which input an output hands on, what it drops on the way,
/// and whether it makes controllers of its own.
pub fn route(
    graph: &Graph,
    order: &[NodeId],
    notes: &mut Notes,
    id: NodeId,
    kind: &NodeKind,
) -> (r: Result<(), CompileError>)
    requires
        old(notes)@.wf(),
        forall|i: int| 0 <= i < old(notes)@.streams.len() ==> (#[trigger] old(notes)@.streams[i]).node
            != id,
    ensures
        match old(notes)@.routed(graph.links@, order@, id, *kind) {
            Ok(half) => r is Ok && final(notes)@ == half && half.wf() && (forall|i: int|
                0 <= i < half.streams.len() ==> (#[trigger] half.streams[i]).node == id || i < old(
                    notes,
                )@.streams.len() && half.streams[i] == old(notes)@.streams[i]),
            Err(error) => r == Err::<(), CompileError>(error),
        },
{
    let ghost before = notes@;
    if let Some(bus) = kind.note_source() {
        if notes.bufs as usize >= MAX_NOTE_BUFS {
            return Err(CompileError::TooLarge { what: "note buffers", limit: MAX_NOTE_BUFS });
        }
        let out: u16 = notes.bufs;
        let op: NoteOp = NoteOp::Input { out, bus };
        let stream: NoteStream = NoteStream {
            node: id,
            port: 0,
            source: None,
            kind: NoteStreamKind::Input(bus),
        };
        proof {
            lemma_laid_wf(before, op, stream);
        }
        notes.ops.push(op);
        notes.bufs = notes.bufs + 1;
        notes.streams.push(stream);
        notes.outputs.push(((id, 0), out));
        assert(notes@ =~= before.laid(op, stream));
        return Ok(());
    }
    let ports: Vec<Port> = kind.output_ports();
    assert(sockets(ports@).len() == ports@.len());
    let count: usize = numbered_sockets(ports.len());
    let mut port: usize = 0;
    while port < count
        invariant
            port <= count <= 256,
            before == old(notes)@,
            count == numbered(kind.outputs().len()),
            kind.source_bus() is None,
            notes@.wf(),
            before.routed_ports(graph.links@, order@, id, *kind, port as nat) == Ok::<
                NoteHalf,
                CompileError,
            >(notes@),
            forall|i: int|
                0 <= i < notes@.streams.len() ==> (#[trigger] notes@.streams[i]).node == id
                    && notes@.streams[i].port < port || i < before.streams.len()
                    && notes@.streams[i] == before.streams[i],
            forall|i: int|
                0 <= i < before.streams.len() ==> (#[trigger] before.streams[i]).node != id,
        decreases count - port,
    {
        let ghost here = notes@;
        let socket: u8 = port as u8;
        proof {
            assert forall|i: int| 0 <= i < here.streams.len() implies (
            #[trigger] here.streams[i]).node != id || here.streams[i].port != port by {
                if i < before.streams.len() {
                    assert(before.streams[i].node != id);
                }
            }
            if here.routed_port(graph.links@, order@, id, *kind, socket) is Err {
                lemma_ports_fail(
                    before,
                    graph.links@,
                    order@,
                    id,
                    *kind,
                    (port + 1) as nat,
                    count as nat,
                );
            }
        }
        let outcome: Result<(), CompileError> = route_port(graph, order, notes, id, kind, socket);
        match outcome {
            Ok(()) => {
                proof {
                    assert forall|i: int| 0 <= i < notes@.streams.len() implies (
                    #[trigger] notes@.streams[i]).node == id && notes@.streams[i].port < port + 1
                        || i < before.streams.len() && notes@.streams[i]
                        == before.streams[i] by {
                        if i < here.streams.len() && notes@.streams[i] == here.streams[i] {
                            let _ = here.streams[i];
                        }
                    }
                }
            },
            Err(error) => {
                return Err(error);
            },
        }
        port += 1;
    }
    Ok(())
}

/// A socket that fails makes the node fail the same way.
proof fn lemma_ports_fail(
    half: NoteHalf,
    links: Seq<Link>,
    order: Seq<NodeId>,
    id: NodeId,
    kind: NodeKind,
    at: nat,
    count: nat,
)
    requires
        half.routed_ports(links, order, id, kind, at) is Err,
        at <= count,
    ensures
        half.routed_ports(links, order, id, kind, count) == half.routed_ports(
            links,
            order,
            id,
            kind,
            at,
        ),
    decreases count,
{
    if at < count {
        lemma_ports_fail(half, links, order, id, kind, at, (count - 1) as nat);
    }
}

/// The operations laid out so far, all of them of `stage` that were of none.
pub open spec fn staged(half: NoteHalf, stage: usize) -> NoteHalf {
    NoteHalf {
        stages: half.stages + Seq::new(
            (half.ops.len() - half.stages.len()) as nat,
            |i: int| stage,
        ),
        ..half
    }
}

/// A stage's share of the note half, from the first `count` nodes of the order.
pub open spec fn notes_in_stage(
    half: NoteHalf,
    graph: Graph,
    order: Seq<NodeId>,
    of: Seq<usize>,
    stage: int,
    count: nat,
) -> Result<NoteHalf, CompileError>
    decreases count,
{
    if count == 0 {
        Ok(half)
    } else {
        match notes_in_stage(half, graph, order, of, stage, (count - 1) as nat) {
            Err(error) => Err(error),
            Ok(before) => if of[count - 1] != stage {
                Ok(before)
            } else {
                let id = order[count - 1];
                let kind = graph.nodes@[find(graph.nodes@, id)->0].kind;
                match before.routed(graph.links@, order, id, kind) {
                    Err(error) => Err(error),
                    Ok(after) => Ok(staged(after, stage as usize)),
                }
            },
        }
    }
}

/// The note half of the first `stages` stages.
pub open spec fn notes_in_stages(
    graph: Graph,
    order: Seq<NodeId>,
    of: Seq<usize>,
    stages: nat,
) -> Result<NoteHalf, CompileError>
    decreases stages,
{
    if stages == 0 {
        Ok(NoteHalf::empty())
    } else {
        match notes_in_stages(graph, order, of, (stages - 1) as nat) {
            Err(error) => Err(error),
            Ok(half) => notes_in_stage(half, graph, order, of, stages - 1, order.len()),
        }
    }
}

proof fn lemma_stage_fails(
    half: NoteHalf,
    graph: Graph,
    order: Seq<NodeId>,
    of: Seq<usize>,
    stage: int,
    at: nat,
    count: nat,
)
    requires
        notes_in_stage(half, graph, order, of, stage, at) is Err,
        at <= count,
    ensures
        notes_in_stage(half, graph, order, of, stage, count) == notes_in_stage(
            half,
            graph,
            order,
            of,
            stage,
            at,
        ),
    decreases count,
{
    if at < count {
        lemma_stage_fails(half, graph, order, of, stage, at, (count - 1) as nat);
    }
}

proof fn lemma_stages_fail(
    graph: Graph,
    order: Seq<NodeId>,
    of: Seq<usize>,
    at: nat,
    stages: nat,
)
    requires
        notes_in_stages(graph, order, of, at) is Err,
        at <= stages,
    ensures
        notes_in_stages(graph, order, of, stages) == notes_in_stages(graph, order, of, at),
    decreases stages,
{
    if at < stages {
        lemma_stages_fail(graph, order, of, at, (stages - 1) as nat);
    }
}

/// Whether a stream comes from a node that has been walked past: of an earlier
/// stage, or of this one and earlier in the order.
spec fn walked(
    order: Seq<NodeId>,
    of: Seq<usize>,
    stage: int,
    index: int,
    node: NodeId,
) -> bool {
    exists|j: int|
        0 <= j < order.len() && #[trigger] order[j] == node && (of[j] < stage || of[j] == stage && j
            < index)
}

/// The stage of each operation is known, and no later stage comes first.
pub open spec fn stages_ascend(half: NoteHalf, stage: int) -> bool {
    &&& half.stages.len() == half.ops.len()
    &&& forall|i: int, j: int|
        0 <= i <= j < half.stages.len() ==> #[trigger] half.stages[i] <= #[trigger] half.stages[j]
    &&& forall|i: int| 0 <= i < half.stages.len() ==> #[trigger] half.stages[i] <= stage
}

/// Walks the order and lays out the note half, a stage at a time, so that a
/// stage's operations are contiguous.
pub fn compile_notes(graph: &Graph, order: &[NodeId], plan: &Plan) -> (r: Result<
    Notes,
    CompileError,
>)
    requires
        plan.of@.len() == order@.len(),
        order@.no_duplicates(),
        forall|k: int| 0 <= k < order@.len() ==> find(graph.nodes@, #[trigger] order@[k]) is Some,
    ensures
        match notes_in_stages(*graph, order@, plan.of@, plan.stages@.len()) {
            Ok(half) => r is Ok && r->Ok_0@ == half && half.wf() && stages_ascend(
                half,
                plan.stages@.len() as int,
            ),
            Err(error) => r == Err::<Notes, CompileError>(error),
        },
{
    let mut notes: Notes = Notes {
        ops: Vec::new(),
        bufs: 0,
        streams: Vec::new(),
        stages: Vec::new(),
        outputs: Vec::new(),
        pending: Vec::new(),
        states: 0,
    };
    assert(notes@ =~= NoteHalf::empty());
    let mut stage: usize = 0;
    while stage < plan.stages.len()
        invariant
            stage <= plan.stages@.len(),
            plan.of@.len() == order@.len(),
            order@.no_duplicates(),
            forall|k: int|
                0 <= k < order@.len() ==> find(graph.nodes@, #[trigger] order@[k]) is Some,
            notes@.wf(),
            stages_ascend(notes@, stage as int),
            notes_in_stages(*graph, order@, plan.of@, stage as nat) == Ok::<
                NoteHalf,
                CompileError,
            >(notes@),
            forall|i: int|
                0 <= i < notes@.streams.len() ==> walked(
                    order@,
                    plan.of@,
                    stage as int,
                    0,
                    (#[trigger] notes@.streams[i]).node,
                ),
        decreases plan.stages@.len() - stage,
    {
        let ghost started = notes@;
        let mut index: usize = 0;
        while index < order.len()
            invariant
                index <= order@.len(),
                stage < plan.stages@.len(),
                plan.of@.len() == order@.len(),
                order@.no_duplicates(),
                forall|k: int|
                    0 <= k < order@.len() ==> find(graph.nodes@, #[trigger] order@[k]) is Some,
                notes@.wf(),
                stages_ascend(notes@, stage as int),
                notes_in_stages(*graph, order@, plan.of@, stage as nat) == Ok::<
                    NoteHalf,
                    CompileError,
                >(started),
                notes_in_stage(
                    started,
                    *graph,
                    order@,
                    plan.of@,
                    stage as int,
                    index as nat,
                ) == Ok::<NoteHalf, CompileError>(notes@),
                forall|i: int|
                    0 <= i < notes@.streams.len() ==> walked(
                        order@,
                        plan.of@,
                        stage as int,
                        index as int,
                        (#[trigger] notes@.streams[i]).node,
                    ),
            decreases order@.len() - index,
        {
            let ghost here = notes@;
            if plan.of[index] == stage {
                let id: NodeId = order[index];
                proof {
                    assert(find(graph.nodes@, order@[index as int]) is Some);
                    assert forall|i: int| 0 <= i < here.streams.len() implies (
                    #[trigger] here.streams[i]).node != id by {
                        let j = choose|j: int|
                            0 <= j < order@.len() && #[trigger] order@[j] == here.streams[i].node
                                && (plan.of@[j] < stage || plan.of@[j] == stage && j < index);
                        assert(j != index);
                    }
                }
                match graph.node(id) {
                    Some(node) => {
                        proof {
                            if here.routed(graph.links@, order@, id, node.kind) is Err {
                                lemma_stage_fails(
                                    started,
                                    *graph,
                                    order@,
                                    plan.of@,
                                    stage as int,
                                    (index + 1) as nat,
                                    order@.len(),
                                );
                                lemma_stages_fail(
                                    *graph,
                                    order@,
                                    plan.of@,
                                    (stage + 1) as nat,
                                    plan.stages@.len(),
                                );
                            }
                        }
                        match route(graph, order, &mut notes, id, &node.kind) {
                            Ok(()) => {},
                            Err(error) => {
                                return Err(error);
                            },
                        }
                    },
                    None => {},
                }
                let ghost routed = notes@;
                proof {
                    lemma_routed_stages(here, graph.links@, order@, id, graph.nodes@[find(
                        graph.nodes@,
                        id,
                    )->0].kind);
                }
                while notes.stages.len() < notes.ops.len()
                    invariant
                        routed.stages.len() <= notes.stages@.len() <= notes.ops@.len(),
                        notes@ == (NoteHalf { stages: notes.stages@, ..routed }),
                        forall|i: int|
                            0 <= i < notes.stages@.len() ==> #[trigger] notes.stages@[i] == if i
                                < routed.stages.len() {
                                routed.stages[i]
                            } else {
                                stage
                            },
                    decreases notes.ops@.len() - notes.stages@.len(),
                {
                    notes.stages.push(stage);
                }
                proof {
                    assert(notes@ =~= staged(routed, stage));
                    assert forall|i: int| 0 <= i < notes@.ops.len() implies op_laid(
                        notes@,
                        #[trigger] notes@.ops[i],
                    ) by {
                        assert(op_laid(routed, routed.ops[i]));
                    }
                    assert forall|i: int| 0 <= i < notes@.streams.len() implies walked(
                        order@,
                        plan.of@,
                        stage as int,
                        index + 1,
                        (#[trigger] notes@.streams[i]).node,
                    ) by {
                        if i < here.streams.len() && routed.streams[i] == here.streams[i] {
                            let node = here.streams[i].node;
                            assert(walked(order@, plan.of@, stage as int, index as int, node));
                            let j = choose|j: int|
                                0 <= j < order@.len() && #[trigger] order@[j] == node && (
                                plan.of@[j] < stage || plan.of@[j] == stage && j < index);
                            assert(order@[j] == node);
                        } else {
                            assert(routed.streams[i].node == id);
                            assert(order@[index as int] == id);
                        }
                    }
                }
            } else {
                proof {
                    assert forall|i: int| 0 <= i < notes@.streams.len() implies walked(
                        order@,
                        plan.of@,
                        stage as int,
                        index + 1,
                        (#[trigger] notes@.streams[i]).node,
                    ) by {
                        let node = here.streams[i].node;
                        let j = choose|j: int|
                            0 <= j < order@.len() && #[trigger] order@[j] == node && (plan.of@[j]
                                < stage || plan.of@[j] == stage && j < index);
                        assert(order@[j] == node);
                    }
                }
            }
            index += 1;
        }
        proof {
            assert forall|i: int| 0 <= i < notes@.streams.len() implies walked(
                order@,
                plan.of@,
                stage + 1,
                0,
                (#[trigger] notes@.streams[i]).node,
            ) by {
                let node = notes@.streams[i].node;
                let j = choose|j: int|
                    0 <= j < order@.len() && #[trigger] order@[j] == node && (plan.of@[j] < stage
                        || plan.of@[j] == stage && j < index);
                assert(order@[j] == node);
            }
        }
        stage += 1;
    }
    Ok(notes)
}

/// Laying out a node says nothing of stages, and takes no operation away.
proof fn lemma_routed_stages(
    half: NoteHalf,
    links: Seq<Link>,
    order: Seq<NodeId>,
    id: NodeId,
    kind: NodeKind,
)
    ensures
        half.routed(links, order, id, kind) matches Ok(after) ==> after.stages == half.stages
            && after.ops.len() >= half.ops.len(),
{
    if kind.source_bus() is None {
        lemma_routed_ports_stages(
            half,
            links,
            order,
            id,
            kind,
            numbered(kind.outputs().len()),
        );
    }
}

proof fn lemma_routed_ports_stages(
    half: NoteHalf,
    links: Seq<Link>,
    order: Seq<NodeId>,
    id: NodeId,
    kind: NodeKind,
    count: nat,
)
    ensures
        half.routed_ports(links, order, id, kind, count) matches Ok(after) ==> after.stages
            == half.stages && after.ops.len() >= half.ops.len(),
    decreases count,
{
    if count > 0 {
        lemma_routed_ports_stages(half, links, order, id, kind, (count - 1) as nat);
    }
}

/// The socket an operation's lane is filed against.
pub open spec fn wanted(pending: Pending) -> (NodeId, u8) {
    match pending.wants {
        Wants::Gate => (pending.node, (OUTPUT_SOCKET + pending.port) as u8),
        Wants::Value => (pending.node, 0),
    }
}

/// An operation with its lane filled in.
pub open spec fn with_lane(op: NoteOp, lane: u16) -> NoteOp {
    match op {
        NoteOp::Filter { a, out, gate, mute, channels, controllers } => NoteOp::Filter {
            a,
            out,
            gate: Some(lane),
            mute,
            channels,
            controllers,
        },
        NoteOp::Emit { a, out, lane: hole, state, channel, cc } => NoteOp::Emit {
            a,
            out,
            lane,
            state,
            channel,
            cc,
        },
        NoteOp::Input { .. } => op,
    }
}

/// The operations with the lanes of the first `count` that wait filled in.
pub open spec fn filled_in(
    ops: Seq<NoteOp>,
    pending: Seq<Pending>,
    lanes: Seq<((NodeId, u8), u16)>,
    count: nat,
) -> Seq<NoteOp>
    decreases count,
{
    if count == 0 {
        ops
    } else {
        let before = filled_in(ops, pending, lanes, (count - 1) as nat);
        let at = pending[count - 1].op as int;
        match lookup(lanes, wanted(pending[count - 1])) {
            Some(lane) => before.update(at, with_lane(before[at], lane)),
            None => before,
        }
    }
}

/// Whether an operation waits for a lane that nothing booked.
pub open spec fn in_vain(
    pending: Seq<Pending>,
    lanes: Seq<((NodeId, u8), u16)>,
    op: int,
) -> bool {
    exists|j: int|
        0 <= j < pending.len() && (#[trigger] pending[j]).op == op && lookup(
            lanes,
            wanted(pending[j]),
        ) is None
}

/// The first `count` of a list, without those whose operation waits in vain.
pub open spec fn heard_of<T>(
    list: Seq<T>,
    pending: Seq<Pending>,
    lanes: Seq<((NodeId, u8), u16)>,
    count: nat,
) -> Seq<T>
    decreases count,
{
    if count == 0 {
        Seq::empty()
    } else {
        let before = heard_of(list, pending, lanes, (count - 1) as nat);
        if in_vain(pending, lanes, count - 1) {
            before
        } else {
            before.push(list[count - 1])
        }
    }
}

/// The end of the run of `stage` that starts at `at`.
pub open spec fn run_end(stages: Seq<usize>, stage: int, at: int) -> int
    decreases stages.len() - at,
{
    if at >= stages.len() || stages[at] != stage {
        at
    } else {
        run_end(stages, stage, at + 1)
    }
}

/// Where the operations of the first `count` stages end.
pub open spec fn stage_end(stages: Seq<usize>, count: nat) -> int
    decreases count,
{
    if count == 0 {
        0
    } else {
        run_end(stages, count - 1, stage_end(stages, (count - 1) as nat))
    }
}

pub open spec fn spans_of(stages: Seq<usize>, count: nat) -> Seq<Span> {
    Seq::new(
        count,
        |s: int|
            Span {
                start: stage_end(stages, s as nat) as u32,
                end: stage_end(stages, (s + 1) as nat) as u32,
            },
    )
}

proof fn lemma_run_end(stages: Seq<usize>, stage: int, at: int)
    requires
        0 <= at <= stages.len(),
    ensures
        at <= run_end(stages, stage, at) <= stages.len(),
    decreases stages.len() - at,
{
    if at < stages.len() && stages[at] == stage {
        lemma_run_end(stages, stage, at + 1);
    }
}

pub proof fn lemma_stage_end(stages: Seq<usize>, count: nat)
    ensures
        0 <= stage_end(stages, count) <= stages.len(),
        count > 0 ==> stage_end(stages, (count - 1) as nat) <= stage_end(stages, count),
    decreases count,
{
    if count > 0 {
        lemma_stage_end(stages, (count - 1) as nat);
        lemma_run_end(stages, count - 1, stage_end(stages, (count - 1) as nat));
    }
}

/// The note half with every lane known.
pub struct ResolvedNotes {
    pub ops: Vec<NoteOp>,
    pub spans: Vec<Span>,
}

/// Fills in the lanes that the parameter half booked, and works out the spans.
///
/// An operation whose lane never came is dropped: for a generator it means that
/// nothing was wired and there is nothing to send. Its buffer stays, and reads as
/// an empty stream.
pub fn resolve_lanes(notes: &Notes, stages: usize, lanes: &Vec<((NodeId, u8), u16)>) -> (r: ResolvedNotes)
    requires
        notes@.wf(),
        notes@.stages.len() == notes@.ops.len(),
    ensures
        r.ops@ == heard_of(
            filled_in(notes@.ops, notes@.pending, lanes@, notes@.pending.len()),
            notes@.pending,
            lanes@,
            notes@.ops.len(),
        ),
        r.spans@ == spans_of(
            heard_of(notes@.stages, notes@.pending, lanes@, notes@.ops.len()),
            stages as nat,
        ),
        r.ops@.len() <= MAX_NOTE_BUFS,
        forall|i: int| 0 <= i < r.ops@.len() ==> note_op_fits(#[trigger] r.ops@[i]),
        forall|s: int| 0 <= s < stages ==> (#[trigger] r.spans@[s]).fits(r.ops@.len()),
{
    let count: usize = notes.ops.len();
    let mut ops: Vec<NoteOp> = Vec::new();
    let mut vain: Vec<bool> = Vec::new();
    while ops.len() < count
        invariant
            count == notes.ops@.len(),
            notes@.wf(),
            ops@.len() == vain@.len() <= count,
            forall|i: int| 0 <= i < ops@.len() ==> #[trigger] ops@[i] == notes.ops@[i],
            forall|i: int| 0 <= i < vain@.len() ==> !(#[trigger] vain@[i]),
        decreases count - ops@.len(),
    {
        ops.push(notes.ops[ops.len()]);
        vain.push(false);
    }
    assert(ops@ =~= notes.ops@);
    assert forall|i: int| 0 <= i < ops@.len() implies note_op_fits(#[trigger] ops@[i]) by {
        assert(op_laid(notes@, notes@.ops[i]));
    }
    let mut at: usize = 0;
    while at < notes.pending.len()
        invariant
            at <= notes.pending@.len(),
            notes@.wf(),
            count == notes.ops@.len() == ops@.len() == vain@.len(),
            ops@ == filled_in(notes.ops@, notes.pending@, lanes@, at as nat),
            forall|i: int| 0 <= i < count ==> note_op_fits(#[trigger] ops@[i]),
            forall|i: int|
                0 <= i < count ==> (#[trigger] vain@[i] <==> exists|j: int|
                    0 <= j < at && (#[trigger] notes.pending@[j]).op == i && lookup(
                        lanes@,
                        wanted(notes.pending@[j]),
                    ) is None),
        decreases notes.pending@.len() - at,
    {
        let pending: Pending = notes.pending[at];
        assert(notes@.pending[at as int] == pending);
        let key: (NodeId, u8) = match pending.wants {
            Wants::Gate => (pending.node, OUTPUT_SOCKET + pending.port),
            Wants::Value => (pending.node, 0),
        };
        let ghost was = vain@;
        let ghost old_ops = ops@;
        match find_key(lanes, key) {
            Some(lane) => {
                let op: NoteOp = ops[pending.op];
                assert(note_op_fits(old_ops[pending.op as int]));
                ops[pending.op] =
                match op {
                    NoteOp::Filter { a, out, gate: _, mute, channels, controllers } => NoteOp::Filter {
                        a,
                        out,
                        gate: Some(lane),
                        mute,
                        channels,
                        controllers,
                    },
                    NoteOp::Emit { a, out, lane: _, state, channel, cc } => NoteOp::Emit {
                        a,
                        out,
                        lane,
                        state,
                        channel,
                        cc,
                    },
                    NoteOp::Input { .. } => op,
                };
            },
            None => {
                vain.set(pending.op, true);
            },
        }
        proof {
            assert forall|i: int| 0 <= i < count implies (#[trigger] vain@[i] <==> exists|j: int|
                0 <= j < at + 1 && (#[trigger] notes.pending@[j]).op == i && lookup(
                    lanes@,
                    wanted(notes.pending@[j]),
                ) is None) by {
                let _ = was[i];
                if was[i] {
                    let j = choose|j: int|
                        0 <= j < at && (#[trigger] notes.pending@[j]).op == i && lookup(
                            lanes@,
                            wanted(notes.pending@[j]),
                        ) is None;
                    assert(notes.pending@[j].op == i);
                }
                if vain@[i] && !was[i] {
                    assert(notes.pending@[at as int].op == i);
                }
            }
        }
        at += 1;
    }
    proof {
        assert forall|i: int| 0 <= i < count implies #[trigger] vain@[i] == in_vain(
            notes.pending@,
            lanes@,
            i,
        ) by {}
    }
    let ghost patched = ops@;
    let mut kept: Vec<NoteOp> = Vec::new();
    let mut kept_stages: Vec<usize> = Vec::new();
    let mut i: usize = 0;
    while i < count
        invariant
            i <= count,
            notes@.wf(),
            notes@.stages.len() == notes@.ops.len(),
            count == notes.ops@.len() == ops@.len() == vain@.len(),
            ops@ == patched,
            kept@.len() == kept_stages@.len() <= i,
            forall|j: int| 0 <= j < count ==> note_op_fits(#[trigger] ops@[j]),
            forall|j: int|
                0 <= j < count ==> #[trigger] vain@[j] == in_vain(notes.pending@, lanes@, j),
            kept@ == heard_of(patched, notes.pending@, lanes@, i as nat),
            kept_stages@ == heard_of(notes.stages@, notes.pending@, lanes@, i as nat),
            forall|j: int| 0 <= j < kept@.len() ==> note_op_fits(#[trigger] kept@[j]),
        decreases count - i,
    {
        assert(vain@[i as int] == in_vain(notes.pending@, lanes@, i as int));
        assert(note_op_fits(ops@[i as int]));
        if !vain[i] {
            kept.push(ops[i]);
            kept_stages.push(notes.stages[i]);
        }
        i += 1;
    }
    let mut spans: Vec<Span> = Vec::new();
    let mut end: usize = 0;
    while spans.len() < stages
        invariant
            spans@.len() <= stages,
            kept_stages@.len() == kept@.len() <= MAX_NOTE_BUFS,
            end == stage_end(kept_stages@, spans@.len()),
            end <= kept@.len(),
            forall|s: int|
                0 <= s < spans@.len() ==> #[trigger] spans@[s] == spans_of(
                    kept_stages@,
                    stages as nat,
                )[s],
            forall|s: int| 0 <= s < spans@.len() ==> (#[trigger] spans@[s]).fits(kept@.len()),
        decreases stages - spans@.len(),
    {
        let stage: usize = spans.len();
        let start: usize = end;
        proof {
            lemma_stage_end(kept_stages@, (stage + 1) as nat);
        }
        while end < kept_stages.len() && kept_stages[end] == stage
            invariant
                start <= end <= kept_stages@.len(),
                run_end(kept_stages@, stage as int, start as int) == run_end(
                    kept_stages@,
                    stage as int,
                    end as int,
                ),
            decreases kept_stages@.len() - end,
        {
            end += 1;
        }
        spans.push(Span { start: start as u32, end: end as u32 });
    }
    assert(spans@ =~= spans_of(kept_stages@, stages as nat));
    ResolvedNotes { ops: kept, spans }
}

} // verus!
