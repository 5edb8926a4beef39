//! What editing a graph and changing or preparing a program keep.
use vstd::prelude::*;
use crate::engine::EngineModel;
use crate::graph::{bus_wired, buses_used, lemma_find_from, resocketed, wires_bus, Graph, Link};
use crate::ir::{NodeId, NoteStream, MAX_NOTE_BUFS};
use crate::note_state::{
    carried, carried_from, distinct_streams, law_carried_stream_keeps_its_notes, same_stream,
};
use crate::number::{Real, Sample};
use crate::params::ParamsModel;
use crate::program::{sized, ProgramModel};
use crate::sound::{RingModel, SoundModel};
use crate::wiring::lemma_find_at;

verus! {

/// Two sockets can be joined where they belong to different nodes and both carry audio, of
/// whatever width, or both parameters, or both notes.
pub proof fn law_what_can_be_joined(
    graph: Graph,
    from: NodeId,
    from_port: u8,
    to: NodeId,
    to_port: u8,
    a: int,
    b: int,
)
    requires
        0 <= a < graph.nodes@.len() && graph.nodes@[a].id == from,
        forall|j: int| 0 <= j < a ==> (#[trigger] graph.nodes@[j]).id != from,
        0 <= b < graph.nodes@.len() && graph.nodes@[b].id == to,
        forall|j: int| 0 <= j < b ==> (#[trigger] graph.nodes@[j]).id != to,
    ensures
        ({
            let outputs = graph.nodes@[a].kind.outputs();
            let inputs = graph.nodes@[b].kind.inputs();
            graph.joins(from, from_port, to, to_port) <==> {
                &&& from != to
                &&& from_port < outputs.len()
                &&& to_port < inputs.len()
                &&& {
                    ||| outputs[from_port as int].ty is Audio && inputs[to_port as int].ty is Audio
                    ||| outputs[from_port as int].ty is Param && inputs[to_port as int].ty is Param
                    ||| outputs[from_port as int].ty is Note && inputs[to_port as int].ty is Note
                }
            }
        }),
{
    lemma_find_at(graph.nodes@, from, 0, a);
    lemma_find_at(graph.nodes@, to, 0, b);
}

/// Nothing is joined to a node that is not there.
pub proof fn law_nothing_joins_what_is_not_there(
    graph: Graph,
    from: NodeId,
    from_port: u8,
    to: NodeId,
    to_port: u8,
)
    requires
        (forall|j: int| 0 <= j < graph.nodes@.len() ==> (#[trigger] graph.nodes@[j]).id != from)
            || (forall|j: int| 0 <= j < graph.nodes@.len() ==> (#[trigger] graph.nodes@[j]).id
            != to),
    ensures
        !graph.joins(from, from_port, to, to_port),
{
    lemma_find_from(graph.nodes@, from, 0);
    lemma_find_from(graph.nodes@, to, 0);
}

/// Whether some wire leaves an output of a node.
pub open spec fn leaves_by(links: Seq<Link>, node: NodeId, port: int) -> bool {
    exists|k: int|
        0 <= k < links.len() && (#[trigger] links[k]).from == node && links[k].from_port == port
}

/// The buses that a plugin picks to show are the main one and those that are wired, in the
/// order of their numbers.
pub proof fn law_a_plugin_picks_what_is_wired(
    links: Seq<Link>,
    node: NodeId,
    count: nat,
    bus: u16,
    i: int,
    j: int,
)
    requires
        0 < count <= 256,
    ensures
        ({
            let picked = buses_used(links, node, count);
            &&& picked.contains(bus) <==> bus < count && (bus == 0 || leaves_by(
                links,
                node,
                bus as int,
            ))
            &&& 0 <= i < j < picked.len() ==> picked[i] < picked[j]
        }),
    decreases count,
{
    let picked = buses_used(links, node, count);
    let last = count - 1;
    assert(bus_wired(links, node, last) == leaves_by(links, node, last)) by {
        if bus_wired(links, node, last) {
            let k = choose|k: int|
                0 <= k < links.len() && wires_bus(#[trigger] links[k], node, last);
            assert(links[k].from == node && links[k].from_port == last);
        }
        if leaves_by(links, node, last) {
            let k = choose|k: int|
                0 <= k < links.len() && (#[trigger] links[k]).from == node && links[k].from_port
                    == last;
            assert(wires_bus(links[k], node, last));
        }
    }
    let lower = buses_used(links, node, (count - 1) as nat);
    if count > 1 {
        law_a_plugin_picks_what_is_wired(links, node, (count - 1) as nat, bus, i, j);
        lemma_picked_below(links, node, (count - 1) as nat);
    } else {
        assert(lower.len() == 0);
    }
    if picked != lower {
        assert(picked == lower.push(last as u16));
        assert(picked[lower.len() as int] == last);
        if lower.contains(bus) {
            let k = choose|k: int| 0 <= k < lower.len() && lower[k] == bus;
            assert(picked[k] == bus);
        }
        if picked.contains(bus) && bus != last {
            let k = choose|k: int| 0 <= k < picked.len() && picked[k] == bus;
            assert(lower[k] == bus);
        }
    }
}

proof fn lemma_picked_below(links: Seq<Link>, node: NodeId, count: nat)
    requires
        count <= 256,
    ensures
        forall|i: int|
            0 <= i < buses_used(links, node, count).len() ==> #[trigger] buses_used(
                links,
                node,
                count,
            )[i] < count,
    decreases count,
{
    if count > 0 {
        lemma_picked_below(links, node, (count - 1) as nat);
        let lower = buses_used(links, node, (count - 1) as nat);
        let picked = buses_used(links, node, count);
        assert forall|i: int| 0 <= i < picked.len() implies #[trigger] picked[i] < count by {
            if i < lower.len() {
                assert(picked[i] == lower[i]);
            }
        }
    }
}

/// A wire that left a bus leaves the socket that shows the bus, and goes where it went. A
/// wire of another node stays as it is.
pub proof fn law_a_wire_stays_with_its_bus(link: Link, node: NodeId, picked: Seq<u16>)
    requires
        picked.len() <= 256,
    ensures
        ({
            let after = resocketed(link, node, picked);
            &&& after.from == link.from
            &&& after.to == link.to
            &&& after.to_port == link.to_port
            &&& link.from != node ==> after == link
            &&& link.from == node && picked.contains(link.from_port as u16) ==> after.from_port
                < picked.len() && picked[after.from_port as int] == link.from_port
        }),
{
}

/// A line is sized at what was asked for it, and at nothing where nothing was asked.
pub proof fn law_lines_are_sized_as_asked(nodes: Seq<NodeId>, lens: Seq<usize>, i: int)
    requires
        0 <= i < nodes.len(),
    ensures
        sized(nodes, lens).len() == nodes.len(),
        sized(nodes, lens)[i].node == nodes[i],
        i < lens.len() ==> sized(nodes, lens)[i].len == lens[i],
        i >= lens.len() ==> sized(nodes, lens)[i].len == 0,
{
}

/// Getting ready for blocks of a size makes room for every channel of every buffer, all of
/// it silent, takes the widths of the host's buses and starts every delay over.
pub proof fn law_getting_ready_makes_room(
    state: SoundModel,
    stride: usize,
    daw_inputs: Seq<u16>,
    i: int,
)
    ensures
        ({
            let next = state.prepared(stride, daw_inputs);
            &&& next.stride == stride
            &&& next.daw_inputs == daw_inputs
            &&& 0 <= i < next.pool.len() ==> next.pool[i].bits == 0
            &&& 0 <= i < next.compensators.len() ==> next.compensators[i].bits == 0
            &&& 0 <= i < next.compensator_heads.len() ==> next.compensator_heads[i] == 0
            &&& next.lines.len() == state.lines.len()
            &&& 0 <= i < state.lines.len() ==> next.lines[i].ring == state.lines[i].ring
                && next.lines[i].len == state.lines[i].len && next.lines[i].head == 0
            &&& next.line_nodes == state.line_nodes
            &&& next.line_order == state.line_order
        }),
{
}

/// A reset leaves no sample anywhere: none in the buffers, none behind a compensated path
/// and none in a line.
pub proof fn law_a_reset_leaves_silence(state: SoundModel, i: int, k: int)
    ensures
        ({
            let next = state.forgotten();
            &&& next.pool.len() == state.pool.len()
            &&& 0 <= i < next.pool.len() ==> next.pool[i].bits == 0
            &&& next.compensators.len() == state.compensators.len()
            &&& 0 <= i < next.compensators.len() ==> next.compensators[i].bits == 0
            &&& 0 <= i < next.compensator_heads.len() ==> next.compensator_heads[i] == 0
            &&& next.lines.len() == state.lines.len()
            &&& 0 <= i < next.lines.len() ==> next.lines[i].len == state.lines[i].len
                && next.lines[i].ring.len() == state.lines[i].ring.len() && (0 <= k
                < next.lines[i].ring.len() ==> next.lines[i].ring[k].bits == 0)
            &&& 0 <= i < next.tap_distance.len() ==> next.tap_distance[i].nan()
            &&& next.stride == state.stride
            &&& next.daw_inputs == state.daw_inputs
            &&& next.line_nodes == state.line_nodes
        }),
{
}

/// A reset starts every oscillator over and leaves nothing in a delay line; oscillators and
/// lines stay with their nodes, and the draws go on.
pub proof fn law_a_reset_starts_modulation_over(state: ParamsModel, i: int)
    requires
        state.wf(),
    ensures
        ({
            let next = state.forgotten();
            &&& next.lfos.len() == state.lfos.len()
            &&& 0 <= i < state.lfos.len() ==> next.lfos[i].phase.rank() == 0
                && next.lfos[i].hold.rank() == 0 && next.lfos[i].node == state.lfos[i].node
            &&& next.lines.len() == state.lines.len()
            &&& next.line_nodes == state.line_nodes
            &&& next.line_order == state.line_order
            &&& next.registers == state.registers
            &&& next.rng == state.rng
        }),
{
}

/// A read goes on from where it was, and starts where it is going if it was nowhere.
pub proof fn law_a_read_goes_on_from_where_it_was(state: SoundModel, tap: int, distance: Real)
    requires
        0 <= tap < state.tap_distance.len(),
    ensures
        state.tap_distance[tap].finite() ==> state.swept_from(tap, distance)
            == state.tap_distance[tap],
        state.tap_distance[tap].nan() ==> state.swept_from(tap, distance) == distance,
{
}

/// A line of the length that is asked for stays as it is where no ring came for it. One of
/// another length plays nothing then. A line that held nothing starts on the ring that came.
pub proof fn law_a_line_without_a_ring(line: RingModel, len: usize, ring: Seq<Sample>)
    ensures
        line.len == len ==> line.resized(len, Seq::empty()) == line,
        line.len != len ==> line.resized(len, Seq::empty()).len == 0,
        ring.len() > 0 && line.len == 0 ==> line.resized(len, ring).ring == ring && line.resized(
            len,
            ring,
        ).len == len && line.resized(len, ring).head == 0,
{
}

/// Whether a stream goes on: out of the same socket, made the same way, and from a buffer
/// that goes on too.
pub open spec fn goes_on(
    old: Seq<Option<NoteStream>>,
    next: NoteStream,
    sources: Seq<Option<usize>>,
    from: int,
) -> bool {
    old[from] matches Some(was) && {
        &&& was.node == next.node && was.port == next.port && was.kind == next.kind
        &&& was.source is None <==> next.source is None
        &&& next.source matches Some(to) ==> (was.source matches Some(at) && sources[to as int]
            == Some(at as usize))
    }
}

proof fn lemma_carried_stays(
    old: Seq<Option<NoteStream>>,
    streams: Seq<NoteStream>,
    few: nat,
    count: nat,
    i: int,
)
    requires
        0 <= i < few <= count <= MAX_NOTE_BUFS,
    ensures
        carried(old, streams, count).len() == MAX_NOTE_BUFS,
        carried(old, streams, count)[i] == carried(old, streams, few)[i],
    decreases count,
{
    lemma_carried_len(old, streams, count);
    if few < count {
        lemma_carried_stays(old, streams, few, (count - 1) as nat, i);
    }
}

proof fn lemma_carried_len(old: Seq<Option<NoteStream>>, streams: Seq<NoteStream>, count: nat)
    requires
        count <= MAX_NOTE_BUFS,
    ensures
        carried(old, streams, count).len() == MAX_NOTE_BUFS,
    decreases count,
{
    if count > 0 {
        lemma_carried_len(old, streams, (count - 1) as nat);
    }
}

proof fn lemma_carried_at(
    old: Seq<Option<NoteStream>>,
    next: NoteStream,
    remap: Seq<Option<usize>>,
    at: int,
    from: int,
)
    requires
        0 <= at <= from < old.len(),
        old.len() <= usize::MAX,
        same_stream(old[from], next, remap),
        forall|b: int| at <= b < from ==> !same_stream(#[trigger] old[b], next, remap),
    ensures
        carried_from(old, next, remap, at) == Some(from as usize),
    decreases from - at,
{
    if at < from {
        assert(!same_stream(old[at], next, remap));
        lemma_carried_at(old, next, remap, at + 1, from);
    }
}

proof fn lemma_none_carried(
    old: Seq<Option<NoteStream>>,
    next: NoteStream,
    remap: Seq<Option<usize>>,
    at: int,
)
    requires
        0 <= at,
        forall|b: int| at <= b < old.len() ==> !same_stream(#[trigger] old[b], next, remap),
    ensures
        carried_from(old, next, remap, at) is None,
    decreases old.len() - at,
{
    if at < old.len() {
        assert(!same_stream(old[at], next, remap));
        lemma_none_carried(old, next, remap, at + 1);
    }
}

/// A stream that goes on keeps its events, its held keys and the places where its sub-blocks
/// start, wherever its buffer lies in the next program. One that is new starts empty.
pub proof fn law_a_stream_that_goes_on_keeps_its_notes(
    model: EngineModel,
    next: ProgramModel,
    publication: u64,
    to: int,
    from: int,
    row: int,
)
    requires
        model.wf(),
        next.note_streams.len() <= MAX_NOTE_BUFS,
        distinct_streams(next.note_streams),
        0 <= to < next.note_streams.len(),
        forall|i: int|
            0 <= i < next.note_streams.len() ==> ((
            #[trigger] next.note_streams[i]).source matches Some(source) ==> source < i),
        forall|a: int, b: int|
            0 <= a < b < MAX_NOTE_BUFS ==> (#[trigger] model.notes.streams[a] matches Some(s)
                ==> (#[trigger] model.notes.streams[b] matches Some(t) ==> s.node != t.node
                || s.port != t.port)),
    ensures
        ({
            let sources = carried(
                model.notes.streams,
                next.note_streams,
                next.note_streams.len(),
            );
            let after = model.adopted(next, publication);
            let stream = next.note_streams[to];
            &&& 0 <= from < MAX_NOTE_BUFS && goes_on(model.notes.streams, stream, sources, from)
                ==> sources[to] == Some(from as usize) && after.notes.bufs[to]
                == model.notes.bufs[from] && (0 <= row < model.note_rows && row
                < model.note_marks.len() ==> after.note_marks[row][to]
                == model.note_marks[row][from])
            &&& (forall|b: int|
                0 <= b < MAX_NOTE_BUFS ==> !goes_on(
                    model.notes.streams,
                    stream,
                    sources,
                    b,
                )) ==> sources[to] is None && after.notes.bufs[to].events.len() == 0
                && after.notes.bufs[to].played.held == 0
        }),
{
    let old = model.notes.streams;
    let streams = next.note_streams;
    let sources = carried(old, streams, streams.len());
    let earlier = carried(old, streams, to as nat);
    let stream = streams[to];
    lemma_carried_len(old, streams, to as nat);
    lemma_carried_stays(old, streams, (to + 1) as nat, streams.len(), to);
    if let Some(source) = stream.source {
        assert(source < to);
        lemma_carried_stays(old, streams, to as nat, streams.len(), source as int);
        assert(earlier[source as int] == sources[source as int]);
    }
    assert forall|b: int| 0 <= b < MAX_NOTE_BUFS implies same_stream(
        #[trigger] old[b],
        stream,
        earlier,
    ) == goes_on(old, stream, sources, b) by {}
    assert(sources[to] == carried_from(old, stream, earlier, 0));
    law_carried_stream_keeps_its_notes(model.notes, streams, to);
    if 0 <= from < MAX_NOTE_BUFS && goes_on(old, stream, sources, from) {
        assert forall|b: int| 0 <= b < from implies !same_stream(
            #[trigger] old[b],
            stream,
            earlier,
        ) by {
            assert(old[b] == old[b] && old[from] == old[from]);
        }
        lemma_carried_at(old, stream, earlier, 0, from);
    }
    if forall|b: int| 0 <= b < MAX_NOTE_BUFS ==> !goes_on(old, stream, sources, b) {
        assert forall|b: int| 0 <= b < old.len() implies !same_stream(
            #[trigger] old[b],
            stream,
            earlier,
        ) by {
            assert(!goes_on(old, stream, sources, b));
        }
        lemma_none_carried(old, stream, earlier, 0);
    }
}

/// The next program is the one that was handed over, under its number, but for the rings it
/// gets in exchange; the notes that are alive and the events of the block stay.
pub proof fn law_the_next_program_is_the_one_handed_over(
    model: EngineModel,
    next: ProgramModel,
    publication: u64,
)
    ensures
        ({
            let after = model.adopted(next, publication);
            &&& after.publication == publication
            &&& after.ledger == model.ledger
            &&& after.translated == model.translated
            &&& after.note_rows == model.note_rows
            &&& after.program matches Some(program) && {
                &&& program.ops == next.ops
                &&& program.audio_ops == next.audio_ops
                &&& program.note_ops == next.note_ops
                &&& program.outputs == next.outputs
                &&& program.stages == next.stages
                &&& program.latency == next.latency
                &&& program.instances == next.instances
                &&& program.buffers == next.buffers
                &&& program.audio_lane_base == next.audio_lane_base
                &&& program.audio_rings.len() == next.audio_rings.len()
            }
        }),
{
}

} // verus!
