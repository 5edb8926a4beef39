//! What the wires of a graph come to: which sockets there are, what feeds what, which nodes
//! run, which delay lines there are and how the nodes fall into stages.
use vstd::prelude::*;
use crate::audio_cx::{
    all_readers, audio_sources, audio_widths, fed_by, produced_from, AudioEnv, AudioModel, Produced,
};
use crate::audio_nodes::lemma_source_at;
use crate::declare::{
    declared, lemma_line_from, lemma_unwritten_from, line_at, placed, unwritten_from, Line,
};
use crate::error::CompileError;
use crate::graph::{find_from, lemma_source_from, source, Graph, Link, Node};
use crate::ir::{Chunking, LineId, NodeId, NO_NODE};
use crate::nodes::NodeKind;
use crate::note_half::reader_count;
use crate::note_nodes::unwired;
use crate::order::{feeds, followed_inputs, is_sink};
use crate::port::{PortType, Socket};
use crate::stages::{
    backward_of, chunking_of, crosses_rate, is_plan, level_of, looped_of, marked, reachable,
    stage_key,
};

verus! {

/// Whether a list of sockets holds sockets of these types and no others.
pub open spec fn typed(list: Seq<Socket>, types: Seq<PortType>) -> bool {
    &&& list.len() == types.len()
    &&& forall|i: int| 0 <= i < types.len() ==> (#[trigger] list[i]).ty == types[i]
}

/// The inputs of each kind of node.
pub proof fn law_what_goes_into_a_node(kind: NodeKind)
    ensures
        match kind {
            NodeKind::Constant(_) => kind.inputs().len() == 0,
            NodeKind::SlotIn(_) => kind.inputs().len() == 0,
            NodeKind::Lfo(_) => kind.inputs().len() == 0,
            NodeKind::NoteIn => kind.inputs().len() == 0,
            NodeKind::AudioIn(_) => kind.inputs().len() == 0,
            NodeKind::Math(_) => typed(kind.inputs(), seq![PortType::Param, PortType::Param]),
            NodeKind::RangeMap(_) => typed(kind.inputs(), seq![PortType::Param]),
            NodeKind::Switch(switch) => typed(
                kind.inputs(),
                Seq::new(switch.values@.len() + 1, |i: int| PortType::Param),
            ),
            NodeKind::NoteGate(_) => typed(kind.inputs(), seq![PortType::Note, PortType::Param]),
            NodeKind::NoteMute(_) => typed(kind.inputs(), seq![PortType::Note]),
            NodeKind::NoteFilter(_) => typed(kind.inputs(), seq![PortType::Note]),
            NodeKind::KeySplit(_) => typed(kind.inputs(), seq![PortType::Note]),
            NodeKind::KeySwitch(_) => typed(kind.inputs(), seq![PortType::Note]),
            NodeKind::KeyParam(chosen) => typed(
                kind.inputs(),
                seq![PortType::Note] + Seq::new(chosen.values@.len(), |i: int| PortType::Param),
            ),
            NodeKind::NoteFollow(_) => typed(kind.inputs(), seq![PortType::Note]),
            NodeKind::CcIn(_) => typed(kind.inputs(), seq![PortType::Note]),
            NodeKind::ParamToCc(_) => typed(kind.inputs(), seq![PortType::Param, PortType::Note]),
            NodeKind::EnvelopeFollower(_) => typed(
                kind.inputs(),
                seq![PortType::Audio { channels: 2 }],
            ),
            NodeKind::AudioOut(out) => typed(
                kind.inputs(),
                seq![PortType::Audio { channels: out.channels }],
            ),
            NodeKind::Mix(mix) => kind.inputs().len() == 2 * mix.inputs && forall|i: int|
                0 <= i < mix.inputs ==> (#[trigger] kind.inputs()[2 * i]).ty == (PortType::Audio {
                    channels: mix.channels,
                }) && kind.inputs()[2 * i + 1].ty is Param,
            NodeKind::Gate(gate) => typed(
                kind.inputs(),
                seq![PortType::Audio { channels: gate.channels }, PortType::Param],
            ),
            NodeKind::Plugin(plugin) => {
                let ports = plugin.ports;
                let buses = ports.audio_in@.len();
                let notes = if ports.accepts_notes {
                    1int
                } else {
                    0
                };
                &&& kind.inputs().len() == buses + notes + ports.params@.len()
                &&& forall|i: int|
                    0 <= i < buses ==> (#[trigger] kind.inputs()[i]).ty == (PortType::Audio {
                        channels: ports.audio_in@[i],
                    })
                &&& notes > 0 ==> kind.inputs()[buses as int].ty is Note
                &&& forall|i: int|
                    buses + notes <= i < kind.inputs().len() ==> (
                    #[trigger] kind.inputs()[i]).ty is Param
            },
            NodeKind::DelayWrite(write) => typed(kind.inputs(), seq![write.ty]),
            NodeKind::DelayRead(_) => typed(kind.inputs(), seq![PortType::Param]),
        },
{
}

/// The outputs of each kind of node.
pub proof fn law_what_comes_out_of_a_node(kind: NodeKind)
    ensures
        match kind {
            NodeKind::AudioOut(_) => kind.outputs().len() == 0,
            NodeKind::DelayWrite(_) => kind.outputs().len() == 0,
            NodeKind::NoteIn => typed(kind.outputs(), seq![PortType::Note]),
            NodeKind::NoteGate(_) => typed(kind.outputs(), seq![PortType::Note]),
            NodeKind::NoteMute(_) => typed(kind.outputs(), seq![PortType::Note]),
            NodeKind::NoteFilter(_) => typed(kind.outputs(), seq![PortType::Note]),
            NodeKind::ParamToCc(_) => typed(kind.outputs(), seq![PortType::Note]),
            NodeKind::KeySplit(split) => typed(
                kind.outputs(),
                Seq::new(split.splits@.len() + 1, |i: int| PortType::Note),
            ),
            NodeKind::KeySwitch(switch) => switch.keys@.len() <= 128 ==> typed(
                kind.outputs(),
                Seq::new(switch.keys@.len(), |i: int| PortType::Note),
            ),
            NodeKind::KeyParam(_) => typed(kind.outputs(), seq![PortType::Param, PortType::Note]),
            NodeKind::AudioIn(input) => typed(
                kind.outputs(),
                seq![PortType::Audio { channels: input.channels }],
            ),
            NodeKind::Mix(mix) => typed(
                kind.outputs(),
                seq![PortType::Audio { channels: mix.channels }],
            ),
            NodeKind::Gate(gate) => typed(
                kind.outputs(),
                seq![PortType::Audio { channels: gate.channels }],
            ),
            NodeKind::Plugin(plugin) => kind.outputs().len() == plugin.ports.shown().len()
                && forall|i: int|
                0 <= i < kind.outputs().len() ==> (#[trigger] kind.outputs()[i]).ty == (
                PortType::Audio {
                    channels: plugin.ports.audio_out@[plugin.ports.shown()[i] as int],
                }),
            NodeKind::DelayRead(read) => typed(kind.outputs(), seq![read.ty]),
            _ => typed(kind.outputs(), seq![PortType::Param]),
        },
{
}

/// How many of the sockets before `socket` carry audio.
pub open spec fn audio_before(inputs: Seq<Socket>, socket: int) -> int
    decreases socket,
{
    if socket <= 0 {
        0
    } else {
        audio_before(inputs, socket - 1) + if inputs[socket - 1].ty is Audio {
            1int
        } else {
            0
        }
    }
}

proof fn lemma_audio_sources(
    links: Seq<Link>,
    produced: Seq<Produced>,
    node: NodeId,
    inputs: Seq<Socket>,
    count: nat,
    socket: int,
)
    requires
        0 <= socket < count <= inputs.len(),
        socket < 256,
        inputs[socket].ty is Audio,
    ensures
        audio_sources(links, produced, node, inputs, count).len() == audio_before(
            inputs,
            count as int,
        ),
        audio_widths(inputs, count).len() == audio_before(inputs, count as int),
        0 <= audio_before(inputs, socket) < audio_before(inputs, count as int),
        audio_sources(links, produced, node, inputs, count)[audio_before(inputs, socket)]
            == fed_by(links, produced, node, socket as u8),
        inputs[socket].ty == (PortType::Audio {
            channels: audio_widths(inputs, count)[audio_before(inputs, socket)],
        }),
    decreases count,
{
    if socket < count - 1 {
        lemma_audio_sources(links, produced, node, inputs, (count - 1) as nat, socket);
    } else {
        lemma_audio_counts(links, produced, node, inputs, (count - 1) as nat);
    }
}

proof fn lemma_audio_counts(
    links: Seq<Link>,
    produced: Seq<Produced>,
    node: NodeId,
    inputs: Seq<Socket>,
    count: nat,
)
    requires
        count <= inputs.len(),
    ensures
        audio_sources(links, produced, node, inputs, count).len() == audio_before(
            inputs,
            count as int,
        ),
        audio_widths(inputs, count).len() == audio_before(inputs, count as int),
        audio_before(inputs, count as int) >= 0,
    decreases count,
{
    if count > 0 {
        lemma_audio_counts(links, produced, node, inputs, (count - 1) as nat);
    }
}

proof fn lemma_produced_at(produced: Seq<Produced>, node: NodeId, port: u8, at: int, m: int)
    requires
        0 <= at <= m < produced.len(),
        produced[m].node == node && produced[m].port == port,
        forall|b: int|
            at <= b < m ==> !((#[trigger] produced[b]).node == node && produced[b].port == port),
    ensures
        produced_from(produced, node, port, at) == Some((produced[m].buf, produced[m].latency)),
    decreases m - at,
{
    if at < m {
        assert(!(produced[at].node == node && produced[at].port == port));
        lemma_produced_at(produced, node, port, at + 1, m);
    }
}

/// A node's audio input is fed the buffer left on the output that is wired to it, at the
/// width of the socket; without a wire it is fed nothing.
pub proof fn law_an_audio_input_is_fed_by_its_wire(
    model: AudioModel,
    env: AudioEnv,
    id: NodeId,
    kind: NodeKind,
    socket: u8,
    k: int,
    m: int,
)
    requires
        socket < kind.inputs().len(),
        kind.inputs()[socket as int].ty is Audio,
    ensures
        ({
            let begun = model.begun(env, id, kind);
            let i = audio_before(kind.inputs(), socket as int);
            &&& begun.id == id
            &&& 0 <= i < begun.sources.len() == begun.source_widths.len()
            &&& kind.inputs()[socket as int].ty == (PortType::Audio {
                channels: begun.source_widths[i],
            })
            &&& unwired(env.links, id, socket) ==> begun.sources[i] is None
            &&& 0 <= k < env.links.len() && env.links[k].to == id && env.links[k].to_port == socket
                && (forall|b: int|
                0 <= b < k ==> !((#[trigger] env.links[b]).to == id && env.links[b].to_port
                    == socket)) && 0 <= m < model.produced.len() && model.produced[m].node
                == env.links[k].from && model.produced[m].port == env.links[k].from_port && (forall|
                b: int,
            |
                0 <= b < m ==> !((#[trigger] model.produced[b]).node == env.links[k].from
                    && model.produced[b].port == env.links[k].from_port)) ==> begun.sources[i]
                == Some((model.produced[m].buf, model.produced[m].latency))
        }),
{
    let inputs = kind.inputs();
    lemma_audio_sources(env.links, model.produced, id, inputs, inputs.len(), socket as int);
    lemma_audio_counts(env.links, model.produced, id, inputs, inputs.len());
    if unwired(env.links, id, socket) {
        lemma_source_from(env.links, id, socket, 0);
    }
    if 0 <= k < env.links.len() && env.links[k].to == id && env.links[k].to_port == socket && (
    forall|b: int|
        0 <= b < k ==> !((#[trigger] env.links[b]).to == id && env.links[b].to_port == socket))
        && 0 <= m < model.produced.len() && model.produced[m].node == env.links[k].from
        && model.produced[m].port == env.links[k].from_port && (forall|b: int|
        0 <= b < m ==> !((#[trigger] model.produced[b]).node == env.links[k].from
            && model.produced[b].port == env.links[k].from_port)) {
        lemma_source_at(env.links, id, socket, 0, k);
        lemma_produced_at(model.produced, env.links[k].from, env.links[k].from_port, 0, m);
    }
}

/// A wire to a node that runs counts as one reader of the node and of the output it leaves,
/// and any other wire as none.
pub proof fn law_readers_are_counted(
    links: Seq<Link>,
    link: Link,
    order: Seq<NodeId>,
    node: NodeId,
    port: u8,
)
    ensures
        all_readers(Seq::empty(), order, node) == 0,
        reader_count(Seq::empty(), order, node, port) == 0,
        ({
            let more = links.push(link);
            let runs = order.contains(link.to);
            &&& all_readers(more, order, node) == all_readers(links, order, node) + if link.from
                == node && runs {
                1int
            } else {
                0
            }
            &&& reader_count(more, order, node, port) == reader_count(links, order, node, port)
                + if link.from == node && link.from_port == port && runs {
                1int
            } else {
                0
            }
        }),
{
    reveal(Seq::filter);
    assert(links.push(link).drop_last() =~= links);
}

/// What is said of one end of a delay line is refused for lines of notes, for ends of two
/// types, for a second writer, and where there are thirty-two lines already. Otherwise the
/// line is there afterwards, with the writer if this end is one, and no other line changes.
pub proof fn law_ends_of_delay_lines(
    lines: Seq<Line>,
    node: NodeId,
    line: LineId,
    ty: PortType,
    writes: bool,
    i: int,
    other: Line,
)
    requires
        node != NO_NODE,
        forall|a: int, b: int|
            0 <= a < b < lines.len() ==> (#[trigger] lines[a]).id != (#[trigger] lines[b]).id,
    ensures
        ({
            let result = declared(lines, node, line, ty, writes);
            let known = 0 <= i < lines.len() && lines[i].id == line;
            let unknown = forall|j: int| 0 <= j < lines.len() ==> (#[trigger] lines[j]).id != line;
            &&& ty is Note ==> result == Err::<Seq<Line>, CompileError>(
                CompileError::NotYet { what: "note delay lines" },
            )
            &&& !(ty is Note) && known && lines[i].ty != ty ==> result == Err::<
                Seq<Line>,
                CompileError,
            >(CompileError::DelayTypeMismatch { line })
            &&& !(ty is Note) && known && lines[i].ty == ty && !writes ==> result == Ok::<
                Seq<Line>,
                CompileError,
            >(lines)
            &&& !(ty is Note) && known && lines[i].ty == ty && writes && lines[i].writer != NO_NODE
                ==> result == Err::<Seq<Line>, CompileError>(
                CompileError::DuplicateDelayWrite { line },
            )
            &&& !(ty is Note) && known && lines[i].ty == ty && writes && lines[i].writer == NO_NODE
                ==> (result matches Ok(after) && after.len() == lines.len() && after.contains(
                Line { id: line, writer: node, ty },
            ) && (other.id != line ==> after.contains(other) == lines.contains(other)))
            &&& !(ty is Note) && unknown && lines.len() >= 32 ==> result == Err::<
                Seq<Line>,
                CompileError,
            >(CompileError::TooLarge { what: "delay lines", limit: 32 })
            &&& !(ty is Note) && unknown && lines.len() < 32 ==> (result matches Ok(after)
                && after.len() == lines.len() + 1 && after.contains(
                Line {
                    id: line,
                    writer: if writes {
                        node
                    } else {
                        NO_NODE
                    },
                    ty,
                },
            ) && (other.id != line ==> after.contains(other) == lines.contains(other)))
        }),
{
    lemma_line_from(lines, line, 0);
    let found = line_at(lines, line);
    if 0 <= i < lines.len() && lines[i].id == line {
        assert(found is Some);
        let at = found->0;
        if at < i {
            assert(lines[at].id != lines[i].id);
        }
        if i < at {
            assert(lines[i].id != lines[at].id);
        }
        assert(at == i);
        let rest = lines.remove(i);
        let end = Line { writer: node, ..lines[i] };
        lemma_placed(rest, end, other);
        assert forall|x: Line| x.id != line implies rest.contains(x) == lines.contains(x) by {
            if lines.contains(x) {
                let k = choose|k: int| 0 <= k < lines.len() && lines[k] == x;
                if k < i {
                    assert(rest[k] == x);
                } else {
                    assert(rest[k - 1] == x);
                }
            }
            if rest.contains(x) {
                let k = choose|k: int| 0 <= k < rest.len() && rest[k] == x;
                if k < i {
                    assert(lines[k] == x);
                } else {
                    assert(lines[k + 1] == x);
                }
            }
        }
    }
    if forall|j: int| 0 <= j < lines.len() ==> (#[trigger] lines[j]).id != line {
        lemma_placed(lines, Line { id: line, writer: node, ty }, other);
        let open = Line { id: line, writer: NO_NODE, ty };
        let pushed = lines.push(open);
        assert(pushed[lines.len() as int] == open);
        if lines.contains(other) {
            let k = choose|k: int| 0 <= k < lines.len() && lines[k] == other;
            assert(pushed[k] == other);
        }
        if other.id != line && pushed.contains(other) {
            let k = choose|k: int| 0 <= k < pushed.len() && pushed[k] == other;
            assert(k < lines.len() && lines[k] == other);
        }
    }
}

proof fn lemma_placed(lines: Seq<Line>, line: Line, other: Line)
    ensures
        placed(lines, line).len() == lines.len() + 1,
        placed(lines, line).contains(line),
        other != line ==> placed(lines, line).contains(other) == lines.contains(other),
{
    lemma_unwritten_from(lines, 0);
    let at = unwritten_from(lines, 0);
    let after = placed(lines, line);
    assert(after[at] == line);
    if lines.contains(other) {
        let k = choose|k: int| 0 <= k < lines.len() && lines[k] == other;
        if k < at {
            assert(after[k] == other);
        } else {
            assert(after[k + 1] == other);
        }
    }
    if other != line && after.contains(other) {
        let k = choose|k: int| 0 <= k < after.len() && after[k] == other;
        if k < at {
            assert(lines[k] == other);
        } else {
            assert(lines[k - 1] == other);
        }
    }
}

/// What the program is there for: what goes out to the host, what goes into a delay line, a
/// plugin or a switch without an output, and what the user keeps running.
pub proof fn law_what_the_program_is_there_for(node: Node)
    ensures
        node.always_on ==> is_sink(node),
        node.kind is AudioOut || node.kind is DelayWrite ==> is_sink(node),
        !node.always_on && !(node.kind is AudioOut) && !(node.kind is DelayWrite) ==> (is_sink(node)
            == match node.kind {
            NodeKind::Plugin(plugin) => plugin.ports.shown().len() == 0,
            NodeKind::KeySwitch(switch) => switch.keys@.len() == 0,
            _ => false,
        }),
{
}

pub proof fn lemma_find_at(nodes: Seq<Node>, id: NodeId, at: int, a: int)
    requires
        0 <= at <= a < nodes.len(),
        nodes[a].id == id,
        forall|j: int| at <= j < a ==> (#[trigger] nodes[j]).id != id,
    ensures
        find_from(nodes, id, at) == Some(a),
    decreases a - at,
{
    if at < a {
        assert(nodes[at].id != id);
        lemma_find_at(nodes, id, at + 1, a);
    }
}

/// A wire from one node into an input that another has is a feed, where it is the first
/// into that input.
pub proof fn law_a_wire_feeds(graph: Graph, a: int, b: int, k: int)
    requires
        0 <= a < graph.nodes@.len(),
        0 <= b < graph.nodes@.len(),
        0 <= k < graph.links@.len(),
        graph.links@[k].from == graph.nodes@[a].id,
        graph.links@[k].to == graph.nodes@[b].id,
        graph.links@[k].to_port < graph.nodes@[b].kind.inputs().len(),
        forall|j: int| 0 <= j < a ==> (#[trigger] graph.nodes@[j]).id != graph.nodes@[a].id,
        forall|j: int|
            0 <= j < k ==> !((#[trigger] graph.links@[j]).to == graph.nodes@[b].id
                && graph.links@[j].to_port == graph.links@[k].to_port),
    ensures
        feeds(graph, a, b),
{
    let port = graph.links@[k].to_port;
    lemma_source_at(graph.links@, graph.nodes@[b].id, port, 0, k);
    lemma_find_at(graph.nodes@, graph.nodes@[a].id, 0, a);
    assert(source(graph.links@, graph.nodes@[b].id, port) is Some);
    assert(port < followed_inputs(graph.nodes@[b]));
}

/// Audio that goes into a follower changes its rate on the way; into anything else that
/// takes audio it does not.
pub proof fn law_a_follower_changes_the_rate(graph: Graph, link: Link, a: int)
    requires
        0 <= a < graph.nodes@.len(),
        graph.nodes@[a].id == link.to,
        forall|j: int| 0 <= j < a ==> (#[trigger] graph.nodes@[j]).id != link.to,
    ensures
        graph.nodes@[a].kind is EnvelopeFollower ==> (crosses_rate(graph, link) <==> (
        graph.out_type(link.from, link.from_port) matches Some(ty) && ty is Audio)),
        graph.nodes@[a].kind is AudioOut || graph.nodes@[a].kind is Mix
            || graph.nodes@[a].kind is Gate || graph.nodes@[a].kind is Plugin
            || graph.nodes@[a].kind is DelayWrite ==> !crosses_rate(graph, link),
{
    lemma_find_at(graph.nodes@, link.to, 0, a);
    let outputs = graph.nodes@[a].kind.outputs();
    if graph.nodes@[a].kind is EnvelopeFollower {
        assert(!(outputs[0].ty is Audio));
    }
}

/// A node that lies on a loop runs a sub-block at a time, and every other on whole blocks.
/// Nodes of a lower level run in earlier stages. Within a level what leads to a loop runs
/// before the loop, and what does not after it.
pub proof fn law_loops_run_a_sub_block_at_a_time(
    stages: Seq<Chunking>,
    of: Seq<usize>,
    keys: Seq<int>,
    graph: Graph,
    order: Seq<NodeId>,
    lines: Seq<Line>,
    i: int,
    j: int,
)
    requires
        is_plan(stages, of, keys, graph, order, lines),
        0 <= i < order.len(),
        0 <= j < order.len(),
    ensures
        ({
            let looped = looped_of(graph, order, lines);
            let to_a_loop = reachable(marked(looped), backward_of(graph, order), i);
            let level = level_of(graph, order, lines, i);
            let next = level_of(graph, order, lines, j);
            &&& of[i] < stages.len()
            &&& looped[i] <==> stages[of[i] as int] is SubBlock
            &&& level < next ==> of[i] < of[j]
            &&& level == next && looped[i] && looped[j] ==> of[i] == of[j]
            &&& level == next && !looped[i] && to_a_loop && looped[j] ==> of[i] < of[j]
            &&& level == next && !looped[i] && !to_a_loop && looped[j] ==> of[i] > of[j]
        }),
{
    let looped = looped_of(graph, order, lines);
    assert(of[i] < keys.len() && keys[of[i] as int] == stage_key(graph, order, lines, i));
    assert(of[j] < keys.len() && keys[of[j] as int] == stage_key(graph, order, lines, j));
    let a = of[i] as int;
    let b = of[j] as int;
    assert(stages[a] == chunking_of(keys[a]));
    if looped[j] {
        assert(looped.contains(true)) by {
            assert(looped[j] == true);
        }
    }
    if a < b {
        assert(keys[a] < keys[b]);
    }
    if b < a {
        assert(keys[b] < keys[a]);
    }
}

} // verus!
