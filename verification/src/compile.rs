//! Turns a graph into a program.
//!
//! Finds the nodes that run, puts them in an order where every node comes after
//! the ones it reads, cuts that order into stages, and compiles each of the
//! three halves a stage at a time. A graph that cannot be compiled is an
//! ordinary state for one that is half drawn, so failures are values.
use vstd::prelude::*;
use crate::audio_cx::{draining, instances_sorted, Audio, AudioCx, AudioEnv, AudioModel};
use crate::declare::{declared, lemma_line_from, lemma_unwritten_from, line_at, placed, unwritten_from, DeclareCx, Line};
use crate::emit_audio::moves_head;
use crate::emit_params::line_known;
use crate::error::CompileError;
use crate::graph::{find, ids_fresh, lemma_find_from, Graph, Link, Node};
use crate::lines::distinct_writers;
use crate::ir::{
    AudioStep, Buf, Chunking, LineId, NodeId, NoteOp, Op, Program, Reg, Span, Stage,
    MAX_AUDIO_LANES, MAX_DELAY_LINES, MAX_GRAPH_PARAMS, MAX_REGISTERS, NO_NODE,
};
use crate::nodes::NodeKind;
use crate::note_half::{
    compile_notes, filled_in, heard_of, notes_in_stages, resolve_lanes, spans_of, NoteHalf, Notes,
    ResolvedNotes,
};
use crate::order::{depth_first, is_run_order, on_cycle, run_order, runs};
use crate::param_cx::{
    lemma_names_within, lemma_written_fits, names_within, op_fits, outputs_sorted, reads, reads_follow_writes, writes, written,
    ParamCx, ParamEnv, ParamHalf, ParamModel,
};
use crate::port::PortType;
use crate::program::{rings_of, ProgramModel};
use crate::stages::{plan, Plan};

verus! {

/// The error of the first link from `at` on whose ends do not go together.
pub open spec fn mismatch_from(graph: Graph, at: int) -> Option<CompileError>
    decreases graph.links@.len() - at,
{
    if at >= graph.links@.len() {
        None
    } else {
        let link = graph.links@[at];
        if !graph.joins(link.from, link.from_port, link.to, link.to_port) {
            Some(CompileError::TypeMismatch { node: link.to, port: link.to_port })
        } else {
            mismatch_from(graph, at + 1)
        }
    }
}

/// Every link's two ends must carry the same thing. Nothing that edits a graph
/// makes a link that does not, so this is about graphs from elsewhere.
fn check_links(graph: &Graph) -> (r: Result<(), CompileError>)
    ensures
        match mismatch_from(*graph, 0) {
            Some(error) => r == Err::<(), CompileError>(error),
            None => r is Ok,
        },
{
    let mut at: usize = 0;
    while at < graph.links.len()
        invariant
            at <= graph.links@.len(),
            mismatch_from(*graph, 0) == mismatch_from(*graph, at as int),
        decreases graph.links@.len() - at,
    {
        let link: Link = graph.links[at];
        if !graph.can_connect(link.from, link.from_port, link.to, link.to_port) {
            return Err(CompileError::TypeMismatch { node: link.to, port: link.to_port });
        }
        at += 1;
    }
    Ok(())
}

/// The delay line a node is an end of, and whether it writes it.
pub open spec fn end_of(kind: NodeKind) -> Option<(LineId, PortType, bool)> {
    match kind {
        NodeKind::DelayWrite(node) => Some((node.line, node.ty, true)),
        NodeKind::DelayRead(node) => Some((node.line, node.ty, false)),
        _ => None,
    }
}

/// The delay lines of the first `count` nodes.
pub open spec fn lines_of(nodes: Seq<Node>, count: nat) -> Result<Seq<Line>, CompileError>
    decreases count,
{
    if count == 0 {
        Ok(Seq::empty())
    } else {
        match lines_of(nodes, (count - 1) as nat) {
            Err(error) => Err(error),
            Ok(lines) => match end_of(nodes[count - 1].kind) {
                Some((line, ty, writes)) => declared(lines, nodes[count - 1].id, line, ty, writes),
                None => Ok(lines),
            },
        }
    }
}

proof fn lemma_lines_fail(nodes: Seq<Node>, at: nat, count: nat)
    requires
        lines_of(nodes, at) is Err,
        at <= count,
    ensures
        lines_of(nodes, count) == lines_of(nodes, at),
    decreases count,
{
    if at < count {
        lemma_lines_fail(nodes, at, (count - 1) as nat);
    }
}

/// Whether a line has that id.
spec fn named(lines: Seq<Line>, id: LineId) -> bool {
    exists|j: int| 0 <= j < lines.len() && (#[trigger] lines[j]).id == id
}

/// The ids of those of the first `count` nodes that write a delay line.
pub open spec fn writing(nodes: Seq<Node>, count: nat) -> Seq<NodeId>
    decreases count,
{
    if count == 0 {
        Seq::empty()
    } else if nodes[count - 1].kind is DelayWrite {
        writing(nodes, (count - 1) as nat).push(nodes[count - 1].id)
    } else {
        writing(nodes, (count - 1) as nat)
    }
}

proof fn lemma_placed(lines: Seq<Line>, line: Line)
    ensures
        placed(lines, line).len() == lines.len() + 1,
        forall|id: LineId| #[trigger]
            named(placed(lines, line), id) <==> named(lines, id) || id == line.id,
{
    lemma_unwritten_from(lines, 0);
    let at = unwritten_from(lines, 0);
    let after = placed(lines, line);
    assert(after[at] == line);
    assert forall|id: LineId| #[trigger] named(after, id) <==> named(lines, id) || id
        == line.id by {
        if named(lines, id) {
            let j = choose|j: int| 0 <= j < lines.len() && (#[trigger] lines[j]).id == id;
            assert(lines[j] == after[if j < at {
                j
            } else {
                j + 1
            }]);
        }
        if named(after, id) && id != line.id {
            let j = choose|j: int| 0 <= j < after.len() && (#[trigger] after[j]).id == id;
            assert(after[j] == lines[if j < at {
                j
            } else {
                j - 1
            }]);
        }
    }
}

/// Naming a line keeps those known, and makes it one of them.
proof fn lemma_declared(
    lines: Seq<Line>,
    node: NodeId,
    line: LineId,
    ty: PortType,
    writes: bool,
)
    ensures
        declared(lines, node, line, ty, writes) matches Ok(after) ==> {
            &&& lines.len() <= after.len()
            &&& lines.len() <= MAX_DELAY_LINES ==> after.len() <= MAX_DELAY_LINES
            &&& forall|id: LineId| named(lines, id) ==> #[trigger] named(after, id)
            &&& named(after, line)
        },
{
    lemma_line_from(lines, line, 0);
    if let Ok(after) = declared(lines, node, line, ty, writes) {
        match line_at(lines, line) {
            Some(i) => {
                assert(lines[i].id == line);
                if writes {
                    let rest = lines.remove(i);
                    lemma_placed(rest, Line { writer: node, ..lines[i] });
                    assert forall|id: LineId| named(lines, id) implies #[trigger] named(
                        after,
                        id,
                    ) by {
                        let j = choose|j: int|
                            0 <= j < lines.len() && (#[trigger] lines[j]).id == id;
                        if j < i {
                            assert(rest[j] == lines[j]);
                        } else if j > i {
                            assert(rest[j - 1] == lines[j]);
                        }
                    }
                }
            },
            None => {
                if writes {
                    lemma_placed(lines, Line { id: line, writer: node, ty });
                } else {
                    assert(after[lines.len() as int].id == line);
                    assert forall|id: LineId| named(lines, id) implies #[trigger] named(
                        after,
                        id,
                    ) by {
                        let j = choose|j: int|
                            0 <= j < lines.len() && (#[trigger] lines[j]).id == id;
                        assert(after[j] == lines[j]);
                    }
                }
            },
        }
    }
}

/// The lines a node is an end of are all known, and there is room for them.
proof fn lemma_lines_known(nodes: Seq<Node>, count: nat)
    requires
        count <= nodes.len(),
        lines_of(nodes, count) is Ok,
    ensures
        lines_of(nodes, count)->Ok_0.len() <= MAX_DELAY_LINES,
        forall|i: int|
            0 <= i < count ==> (end_of((#[trigger] nodes[i]).kind) matches Some(end) ==> line_at(
                lines_of(nodes, count)->Ok_0,
                end.0,
            ) is Some),
    decreases count,
{
    if count > 0 {
        lemma_lines_known(nodes, (count - 1) as nat);
        let before = lines_of(nodes, (count - 1) as nat)->Ok_0;
        let after = lines_of(nodes, count)->Ok_0;
        if let Some((line, ty, writes)) = end_of(nodes[count - 1].kind) {
            lemma_declared(before, nodes[count - 1].id, line, ty, writes);
        }
        assert forall|i: int| 0 <= i < count implies (end_of(
            (#[trigger] nodes[i]).kind,
        ) matches Some(end) ==> line_at(after, end.0) is Some) by {
            if let Some(end) = end_of(nodes[i].kind) {
                lemma_line_from(after, end.0, 0);
                lemma_line_from(before, end.0, 0);
                if line_at(before, end.0) is Some {
                    assert(before[line_at(before, end.0)->0].id == end.0);
                    assert(named(before, end.0));
                }
                assert(named(after, end.0));
            }
        }
    }
}

/// Delay lines are numbered in the order their writers appear in the graph. Those
/// that nobody writes come after all the others.
pub proof fn law_lines_are_numbered_by_their_writers(nodes: Seq<Node>, count: nat)
    requires
        count <= nodes.len(),
        forall|i: int| 0 <= i < nodes.len() ==> (#[trigger] nodes[i]).id != NO_NODE,
    ensures
        lines_of(nodes, count) matches Ok(lines) ==> {
            let written = writing(nodes, count);
            &&& written.len() <= lines.len()
            &&& writers_of(lines).take(written.len() as int) == written
            &&& forall|i: int|
                written.len() <= i < lines.len() ==> (#[trigger] lines[i]).writer == NO_NODE
        },
    decreases count,
{
    if count > 0 && lines_of(nodes, count) is Ok {
        law_lines_are_numbered_by_their_writers(nodes, (count - 1) as nat);
        let node = nodes[count - 1];
        let before = lines_of(nodes, (count - 1) as nat)->Ok_0;
        let after = lines_of(nodes, count)->Ok_0;
        let written = writing(nodes, (count - 1) as nat);
        assert forall|i: int| 0 <= i < written.len() implies (#[trigger] before[i]).writer
            == written[i] && written[i] != NO_NODE by {
            assert(writers_of(before).take(written.len() as int)[i] == before[i].writer);
            lemma_writing(nodes, (count - 1) as nat, i);
        }
        if let Some((line, ty, writes)) = end_of(node.kind) {
            lemma_line_from(before, line, 0);
            if writes {
                let rest = match line_at(before, line) {
                    Some(i) => before.remove(i),
                    None => before,
                };
                assert(rest.len() >= written.len());
                assert forall|i: int| 0 <= i < rest.len() implies (#[trigger] rest[i]).writer
                    == if i < written.len() {
                    written[i]
                } else {
                    NO_NODE
                } by {
                    if line_at(before, line) is Some {
                        let k = line_at(before, line)->0;
                        assert(before[k].writer == NO_NODE);
                        assert(k >= written.len());
                        if i < k {
                            assert(rest[i] == before[i]);
                        } else {
                            assert(rest[i] == before[i + 1]);
                        }
                    }
                }
                lemma_unwritten_at(rest, 0, written.len() as int);
                assert(after.len() == rest.len() + 1);
                assert(writers_of(after).take(written.len() as int + 1) =~= written.push(node.id));
            } else {
                assert(writers_of(after).take(written.len() as int) =~= written);
            }
        }
    } else {
        assert(writers_of(Seq::<Line>::empty()).take(0) =~= Seq::<NodeId>::empty());
    }
}

proof fn lemma_writing(nodes: Seq<Node>, count: nat, i: int)
    requires
        count <= nodes.len(),
        0 <= i < writing(nodes, count).len(),
        forall|j: int| 0 <= j < nodes.len() ==> (#[trigger] nodes[j]).id != NO_NODE,
    ensures
        writing(nodes, count)[i] != NO_NODE,
    decreases count,
{
    if i < writing(nodes, (count - 1) as nat).len() {
        lemma_writing(nodes, (count - 1) as nat, i);
    }
}

proof fn lemma_unwritten_at(lines: Seq<Line>, at: int, end: int)
    requires
        0 <= at <= end <= lines.len(),
        forall|i: int| at <= i < end ==> (#[trigger] lines[i]).writer != NO_NODE,
        end < lines.len() ==> lines[end].writer == NO_NODE,
    ensures
        unwritten_from(lines, at) == end,
    decreases end - at,
{
    if at < end {
        lemma_unwritten_at(lines, at + 1, end);
    }
}

/// Finds the delay lines, numbered in the order their writers appear.
fn collect_lines(graph: &Graph) -> (r: Result<Vec<Line>, CompileError>)
    ensures
        match lines_of(graph.nodes@, graph.nodes@.len()) {
            Ok(lines) => r is Ok && r->Ok_0@ == lines,
            Err(error) => r == Err::<Vec<Line>, CompileError>(error),
        },
{
    let mut cx: DeclareCx = DeclareCx::new();
    let mut at: usize = 0;
    while at < graph.nodes.len()
        invariant
            at <= graph.nodes@.len(),
            lines_of(graph.nodes@, at as nat) == Ok::<Seq<Line>, CompileError>(cx.lines@),
        decreases graph.nodes@.len() - at,
    {
        cx.begin(graph.nodes[at].id);
        let told: Result<(), CompileError> = match &graph.nodes[at].kind {
            NodeKind::DelayWrite(node) => cx.declare_line(node.line, node.ty, true),
            NodeKind::DelayRead(node) => cx.declare_line(node.line, node.ty, false),
            _ => Ok(()),
        };
        if let Err(error) = told {
            proof {
                lemma_lines_fail(graph.nodes@, (at + 1) as nat, graph.nodes@.len());
            }
            return Err(error);
        }
        at += 1;
    }
    Ok(cx.finish())
}

pub open spec fn kind_of(graph: Graph, id: NodeId) -> NodeKind {
    graph.nodes@[find(graph.nodes@, id)->0].kind
}

/// A stage's share of the parameter half, from the first `count` nodes of the
/// order.
pub open spec fn params_in_stage(
    model: ParamModel,
    env: ParamEnv,
    graph: Graph,
    order: Seq<NodeId>,
    of: Seq<usize>,
    stage: int,
    count: nat,
) -> Result<ParamModel, CompileError>
    decreases count,
{
    if count == 0 {
        Ok(model)
    } else {
        match params_in_stage(model, env, graph, order, of, stage, (count - 1) as nat) {
            Err(error) => Err(error),
            Ok(before) => if of[count - 1] != stage {
                Ok(before)
            } else {
                let id = order[count - 1];
                before.begun(id).compiled(env, kind_of(graph, id))
            },
        }
    }
}

/// The parameter half of the first `stages` stages.
pub open spec fn params_in_stages(
    env: ParamEnv,
    graph: Graph,
    order: Seq<NodeId>,
    of: Seq<usize>,
    stages: nat,
) -> Result<ParamModel, CompileError>
    decreases stages,
{
    if stages == 0 {
        Ok(ParamModel::empty())
    } else {
        match params_in_stages(env, graph, order, of, (stages - 1) as nat) {
            Err(error) => Err(error),
            Ok(model) => match params_in_stage(
                model,
                env,
                graph,
                order,
                of,
                stages - 1,
                order.len(),
            ) {
                Err(error) => Err(error),
                Ok(next) => Ok(next.closed()),
            },
        }
    }
}

/// A stage's share of the audio half.
pub open spec fn audio_in_stage(
    model: AudioModel,
    env: AudioEnv,
    graph: Graph,
    order: Seq<NodeId>,
    of: Seq<usize>,
    stage: int,
    count: nat,
) -> Result<AudioModel, CompileError>
    decreases count,
{
    if count == 0 {
        Ok(model)
    } else {
        match audio_in_stage(model, env, graph, order, of, stage, (count - 1) as nat) {
            Err(error) => Err(error),
            Ok(before) => if of[count - 1] != stage {
                Ok(before)
            } else {
                let id = order[count - 1];
                before.begun(env, id, kind_of(graph, id)).compiled(env, kind_of(graph, id))
            },
        }
    }
}

/// The audio half of the first `stages` stages.
pub open spec fn audio_in_stages(
    env: AudioEnv,
    graph: Graph,
    order: Seq<NodeId>,
    of: Seq<usize>,
    stages: nat,
) -> Result<AudioModel, CompileError>
    decreases stages,
{
    if stages == 0 {
        Ok(AudioModel::empty())
    } else {
        match audio_in_stages(env, graph, order, of, (stages - 1) as nat) {
            Err(error) => Err(error),
            Ok(model) => match audio_in_stage(
                model,
                env,
                graph,
                order,
                of,
                stages - 1,
                order.len(),
            ) {
                Err(error) => Err(error),
                Ok(next) => Ok(next.closed()),
            },
        }
    }
}

/// The buffer the first follower from `at` on with that node reads.
pub open spec fn follow_from(follows: Seq<(NodeId, Buf)>, node: NodeId, at: int) -> Option<Buf>
    decreases follows.len() - at,
{
    if at >= follows.len() {
        None
    } else if follows[at].0 == node {
        Some(follows[at].1)
    } else {
        follow_from(follows, node, at + 1)
    }
}

/// A reading of a level, told which buffer to read.
pub open spec fn told(op: Op, latch_nodes: Seq<NodeId>, follows: Seq<(NodeId, Buf)>) -> Op {
    match op {
        Op::Follow { out, buf, state, detect, attack, release } => if state < latch_nodes.len() {
            match follow_from(follows, latch_nodes[state as int], 0) {
                Some(found) => Op::Follow { out, buf: found, state, detect, attack, release },
                None => op,
            }
        } else {
            op
        },
        _ => op,
    }
}

pub open spec fn told_all(
    ops: Seq<Op>,
    latch_nodes: Seq<NodeId>,
    follows: Seq<(NodeId, Buf)>,
) -> Seq<Op> {
    Seq::new(ops.len(), |i: int| told(ops[i], latch_nodes, follows))
}

pub open spec fn filled_buf(op: NoteOp) -> u16 {
    match op {
        NoteOp::Input { out, .. } => out,
        NoteOp::Emit { out, .. } => out,
        NoteOp::Filter { out, .. } => out,
    }
}

/// One bit for each buffer that one of the first `count` operations fills.
pub open spec fn bufs_filled(ops: Seq<NoteOp>, count: nat) -> u16
    decreases count,
{
    if count == 0 {
        0
    } else {
        bufs_filled(ops, (count - 1) as nat) | (1u16 << filled_buf(ops[count - 1]))
    }
}

/// The first `count` stages, without those in which nothing happens.
pub open spec fn stages_laid(
    params: Seq<Span>,
    notes: Seq<Span>,
    audio: Seq<Span>,
    note_ops: Seq<NoteOp>,
    chunkings: Seq<Chunking>,
    count: nat,
) -> Seq<Stage>
    decreases count,
{
    if count == 0 {
        Seq::empty()
    } else {
        let s = count - 1;
        let before = stages_laid(params, notes, audio, note_ops, chunkings, (count - 1) as nat);
        if params[s].start >= params[s].end && notes[s].start >= notes[s].end && audio[s].start
            >= audio[s].end {
            before
        } else {
            let filled = notes[s].of(note_ops);
            before.push(
                Stage {
                    params: params[s],
                    notes: notes[s],
                    audio: audio[s],
                    note_bufs: bufs_filled(filled, filled.len()),
                    chunking: chunkings[s],
                },
            )
        }
    }
}

pub open spec fn writers_of(lines: Seq<Line>) -> Seq<NodeId> {
    Seq::new(lines.len(), |i: int| lines[i].writer)
}

/// The program made of the three halves.
pub open spec fn assembled(
    notes: NoteHalf,
    param: ParamModel,
    audio: AudioModel,
    slot_count: usize,
    lines: Seq<Line>,
    chunkings: Seq<Chunking>,
) -> ProgramModel {
    let note_ops = heard_of(
        filled_in(notes.ops, notes.pending, param.audio_lanes, notes.pending.len()),
        notes.pending,
        param.audio_lanes,
        notes.ops.len(),
    );
    let note_spans = spans_of(
        heard_of(notes.stages, notes.pending, param.audio_lanes, notes.ops.len()),
        chunkings.len(),
    );
    ProgramModel {
        ops: told_all(param.ops, param.latch_nodes, audio.follows),
        registers: param.next_reg,
        outputs: outputs_sorted(param.outputs),
        audio_ops: audio.ops,
        note_ops,
        note_bufs: notes.bufs,
        note_streams: notes.streams,
        param_targets: param.param_targets,
        audio_lane_base: (slot_count + MAX_GRAPH_PARAMS) as u16,
        instances: instances_sorted(audio.instances),
        buffers: audio.pool.widths,
        stages: stages_laid(
            param.spans,
            note_spans,
            audio.spans,
            note_ops,
            chunkings,
            chunkings.len(),
        ),
        latency: audio.latency,
        delay_nodes: writers_of(lines),
        audio_delay_nodes: audio.delay_nodes,
        audio_ring_seconds: audio.ring_seconds,
        audio_ring_len: Seq::empty(),
        audio_rings: Seq::empty(),
        lfo_nodes: param.lfo_nodes,
        latch_nodes: param.latch_nodes,
    }
}

pub open spec fn param_env(
    graph: Graph,
    slot_count: usize,
    lines: Seq<Line>,
    notes: NoteHalf,
) -> ParamEnv {
    ParamEnv { links: graph.links@, lines, slot_count, note_outputs: notes.outputs }
}

pub open spec fn audio_env(
    graph: Graph,
    lines: Seq<Line>,
    order: Seq<NodeId>,
    notes: NoteHalf,
    param: ParamModel,
) -> AudioEnv {
    AudioEnv {
        links: graph.links@,
        lines,
        order,
        lanes: param.audio_lanes,
        latch_nodes: param.latch_nodes,
        note_outputs: notes.outputs,
    }
}

/// What a graph comes to, run in a given order and cut into given stages.
pub open spec fn compiled(
    graph: Graph,
    slot_count: usize,
    lines: Seq<Line>,
    order: Seq<NodeId>,
    chunkings: Seq<Chunking>,
    of: Seq<usize>,
) -> Result<ProgramModel, CompileError> {
    let stages = chunkings.len();
    match notes_in_stages(graph, order, of, stages) {
        Err(error) => Err(error),
        Ok(notes) => match params_in_stages(
            param_env(graph, slot_count, lines, notes),
            graph,
            order,
            of,
            stages,
        ) {
            Err(error) => Err(error),
            Ok(param) => match audio_in_stages(
                audio_env(graph, lines, order, notes, param),
                graph,
                order,
                of,
                stages,
            ) {
                Err(error) => Err(error),
                Ok(audio) => Ok(assembled(notes, param, audio, slot_count, lines, chunkings)),
            },
        },
    }
}

proof fn lemma_params_stage_fails(
    model: ParamModel,
    env: ParamEnv,
    graph: Graph,
    order: Seq<NodeId>,
    of: Seq<usize>,
    stage: int,
    at: nat,
    count: nat,
)
    requires
        params_in_stage(model, env, graph, order, of, stage, at) is Err,
        at <= count,
    ensures
        params_in_stage(model, env, graph, order, of, stage, count) == params_in_stage(
            model,
            env,
            graph,
            order,
            of,
            stage,
            at,
        ),
    decreases count,
{
    if at < count {
        lemma_params_stage_fails(model, env, graph, order, of, stage, at, (count - 1) as nat);
    }
}

proof fn lemma_params_fail(
    env: ParamEnv,
    graph: Graph,
    order: Seq<NodeId>,
    of: Seq<usize>,
    at: nat,
    stages: nat,
)
    requires
        params_in_stages(env, graph, order, of, at) is Err,
        at <= stages,
    ensures
        params_in_stages(env, graph, order, of, stages) == params_in_stages(
            env,
            graph,
            order,
            of,
            at,
        ),
    decreases stages,
{
    if at < stages {
        lemma_params_fail(env, graph, order, of, at, (stages - 1) as nat);
    }
}

proof fn lemma_audio_stage_fails(
    model: AudioModel,
    env: AudioEnv,
    graph: Graph,
    order: Seq<NodeId>,
    of: Seq<usize>,
    stage: int,
    at: nat,
    count: nat,
)
    requires
        audio_in_stage(model, env, graph, order, of, stage, at) is Err,
        at <= count,
    ensures
        audio_in_stage(model, env, graph, order, of, stage, count) == audio_in_stage(
            model,
            env,
            graph,
            order,
            of,
            stage,
            at,
        ),
    decreases count,
{
    if at < count {
        lemma_audio_stage_fails(model, env, graph, order, of, stage, at, (count - 1) as nat);
    }
}

proof fn lemma_audio_fails(
    env: AudioEnv,
    graph: Graph,
    order: Seq<NodeId>,
    of: Seq<usize>,
    at: nat,
    stages: nat,
)
    requires
        audio_in_stages(env, graph, order, of, at) is Err,
        at <= stages,
    ensures
        audio_in_stages(env, graph, order, of, stages) == audio_in_stages(
            env,
            graph,
            order,
            of,
            at,
        ),
    decreases stages,
{
    if at < stages {
        lemma_audio_fails(env, graph, order, of, at, (stages - 1) as nat);
    }
}

/// The order names nodes, and the line each is an end of is known.
spec fn known(graph: Graph, order: Seq<NodeId>, lines: Seq<Line>) -> bool {
    forall|k: int|
        0 <= k < order.len() ==> find(graph.nodes@, #[trigger] order[k]) is Some && (end_of(
            kind_of(graph, order[k]),
        ) matches Some(end) ==> line_at(lines, end.0) is Some)
}

/// Compiles the parameter half of one stage.
fn compile_param_stage<'a>(
    cx: &mut ParamCx<'a>,
    graph: &Graph,
    order: &Vec<NodeId>,
    of: &Vec<usize>,
    stage: usize,
) -> (r: Result<(), CompileError>)
    requires
        old(cx)@.wf(),
        old(cx).lanes_fit(),
        of@.len() == order@.len(),
        known(*graph, order@, old(cx).env().lines),
    ensures
        final(cx).env() == old(cx).env(),
        match params_in_stage(
            old(cx)@,
            old(cx).env(),
            *graph,
            order@,
            of@,
            stage as int,
            order@.len(),
        ) {
            Ok(model) => r is Ok && final(cx)@ == model && model.wf() && model.spans
                == old(cx)@.spans,
            Err(error) => r == Err::<(), CompileError>(error),
        },
{
    let ghost before = cx@;
    let ghost env = cx.env();
    let mut at: usize = 0;
    while at < order.len()
        invariant
            at <= order@.len(),
            of@.len() == order@.len(),
            cx@.wf(),
            cx.lanes_fit(),
            env == old(cx).env(),
            cx.env() == env,
            before == old(cx)@,
            cx@.spans == before.spans,
            known(*graph, order@, env.lines),
            params_in_stage(before, env, *graph, order@, of@, stage as int, at as nat) == Ok::<
                ParamModel,
                CompileError,
            >(cx@),
        decreases order@.len() - at,
    {
        if of[at] == stage {
            let id: NodeId = order[at];
            assert(find(graph.nodes@, order@[at as int]) is Some);
            if let Some(node) = graph.node(id) {
                cx.begin(id);
                let ghost begun = cx@;
                assert(line_known(env, node.kind));
                let next: Result<(), CompileError> = cx.compile(&node.kind);
                proof {
                    begun.lemma_compiled_goes_on(env, node.kind);
                }
                if let Err(error) = next {
                    proof {
                        lemma_params_stage_fails(
                            before,
                            env,
                            *graph,
                            order@,
                            of@,
                            stage as int,
                            (at + 1) as nat,
                            order@.len(),
                        );
                    }
                    return Err(error);
                }
            }
        }
        at += 1;
    }
    Ok(())
}

/// Compiles the parameter half.
fn compile_params<'a>(
    cx: &mut ParamCx<'a>,
    graph: &Graph,
    order: &Vec<NodeId>,
    of: &Vec<usize>,
    stages: usize,
) -> (r: Result<(), CompileError>)
    requires
        old(cx)@ == ParamModel::empty(),
        old(cx)@.wf(),
        old(cx).lanes_fit(),
        of@.len() == order@.len(),
        known(*graph, order@, old(cx).env().lines),
    ensures
        final(cx).env() == old(cx).env(),
        match params_in_stages(old(cx).env(), *graph, order@, of@, stages as nat) {
            Ok(model) => r is Ok && final(cx)@ == model && model.wf() && model.spans.len()
                == stages,
            Err(error) => r == Err::<(), CompileError>(error),
        },
{
    let ghost env = cx.env();
    let mut stage: usize = 0;
    while stage < stages
        invariant
            stage <= stages,
            of@.len() == order@.len(),
            cx@.wf(),
            cx.lanes_fit(),
            env == old(cx).env(),
            cx.env() == env,
            cx@.spans.len() == stage,
            known(*graph, order@, env.lines),
            params_in_stages(env, *graph, order@, of@, stage as nat) == Ok::<
                ParamModel,
                CompileError,
            >(cx@),
        decreases stages - stage,
    {
        if let Err(error) = compile_param_stage(cx, graph, order, of, stage) {
            proof {
                lemma_params_fail(
                    env,
                    *graph,
                    order@,
                    of@,
                    (stage + 1) as nat,
                    stages as nat,
                );
            }
            return Err(error);
        }
        cx.close_stage();
        stage += 1;
    }
    Ok(())
}

/// Compiles the audio half of one stage.
fn compile_audio_stage<'a>(
    cx: &mut AudioCx<'a>,
    graph: &Graph,
    order: &Vec<NodeId>,
    of: &Vec<usize>,
    stage: usize,
) -> (r: Result<(), CompileError>)
    requires
        old(cx)@.wf(),
        old(cx).env().names_notes(),
        of@.len() == order@.len(),
        known(*graph, order@, old(cx).env().lines),
    ensures
        final(cx).env() == old(cx).env(),
        match audio_in_stage(
            old(cx)@,
            old(cx).env(),
            *graph,
            order@,
            of@,
            stage as int,
            order@.len(),
        ) {
            Ok(model) => r is Ok && final(cx)@ == model && model.wf() && model.spans
                == old(cx)@.spans,
            Err(error) => r == Err::<(), CompileError>(error),
        },
{
    let ghost before = cx@;
    let ghost env = cx.env();
    let mut at: usize = 0;
    while at < order.len()
        invariant
            at <= order@.len(),
            of@.len() == order@.len(),
            cx@.wf(),
            env.names_notes(),
            env == old(cx).env(),
            cx.env() == env,
            before == old(cx)@,
            cx@.spans == before.spans,
            known(*graph, order@, env.lines),
            audio_in_stage(before, env, *graph, order@, of@, stage as int, at as nat) == Ok::<
                AudioModel,
                CompileError,
            >(cx@),
        decreases order@.len() - at,
    {
        if of[at] == stage {
            let id: NodeId = order[at];
            assert(find(graph.nodes@, order@[at as int]) is Some);
            if let Some(node) = graph.node(id) {
                cx.begin(id, &node.kind);
                let ghost begun = cx@;
                let next: Result<(), CompileError> = cx.compile(&node.kind);
                proof {
                    begun.lemma_compiled_goes_on(env, node.kind);
                }
                if let Err(error) = next {
                    proof {
                        lemma_audio_stage_fails(
                            before,
                            env,
                            *graph,
                            order@,
                            of@,
                            stage as int,
                            (at + 1) as nat,
                            order@.len(),
                        );
                    }
                    return Err(error);
                }
            }
        }
        at += 1;
    }
    Ok(())
}

/// Compiles the audio half.
fn compile_audio<'a>(
    cx: &mut AudioCx<'a>,
    graph: &Graph,
    order: &Vec<NodeId>,
    of: &Vec<usize>,
    stages: usize,
) -> (r: Result<(), CompileError>)
    requires
        old(cx)@ == AudioModel::empty(),
        old(cx)@.wf(),
        old(cx).env().names_notes(),
        of@.len() == order@.len(),
        known(*graph, order@, old(cx).env().lines),
    ensures
        final(cx).env() == old(cx).env(),
        match audio_in_stages(old(cx).env(), *graph, order@, of@, stages as nat) {
            Ok(model) => r is Ok && final(cx)@ == model && model.wf() && model.spans.len()
                == stages,
            Err(error) => r == Err::<(), CompileError>(error),
        },
{
    let ghost env = cx.env();
    let mut stage: usize = 0;
    while stage < stages
        invariant
            stage <= stages,
            of@.len() == order@.len(),
            cx@.wf(),
            env.names_notes(),
            env == old(cx).env(),
            cx.env() == env,
            cx@.spans.len() == stage,
            known(*graph, order@, env.lines),
            audio_in_stages(env, *graph, order@, of@, stage as nat) == Ok::<
                AudioModel,
                CompileError,
            >(cx@),
        decreases stages - stage,
    {
        if let Err(error) = compile_audio_stage(cx, graph, order, of, stage) {
            proof {
                lemma_audio_fails(
                    env,
                    *graph,
                    order@,
                    of@,
                    (stage + 1) as nat,
                    stages as nat,
                );
            }
            return Err(error);
        }
        cx.close_stage();
        stage += 1;
    }
    Ok(())
}

fn find_follow(follows: &Vec<(NodeId, Buf)>, node: NodeId) -> (r: Option<Buf>)
    ensures
        r == follow_from(follows@, node, 0),
{
    let mut at: usize = 0;
    while at < follows.len()
        invariant
            at <= follows@.len(),
            follow_from(follows@, node, 0) == follow_from(follows@, node, at as int),
        decreases follows@.len() - at,
    {
        if follows[at].0 == node {
            return Some(follows[at].1);
        }
        at += 1;
    }
    None
}

/// Tells every reading of a level which buffer to read, once that is laid out.
fn tell_follows(
    ops: &Vec<Op>,
    latch_nodes: &Vec<NodeId>,
    follows: &Vec<(NodeId, Buf)>,
) -> (r: Vec<Op>)
    ensures
        r@ == told_all(ops@, latch_nodes@, follows@),
{
    let mut list: Vec<Op> = Vec::new();
    let mut at: usize = 0;
    while at < ops.len()
        invariant
            at <= ops@.len(),
            list@ == told_all(ops@, latch_nodes@, follows@).take(at as int),
        decreases ops@.len() - at,
    {
        let op: Op = ops[at];
        let next: Op = match op {
            Op::Follow { out, state, detect, attack, release, .. } => if (state as usize)
                < latch_nodes.len() {
                match find_follow(follows, latch_nodes[state as usize]) {
                    Some(buf) => Op::Follow { out, buf, state, detect, attack, release },
                    None => op,
                }
            } else {
                op
            },
            _ => op,
        };
        list.push(next);
        at += 1;
    }
    list
}

/// Which buffers a stage's note operations fill.
fn fill_mask(ops: &Vec<NoteOp>, span: Span) -> (r: u16)
    requires
        span.fits(ops@.len()),
        forall|i: int| 0 <= i < ops@.len() ==> filled_buf(#[trigger] ops@[i]) < 16,
    ensures
        r == bufs_filled(span.of(ops@), span.of(ops@).len()),
{
    let ghost run = span.of(ops@);
    let mut mask: u16 = 0;
    let mut at: usize = span.start as usize;
    while at < span.end as usize
        invariant
            span.fits(ops@.len()),
            span.start <= at <= span.end,
            run == span.of(ops@),
            mask == bufs_filled(run, (at - span.start) as nat),
            forall|i: int| 0 <= i < ops@.len() ==> filled_buf(#[trigger] ops@[i]) < 16,
        decreases span.end - at,
    {
        let out: u16 = match ops[at] {
            NoteOp::Input { out, .. } => out,
            NoteOp::Emit { out, .. } => out,
            NoteOp::Filter { out, .. } => out,
        };
        assert(run[at - span.start] == ops@[at as int]);
        mask = mask | (1u16 << out);
        at += 1;
    }
    mask
}

/// Lays the stages out, dropping those in which nothing happens.
fn lay_stages(
    params: &Vec<Span>,
    notes: &Vec<Span>,
    audio: &Vec<Span>,
    note_ops: &Vec<NoteOp>,
    chunkings: &Vec<Chunking>,
) -> (r: Vec<Stage>)
    requires
        params@.len() == chunkings@.len(),
        notes@.len() == chunkings@.len(),
        audio@.len() == chunkings@.len(),
        forall|s: int| 0 <= s < notes@.len() ==> (#[trigger] notes@[s]).fits(note_ops@.len()),
        forall|i: int| 0 <= i < note_ops@.len() ==> filled_buf(#[trigger] note_ops@[i]) < 16,
    ensures
        r@ == stages_laid(
            params@,
            notes@,
            audio@,
            note_ops@,
            chunkings@,
            chunkings@.len(),
        ),
{
    let mut list: Vec<Stage> = Vec::new();
    let mut at: usize = 0;
    while at < chunkings.len()
        invariant
            at <= chunkings@.len(),
            params@.len() == chunkings@.len(),
            notes@.len() == chunkings@.len(),
            audio@.len() == chunkings@.len(),
            forall|s: int| 0 <= s < notes@.len() ==> (#[trigger] notes@[s]).fits(note_ops@.len()),
            forall|i: int| 0 <= i < note_ops@.len() ==> filled_buf(#[trigger] note_ops@[i]) < 16,
            list@ == stages_laid(params@, notes@, audio@, note_ops@, chunkings@, at as nat),
        decreases chunkings@.len() - at,
    {
        if !(params[at].is_empty() && notes[at].is_empty() && audio[at].is_empty()) {
            list.push(
                Stage {
                    params: params[at],
                    notes: notes[at],
                    audio: audio[at],
                    note_bufs: fill_mask(note_ops, notes[at]),
                    chunking: chunkings[at],
                },
            );
        }
        at += 1;
    }
    list
}

fn list_writers(lines: &Vec<Line>) -> (r: Vec<NodeId>)
    ensures
        r@ == writers_of(lines@),
{
    let mut list: Vec<NodeId> = Vec::new();
    let mut at: usize = 0;
    while at < lines.len()
        invariant
            at <= lines@.len(),
            list@ == writers_of(lines@).take(at as int),
        decreases lines@.len() - at,
    {
        list.push(lines[at].writer);
        at += 1;
    }
    list
}

/// What a graph with those delay lines comes to, run in an order and cut into
/// stages. There is one way to cut it.
pub open spec fn outcome(
    graph: Graph,
    slot_count: usize,
    lines: Seq<Line>,
    order: Seq<NodeId>,
    plan: Plan,
    r: Result<ProgramModel, CompileError>,
) -> bool {
    &&& plan.cuts_up(graph, order, lines)
    &&& r == compiled(graph, slot_count, lines, order, plan.stages@, plan.of@)
}

/// What compiling a graph gives. A link whose ends disagree is found first, then
/// a delay line that makes no sense, then a loop, and last whatever there is no
/// room for. The nodes are compiled in the order a depth-first walk from the sinks
/// meets them in, in which everything follows what feeds it.
pub open spec fn compiles_to(
    graph: Graph,
    slot_count: usize,
    r: Result<ProgramModel, CompileError>,
) -> bool {
    match mismatch_from(graph, 0) {
        Some(error) => r == Err::<ProgramModel, CompileError>(error),
        None => match lines_of(graph.nodes@, graph.nodes@.len()) {
            Err(error) => r == Err::<ProgramModel, CompileError>(error),
            Ok(lines) => match depth_first(graph) {
                Err(error) => r == Err::<ProgramModel, CompileError>(error) && exists|x: int|
                    #[trigger] runs(graph, x) && on_cycle(graph, x) && error == (
                    CompileError::Cycle { node: graph.nodes@[x].id }),
                Ok(order) => is_run_order(graph, order) && exists|plan: Plan| #[trigger]
                    outcome(graph, slot_count, lines, order, plan, r),
            },
        },
    }
}

pub open spec fn modelled(r: Result<Program, CompileError>) -> Result<ProgramModel, CompileError> {
    match r {
        Ok(program) => Ok(program@),
        Err(error) => Err(error),
    }
}

/// Within a run of operations nothing but writes to delay lines follows a write
/// to a delay line.
pub open spec fn writes_end(ops: Seq<Op>, span: Span) -> bool {
    forall|i: int, j: int|
        span.start <= i <= j < span.end && #[trigger] ops[i] is DelayWrite ==> #[trigger] ops[j]
            is DelayWrite
}

/// Within a run of audio operations nothing but moves of heads follows the move
/// of a delay line's head.
pub open spec fn heads_move_last(ops: Seq<AudioStep>, span: Span) -> bool {
    forall|i: int, j: int|
        span.start <= i <= j < span.end && moves_head(#[trigger] ops[i]) ==> moves_head(
            #[trigger] ops[j],
        )
}

proof fn lemma_params_stage_goes_on(
    model: ParamModel,
    env: ParamEnv,
    graph: Graph,
    order: Seq<NodeId>,
    of: Seq<usize>,
    stage: int,
    count: nat,
)
    ensures
        params_in_stage(model, env, graph, order, of, stage, count) matches Ok(next)
            ==> model.goes_on_to(next),
    decreases count,
{
    if count > 0 {
        lemma_params_stage_goes_on(model, env, graph, order, of, stage, (count - 1) as nat);
        if let Ok(before) = params_in_stage(
            model,
            env,
            graph,
            order,
            of,
            stage,
            (count - 1) as nat,
        ) {
            let id = order[count - 1];
            before.begun(id).lemma_compiled_goes_on(env, kind_of(graph, id));
        }
    }
}

proof fn lemma_audio_stage_goes_on(
    model: AudioModel,
    env: AudioEnv,
    graph: Graph,
    order: Seq<NodeId>,
    of: Seq<usize>,
    stage: int,
    count: nat,
)
    ensures
        audio_in_stage(model, env, graph, order, of, stage, count) matches Ok(next)
            ==> model.goes_on_to(next),
    decreases count,
{
    if count > 0 {
        lemma_audio_stage_goes_on(model, env, graph, order, of, stage, (count - 1) as nat);
        if let Ok(before) = audio_in_stage(
            model,
            env,
            graph,
            order,
            of,
            stage,
            (count - 1) as nat,
        ) {
            let id = order[count - 1];
            before.begun(env, id, kind_of(graph, id)).lemma_compiled_goes_on(
                env,
                kind_of(graph, id),
            );
        }
    }
}

proof fn lemma_params_write_last(
    env: ParamEnv,
    graph: Graph,
    order: Seq<NodeId>,
    of: Seq<usize>,
    stages: nat,
)
    ensures
        params_in_stages(env, graph, order, of, stages) matches Ok(model) ==> model.ops.len()
            <= u32::MAX ==> {
            &&& model.spans.len() == stages
            &&& model.stage_start() == model.ops.len()
            &&& model.deferred.len() == 0
            &&& forall|k: int|
                0 <= k < stages ==> (#[trigger] model.spans[k]).end <= model.ops.len()
                    && writes_end(model.ops, model.spans[k])
        },
    decreases stages,
{
    if stages > 0 {
        lemma_params_write_last(env, graph, order, of, (stages - 1) as nat);
        if let Ok(model) = params_in_stages(env, graph, order, of, (stages - 1) as nat) {
            lemma_params_stage_goes_on(model, env, graph, order, of, stages - 1, order.len());
            if let Ok(next) = params_in_stage(
                model,
                env,
                graph,
                order,
                of,
                stages - 1,
                order.len(),
            ) {
                let closed = next.closed();
                if closed.ops.len() <= u32::MAX {
                    assert(model.writes_wait());
                    assert(next.writes_wait());
                    assert forall|k: int| 0 <= k < stages implies (
                    #[trigger] closed.spans[k]).end <= closed.ops.len() && writes_end(
                        closed.ops,
                        closed.spans[k],
                    ) by {
                        if k < stages - 1 {
                            assert(closed.spans[k] == model.spans[k]);
                            assert(forall|i: int|
                                0 <= i < model.ops.len() ==> #[trigger] closed.ops[i]
                                    == model.ops[i]);
                        }
                    }
                }
            }
        }
    }
}

proof fn lemma_draining_moves(ops: Seq<AudioStep>, from: int, to: int)
    ensures
        forall|i: int|
            0 <= i < draining(ops, from, to).len() ==> moves_head(
                #[trigger] draining(ops, from, to)[i],
            ),
    decreases to - from,
{
    if from < to {
        lemma_draining_moves(ops, from, to - 1);
        let before = draining(ops, from, to - 1);
        let list = draining(ops, from, to);
        assert forall|i: int| 0 <= i < list.len() implies moves_head(#[trigger] list[i]) by {
            if i < before.len() {
                assert(list[i] == before[i]);
            } else {
                assert(list[i] is DelaySilence);
            }
        }
    }
}

proof fn lemma_audio_writes_last(
    env: AudioEnv,
    graph: Graph,
    order: Seq<NodeId>,
    of: Seq<usize>,
    stages: nat,
)
    ensures
        audio_in_stages(env, graph, order, of, stages) matches Ok(model) ==> model.ops.len()
            <= u32::MAX ==> {
            &&& model.spans.len() == stages
            &&& model.stage_start() == model.ops.len()
            &&& model.deferred.len() == 0
            &&& forall|k: int|
                0 <= k < stages ==> (#[trigger] model.spans[k]).end <= model.ops.len()
                    && heads_move_last(model.ops, model.spans[k])
        },
    decreases stages,
{
    if stages > 0 {
        lemma_audio_writes_last(env, graph, order, of, (stages - 1) as nat);
        if let Ok(model) = audio_in_stages(env, graph, order, of, (stages - 1) as nat) {
            lemma_audio_stage_goes_on(model, env, graph, order, of, stages - 1, order.len());
            if let Ok(next) = audio_in_stage(
                model,
                env,
                graph,
                order,
                of,
                stages - 1,
                order.len(),
            ) {
                let closed = next.closed();
                let held = next.ops + next.deferred;
                lemma_draining_moves(
                    held,
                    next.settled_lines as int,
                    next.audio_lines.len() as int,
                );
                if closed.ops.len() <= u32::MAX {
                    assert(model.writes_wait());
                    assert(next.writes_wait());
                    assert forall|k: int| 0 <= k < stages implies (
                    #[trigger] closed.spans[k]).end <= closed.ops.len() && heads_move_last(
                        closed.ops,
                        closed.spans[k],
                    ) by {
                        if k < stages - 1 {
                            assert(closed.spans[k] == model.spans[k]);
                            assert(forall|i: int|
                                0 <= i < model.ops.len() ==> #[trigger] closed.ops[i]
                                    == model.ops[i]);
                        }
                    }
                }
            }
        }
    }
}

proof fn lemma_stage_from(
    params: Seq<Span>,
    notes: Seq<Span>,
    audio: Seq<Span>,
    note_ops: Seq<NoteOp>,
    chunkings: Seq<Chunking>,
    count: nat,
    k: int,
)
    requires
        0 <= k < stages_laid(params, notes, audio, note_ops, chunkings, count).len(),
    ensures
        ({
            let stage = stages_laid(params, notes, audio, note_ops, chunkings, count)[k];
            exists|s: int|
                0 <= s < count && stage.params == #[trigger] params[s] && stage.audio == audio[s]
        }),
    decreases count,
{
    if count > 0 {
        let before = stages_laid(params, notes, audio, note_ops, chunkings, (count - 1) as nat);
        if k < before.len() {
            lemma_stage_from(params, notes, audio, note_ops, chunkings, (count - 1) as nat, k);
            let stage = before[k];
            let s = choose|s: int|
                0 <= s < count - 1 && stage.params == #[trigger] params[s] && stage.audio
                    == audio[s];
            assert(stage.params == params[s]);
        } else {
            assert(stages_laid(params, notes, audio, note_ops, chunkings, count)[k].params
                == params[count - 1]);
        }
    }
}

/// In every stage the delay lines are written last, so a reading of a line always
/// means what had been written when the stage began.
pub proof fn law_delay_lines_are_written_last(
    graph: Graph,
    slot_count: usize,
    program: ProgramModel,
    k: int,
)
    requires
        compiles_to(graph, slot_count, Ok(program)),
        program.ops.len() <= u32::MAX,
        program.audio_ops.len() <= u32::MAX,
        0 <= k < program.stages.len(),
    ensures
        writes_end(program.ops, program.stages[k].params),
        heads_move_last(program.audio_ops, program.stages[k].audio),
{
    let lines = lines_of(graph.nodes@, graph.nodes@.len())->Ok_0;
    let order = depth_first(graph)->Ok_0;
    let plan = choose|plan: Plan| #[trigger]
        outcome(graph, slot_count, lines, order, plan, Ok(program));
    let of = plan.of@;
    let stages = plan.stages@.len();
    let notes = notes_in_stages(graph, order, of, stages)->Ok_0;
    let env = param_env(graph, slot_count, lines, notes);
    let param = params_in_stages(env, graph, order, of, stages)->Ok_0;
    let sounds = audio_env(graph, lines, order, notes, param);
    let audio = audio_in_stages(sounds, graph, order, of, stages)->Ok_0;
    assert(program == assembled(notes, param, audio, slot_count, lines, plan.stages@));
    lemma_params_write_last(env, graph, order, of, stages);
    lemma_audio_writes_last(sounds, graph, order, of, stages);
    let note_ops = program.note_ops;
    let note_spans = spans_of(
        heard_of(notes.stages, notes.pending, param.audio_lanes, notes.ops.len()),
        plan.stages@.len(),
    );
    lemma_stage_from(
        param.spans,
        note_spans,
        audio.spans,
        note_ops,
        plan.stages@,
        plan.stages@.len(),
        k,
    );
    let s = choose|s: int|
        0 <= s < stages && program.stages[k].params == #[trigger] param.spans[s]
            && program.stages[k].audio == audio.spans[s];
    assert(writes_end(param.ops, param.spans[s]));
    assert(heads_move_last(audio.ops, audio.spans[s]));
    assert forall|i: int| 0 <= i < param.ops.len() implies (#[trigger] program.ops[i] is DelayWrite)
        == (param.ops[i] is DelayWrite) by {}
}

proof fn lemma_audio_stage_paired(
    model: AudioModel,
    env: AudioEnv,
    graph: Graph,
    order: Seq<NodeId>,
    of: Seq<usize>,
    stage: int,
    count: nat,
)
    requires
        model.lines_paired(env.lines),
    ensures
        audio_in_stage(model, env, graph, order, of, stage, count) matches Ok(next)
            ==> next.lines_paired(env.lines),
    decreases count,
{
    if count > 0 {
        lemma_audio_stage_paired(model, env, graph, order, of, stage, (count - 1) as nat);
        if let Ok(before) = audio_in_stage(
            model,
            env,
            graph,
            order,
            of,
            stage,
            (count - 1) as nat,
        ) {
            if of[count - 1] == stage {
                let kind = kind_of(graph, order[count - 1]);
                before.begun(env, order[count - 1], kind).lemma_compiled_paired(env, kind);
            }
        }
    }
}

proof fn lemma_audio_paired(
    env: AudioEnv,
    graph: Graph,
    order: Seq<NodeId>,
    of: Seq<usize>,
    stages: nat,
)
    ensures
        audio_in_stages(env, graph, order, of, stages) matches Ok(next) ==> next.lines_paired(
            env.lines,
        ),
    decreases stages,
{
    if stages > 0 {
        lemma_audio_paired(env, graph, order, of, (stages - 1) as nat);
        if let Ok(model) = audio_in_stages(env, graph, order, of, (stages - 1) as nat) {
            lemma_audio_stage_paired(model, env, graph, order, of, stages - 1, order.len());
        }
    }
}

proof fn lemma_writing_differ(nodes: Seq<Node>, next_id: NodeId, count: nat)
    requires
        ids_fresh(nodes, next_id),
        count <= nodes.len(),
    ensures
        writing(nodes, count).no_duplicates(),
        forall|i: int|
            0 <= i < writing(nodes, count).len() ==> exists|j: int|
                0 <= j < count && (#[trigger] nodes[j]).id == #[trigger] writing(nodes, count)[i],
    decreases count,
{
    if count > 0 {
        lemma_writing_differ(nodes, next_id, (count - 1) as nat);
        let before = writing(nodes, (count - 1) as nat);
        let after = writing(nodes, count);
        assert forall|i: int| 0 <= i < after.len() implies exists|j: int|
            0 <= j < count && (#[trigger] nodes[j]).id == #[trigger] after[i] by {
            if i < before.len() {
                assert(after[i] == before[i]);
                let j = choose|j: int| 0 <= j < count - 1 && (#[trigger] nodes[j]).id == before[i];
                assert(nodes[j].id == after[i]);
            } else {
                assert(nodes[count - 1].id == after[i]);
            }
        }
        assert forall|i: int, j: int| 0 <= i < j < after.len() implies after[i] != after[j] by {
            let k = choose|k: int| 0 <= k < count - 1 && (#[trigger] nodes[k]).id == before[i];
            assert(before[i] == after[i]);
            if j == before.len() {
                assert(nodes[k].id != nodes[count - 1].id);
            }
        }
    }
}

/// In a program each node writes one delay line at most, so that the line is found
/// again by its writer when the program changes.
pub proof fn law_no_node_writes_two_lines(graph: Graph, slot_count: usize, program: ProgramModel)
    requires
        compiles_to(graph, slot_count, Ok(program)),
        ids_fresh(graph.nodes@, graph.next_id),
    ensures
        distinct_writers(program.delay_nodes),
        distinct_writers(program.audio_delay_nodes),
{
    let nodes = graph.nodes@;
    let lines = lines_of(nodes, nodes.len())->Ok_0;
    let order = depth_first(graph)->Ok_0;
    let plan = choose|plan: Plan| #[trigger]
        outcome(graph, slot_count, lines, order, plan, Ok(program));
    let of = plan.of@;
    let stages = plan.stages@.len();
    let notes = notes_in_stages(graph, order, of, stages)->Ok_0;
    let env = param_env(graph, slot_count, lines, notes);
    let param = params_in_stages(env, graph, order, of, stages)->Ok_0;
    let sounds = audio_env(graph, lines, order, notes, param);
    let audio = audio_in_stages(sounds, graph, order, of, stages)->Ok_0;
    assert(program == assembled(notes, param, audio, slot_count, lines, plan.stages@));
    law_lines_are_numbered_by_their_writers(nodes, nodes.len());
    lemma_writing_differ(nodes, graph.next_id, nodes.len());
    let written = writing(nodes, nodes.len());
    let writers = writers_of(lines);
    assert forall|i: int, j: int|
        0 <= i < j < writers.len() && writers[i] != NO_NODE implies #[trigger] writers[i]
        != #[trigger] writers[j] by {
        assert(lines[i].writer == writers[i] && lines[j].writer == writers[j]);
        assert(i < written.len());
        assert(writers.take(written.len() as int)[i] == writers[i]);
        if j < written.len() {
            assert(writers.take(written.len() as int)[j] == writers[j]);
        }
    }
    lemma_audio_paired(sounds, graph, order, of, stages);
    let found = audio.delay_nodes;
    assert forall|i: int, j: int|
        0 <= i < j < found.len() && found[i] != NO_NODE implies #[trigger] found[i]
        != #[trigger] found[j] by {
        let a = line_at(lines, audio.audio_lines[i]);
        let b = line_at(lines, audio.audio_lines[j]);
        lemma_line_from(lines, audio.audio_lines[i], 0);
        lemma_line_from(lines, audio.audio_lines[j], 0);
        assert(audio.audio_lines[i] != audio.audio_lines[j]);
        assert(writers[a->0] == found[i]);
        if b is Some {
            assert(writers[b->0] == found[j]);
        }
    }
}

/// Compiles a graph for a host with `slot_count` automation slots.
pub fn compile(graph: &Graph, slot_count: usize) -> (r: Result<Program, CompileError>)
    requires
        graph.nodes@.len() < usize::MAX,
        slot_count + MAX_GRAPH_PARAMS + MAX_AUDIO_LANES <= usize::MAX,
    ensures
        compiles_to(*graph, slot_count, modelled(r)),
        r matches Ok(program) ==> (program.ops@.len() <= u32::MAX && program.audio_ops@.len()
            <= u32::MAX ==> program@.fits()),
        r matches Ok(program) ==> reads_follow_writes(program.ops@),
        r matches Ok(program) ==> names_within(program.ops@, program.registers),
        r matches Ok(program) ==> forall|i: int|
            0 <= i < program.outputs@.len() ==> (#[trigger] program.outputs@[i]).1
                < program.registers,
{
    check_links(graph)?;
    let lines: Vec<Line> = collect_lines(graph)?;
    let order: Vec<NodeId> = run_order(graph)?;
    proof {
        lemma_order_short(*graph, order@);
        lemma_lines_known(graph.nodes@, graph.nodes@.len());
        lemma_known(*graph, order@, lines@);
    }
    let cut: Plan = plan(graph, order.as_slice(), lines.as_slice());
    let stages: usize = cut.stages.len();
    let notes: Notes = match compile_notes(graph, order.as_slice(), &cut) {
        Ok(notes) => notes,
        Err(error) => {
            assert(outcome(
                *graph,
                slot_count,
                lines@,
                order@,
                cut,
                Err::<ProgramModel, CompileError>(error),
            ));
            return Err(error);
        },
    };
    let mut param_cx: ParamCx = ParamCx::new(graph, &lines, slot_count, &notes);
    assert(param_cx.env() == param_env(*graph, slot_count, lines@, notes@));
    if let Err(error) = compile_params(&mut param_cx, graph, &order, &cut.of, stages) {
        assert(outcome(
            *graph,
            slot_count,
            lines@,
            order@,
            cut,
            Err::<ProgramModel, CompileError>(error),
        ));
        return Err(error);
    }
    let ghost params = param_cx@;
    let param: ParamHalf = param_cx.finish();
    let resolved: ResolvedNotes = resolve_lanes(&notes, stages, &param.audio_lanes);
    let mut audio_cx: AudioCx = AudioCx::new(
        graph,
        &lines,
        &order,
        &param.audio_lanes,
        &param.latch_nodes,
        &notes,
    );
    assert(audio_cx.env() == audio_env(*graph, lines@, order@, notes@, params));
    if let Err(error) = compile_audio(&mut audio_cx, graph, &order, &cut.of, stages) {
        assert(outcome(
            *graph,
            slot_count,
            lines@,
            order@,
            cut,
            Err::<ProgramModel, CompileError>(error),
        ));
        return Err(error);
    }
    let ghost sound = audio_cx@;
    let audio: Audio = audio_cx.finish();
    proof {
        assert forall|i: int| 0 <= i < resolved.ops@.len() implies filled_buf(
            #[trigger] resolved.ops@[i],
        ) < 16 by {
            assert(crate::note_state::note_op_fits(resolved.ops@[i]));
        }
    }
    let laid: Vec<Stage> = lay_stages(
        &param.spans,
        &resolved.spans,
        &audio.spans,
        &resolved.ops,
        &cut.stages,
    );
    let ops: Vec<Op> = tell_follows(&param.ops, &param.latch_nodes, &audio.follows);
    let writers: Vec<NodeId> = list_writers(&lines);
    let program: Program = Program {
        ops,
        registers: param.registers,
        outputs: param.outputs,
        audio_ops: audio.ops,
        note_ops: resolved.ops,
        note_bufs: notes.bufs,
        note_streams: notes.streams,
        param_targets: param.param_targets,
        audio_lane_base: #[verifier::truncate] ((slot_count + MAX_GRAPH_PARAMS) as u16),
        instances: audio.instances,
        buffers: audio.buffers,
        stages: laid,
        latency: audio.latency,
        delay_nodes: writers,
        audio_delay_nodes: audio.delay_nodes,
        audio_ring_seconds: audio.ring_seconds,
        audio_ring_len: Vec::new(),
        audio_rings: Vec::new(),
        lfo_nodes: param.lfo_nodes,
        latch_nodes: param.latch_nodes,
    };
    proof {
        let whole = assembled(notes@, params, sound, slot_count, lines@, cut.stages@);
        assert(rings_of(program.audio_rings@) =~= Seq::empty());
        assert(program@ =~= whole);
        assert(outcome(
            *graph,
            slot_count,
            lines@,
            order@,
            cut,
            Ok::<ProgramModel, CompileError>(program@),
        ));
        lemma_told_reads(params.ops, params.latch_nodes, sound.follows);
        assert forall|k: int| 0 <= k < program.ops@.len() implies (writes(
            #[trigger] program.ops@[k],
        ) matches Some(out) ==> out < program.registers) by {
            assert(params.ops[k] == param.ops@[k]);
            lemma_told_fits(params.ops[k], params.latch_nodes, sound.follows);
        }
        lemma_names_within(program.ops@, program.registers);
        assert forall|i: int| 0 <= i < program.outputs@.len() implies (
        #[trigger] program.outputs@[i]).1 < program.registers by {
            let reg = program.outputs@[i].1;
            assert(written(params.ops, reg));
            let j = choose|j: int|
                0 <= j < params.ops.len() && #[trigger] writes(params.ops[j]) == Some(reg);
            assert(params.ops[j] == params.ops[j]);
        }
        if program.ops@.len() <= u32::MAX && program.audio_ops@.len() <= u32::MAX {
            lemma_stages_fit(
                params.spans,
                resolved.spans@,
                sound.spans,
                program.note_ops@,
                cut.stages@,
                cut.stages@.len(),
                params.ops.len(),
                sound.ops.len(),
            );
            assert forall|i: int| 0 <= i < program@.ops.len() implies op_fits(
                #[trigger] program@.ops[i],
            ) by {
                assert(op_fits(params.ops[i]));
                lemma_told_fits(params.ops[i], params.latch_nodes, sound.follows);
            }
            assert forall|i: int| 0 <= i < program@.outputs.len() implies (
            #[trigger] program@.outputs[i]).1 < MAX_REGISTERS by {
                lemma_written_fits(params.ops, program@.outputs[i].1);
            }
        }
    }
    Ok(program)
}

/// No node stands in the order twice, so it is no longer than the list of nodes.
proof fn lemma_order_short(graph: Graph, order: Seq<NodeId>)
    requires
        is_run_order(graph, order),
    ensures
        order.len() <= graph.nodes@.len(),
        order.no_duplicates(),
        forall|k: int| 0 <= k < order.len() ==> find(graph.nodes@, #[trigger] order[k]) is Some,
{
    let ids = Seq::new(graph.nodes@.len(), |i: int| graph.nodes@[i].id);
    order.unique_seq_to_set();
    ids.lemma_cardinality_of_set();
    assert forall|id: NodeId| order.to_set().contains(id) implies ids.to_set().contains(id) by {
        let k = choose|k: int| 0 <= k < order.len() && order[k] == id;
        assert(find(graph.nodes@, order[k]) is Some);
        lemma_find_from(graph.nodes@, id, 0);
        assert(ids[find(graph.nodes@, id)->0] == id);
    }
    vstd::set_lib::lemma_len_subset(order.to_set(), ids.to_set());
}

proof fn lemma_known(graph: Graph, order: Seq<NodeId>, lines: Seq<Line>)
    requires
        lines_of(graph.nodes@, graph.nodes@.len()) == Ok::<Seq<Line>, CompileError>(lines),
        forall|k: int| 0 <= k < order.len() ==> find(graph.nodes@, #[trigger] order[k]) is Some,
    ensures
        known(graph, order, lines),
{
    lemma_lines_known(graph.nodes@, graph.nodes@.len());
    assert forall|k: int| 0 <= k < order.len() implies find(
        graph.nodes@,
        #[trigger] order[k],
    ) is Some && (end_of(kind_of(graph, order[k])) matches Some(end) ==> line_at(
        lines,
        end.0,
    ) is Some) by {
        lemma_find_from(graph.nodes@, order[k], 0);
        assert(graph.nodes@[find(graph.nodes@, order[k])->0].id == order[k]);
    }
}

/// Being told which buffer to read changes nothing about the registers.
proof fn lemma_told_fits(op: Op, latch_nodes: Seq<NodeId>, follows: Seq<(NodeId, Buf)>)
    ensures
        op_fits(op) ==> op_fits(told(op, latch_nodes, follows)),
        writes(told(op, latch_nodes, follows)) == writes(op),
        forall|reg: Reg| #[trigger]
            reads(told(op, latch_nodes, follows), reg) == reads(op, reg),
{
}

proof fn lemma_told_reads(ops: Seq<Op>, latch_nodes: Seq<NodeId>, follows: Seq<(NodeId, Buf)>)
    requires
        reads_follow_writes(ops),
    ensures
        reads_follow_writes(told_all(ops, latch_nodes, follows)),
{
    let list = told_all(ops, latch_nodes, follows);
    assert forall|k: int, reg: Reg| 0 <= k < list.len() && #[trigger] reads(
        list[k],
        reg,
    ) implies written(list.take(k), reg) by {
        lemma_told_fits(ops[k], latch_nodes, follows);
        assert(reads(ops[k], reg));
        assert(written(ops.take(k), reg));
        let j = choose|j: int|
            0 <= j < ops.take(k).len() && #[trigger] writes(ops.take(k)[j]) == Some(reg);
        lemma_told_fits(ops[j], latch_nodes, follows);
        assert(list.take(k)[j] == told(ops[j], latch_nodes, follows));
        assert(writes(list.take(k)[j]) == Some(reg));
    }
}

proof fn lemma_stages_fit(
    params: Seq<Span>,
    notes: Seq<Span>,
    audio: Seq<Span>,
    note_ops: Seq<NoteOp>,
    chunkings: Seq<Chunking>,
    count: nat,
    ops: nat,
    audio_ops: nat,
)
    requires
        count <= params.len(),
        count <= notes.len(),
        count <= audio.len(),
        forall|s: int| 0 <= s < params.len() ==> (#[trigger] params[s]).fits(ops),
        forall|s: int| 0 <= s < notes.len() ==> (#[trigger] notes[s]).fits(note_ops.len()),
        forall|s: int| 0 <= s < audio.len() ==> (#[trigger] audio[s]).fits(audio_ops),
    ensures
        forall|i: int|
            0 <= i < stages_laid(params, notes, audio, note_ops, chunkings, count).len() ==> {
                let stage = #[trigger] stages_laid(
                    params,
                    notes,
                    audio,
                    note_ops,
                    chunkings,
                    count,
                )[i];
                stage.params.fits(ops) && stage.notes.fits(note_ops.len()) && stage.audio.fits(
                    audio_ops,
                )
            },
    decreases count,
{
    if count > 0 {
        lemma_stages_fit(
            params,
            notes,
            audio,
            note_ops,
            chunkings,
            (count - 1) as nat,
            ops,
            audio_ops,
        );
    }
}

} // verus!
