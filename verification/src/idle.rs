//! What feeds nothing costs nothing: nodes that lie unconnected in a graph leave
//! the program as it would be without them.
use vstd::prelude::*;
use crate::audio_cx::{AudioEnv, AudioModel};
use crate::compile::{
    audio_env, audio_in_stage, audio_in_stages, compiled, compiles_to, end_of, kind_of, lines_of,
    mismatch_from, outcome, param_env, params_in_stage, params_in_stages,
};
use crate::declare::Line;
use crate::error::CompileError;
use crate::graph::{find, lemma_find_from, lemma_source_from, source, Graph, Link, Node};
use crate::ir::{Chunking, NodeId};
use crate::note_half::{notes_in_stage, notes_in_stages, NoteHalf};
use crate::order::{
    depth_first, followed_inputs, inputs_visited, is_run_order, is_sink, lemma_off_path, off_path,
    sinks_visited, visited,
};
use crate::param_cx::{ParamEnv, ParamModel};
use crate::program::ProgramModel;
use crate::stages::{
    backward_of, crosses_rate, cuts_of, forward_of, ins, is_closed, is_end, is_key, is_plan,
    law_there_is_one_plan, loop_ends, looped_of, outs, reads_line, stage_key, Plan,
};

verus! {

/// The nodes that are not among the idle ones.
pub open spec fn busy(idle: Set<NodeId>) -> spec_fn(Node) -> bool {
    |node: Node| !idle.contains(node.id)
}

/// Nothing is wired to an idle node, and nothing about it makes it run: it hands
/// something on, is not marked to run regardless, and is no end of a delay line.
pub open spec fn lie_idle(graph: Graph, idle: Set<NodeId>) -> bool {
    &&& forall|i: int|
        0 <= i < graph.nodes@.len() && idle.contains((#[trigger] graph.nodes@[i]).id)
            ==> !is_sink(graph.nodes@[i]) && end_of(graph.nodes@[i].kind) is None
    &&& forall|l: int|
        0 <= l < graph.links@.len() ==> !idle.contains((#[trigger] graph.links@[l]).from)
            && !idle.contains(graph.links@[l].to)
}

/// Whether the smaller graph is the larger one without its idle nodes.
pub open spec fn without_idle(larger: Graph, idle: Set<NodeId>, graph: Graph) -> bool {
    &&& lie_idle(larger, idle)
    &&& graph.links@ == larger.links@
    &&& graph.nodes@ == larger.nodes@.filter(busy(idle))
}

/// The node with an id.
spec fn named(nodes: Seq<Node>, id: NodeId) -> Option<Node> {
    match find(nodes, id) {
        Some(i) => Some(nodes[i]),
        None => None,
    }
}

proof fn lemma_named_last(nodes: Seq<Node>, id: NodeId)
    requires
        nodes.len() > 0,
    ensures
        named(nodes, id) == match named(nodes.drop_last(), id) {
            Some(node) => Some(node),
            None => if nodes.last().id == id {
                Some(nodes.last())
            } else {
                None
            },
        },
{
    let front = nodes.drop_last();
    lemma_find_from(nodes, id, 0);
    lemma_find_from(front, id, 0);
    match find(front, id) {
        Some(i) => {
            assert(nodes[i].id == id);
            let j = find(nodes, id)->0;
            if j < i {
                assert(front[j].id == id);
            }
            if i < j {
                assert(nodes[i].id != id);
            }
        },
        None => {
            if let Some(j) = find(nodes, id) {
                if j < front.len() {
                    assert(front[j].id == id);
                }
            }
        },
    }
}

proof fn lemma_named(nodes: Seq<Node>, idle: Set<NodeId>, id: NodeId)
    requires
        !idle.contains(id),
    ensures
        named(nodes.filter(busy(idle)), id) == named(nodes, id),
    decreases nodes.len(),
{
    reveal(Seq::filter);
    if nodes.len() > 0 {
        let front = nodes.drop_last();
        lemma_named(front, idle, id);
        lemma_named_last(nodes, id);
        if busy(idle)(nodes.last()) {
            let kept = nodes.filter(busy(idle));
            lemma_named_last(kept, id);
            assert(kept.drop_last() =~= front.filter(busy(idle)));
        }
    }
}

/// The node with an id that is not idle is the same in both.
proof fn lemma_same_node(larger: Graph, idle: Set<NodeId>, graph: Graph, id: NodeId)
    requires
        without_idle(larger, idle, graph),
        !idle.contains(id),
    ensures
        find(graph.nodes@, id) is Some <==> find(larger.nodes@, id) is Some,
        find(graph.nodes@, id) matches Some(i) ==> graph.nodes@[i] == larger.nodes@[find(
            larger.nodes@,
            id,
        )->0] && graph.nodes@[i].id == id,
        kind_of(graph, id) == kind_of(larger, id) || find(graph.nodes@, id) is None,
{
    lemma_named(larger.nodes@, idle, id);
    lemma_find_from(graph.nodes@, id, 0);
}

proof fn lemma_is_busy(larger: Graph, idle: Set<NodeId>, graph: Graph, id: NodeId)
    requires
        without_idle(larger, idle, graph),
        find(graph.nodes@, id) is Some,
    ensures
        !idle.contains(id),
{
    broadcast use vstd::seq_lib::group_filter_ensures;

    lemma_find_from(graph.nodes@, id, 0);
    let i = find(graph.nodes@, id)->0;
    assert(busy(idle)(larger.nodes@.filter(busy(idle))[i]));
}

proof fn lemma_same_mismatch(larger: Graph, idle: Set<NodeId>, graph: Graph, at: int)
    requires
        without_idle(larger, idle, graph),
        0 <= at,
    ensures
        mismatch_from(graph, at) == mismatch_from(larger, at),
    decreases graph.links@.len() - at,
{
    if at < graph.links@.len() {
        let link = larger.links@[at];
        lemma_same_node(larger, idle, graph, link.from);
        lemma_same_node(larger, idle, graph, link.to);
        lemma_same_mismatch(larger, idle, graph, at + 1);
    }
}

/// What is kept of the first nodes is what comes first of what is kept.
proof fn lemma_kept(nodes: Seq<Node>, keep: spec_fn(Node) -> bool, at: int)
    requires
        0 <= at < nodes.len(),
    ensures
        ({
            let count = nodes.take(at).filter(keep).len();
            &&& nodes.take(at + 1).filter(keep).len() == count + if keep(nodes[at]) {
                1nat
            } else {
                0nat
            }
            &&& keep(nodes[at]) ==> count < nodes.filter(keep).len() && nodes.filter(keep)[count as int]
                == nodes[at]
        }),
    decreases nodes.len(),
{
    reveal(Seq::filter);
    assert(nodes.take(at + 1).drop_last() =~= nodes.take(at));
    assert(nodes.take(at + 1).last() == nodes[at]);
    let front = nodes.drop_last();
    if at < front.len() {
        lemma_kept(front, keep, at);
        assert(front.take(at) =~= nodes.take(at));
    } else {
        assert(nodes.take(at) =~= front);
    }
}

proof fn lemma_same_lines(larger: Graph, idle: Set<NodeId>, graph: Graph, at: nat)
    requires
        without_idle(larger, idle, graph),
        at <= larger.nodes@.len(),
    ensures
        lines_of(larger.nodes@, at) == lines_of(
            graph.nodes@,
            larger.nodes@.take(at as int).filter(busy(idle)).len(),
        ),
    decreases at,
{
    reveal(Seq::filter);
    if at > 0 {
        lemma_same_lines(larger, idle, graph, (at - 1) as nat);
        lemma_kept(larger.nodes@, busy(idle), at - 1);
        let node = larger.nodes@[at - 1];
        assert(busy(idle)(node) == !idle.contains(node.id));
    }
}

proof fn lemma_same_visit(
    larger: Graph,
    idle: Set<NodeId>,
    graph: Graph,
    id: NodeId,
    path: Set<NodeId>,
    order: Seq<NodeId>,
)
    requires
        without_idle(larger, idle, graph),
        !idle.contains(id),
    ensures
        visited(graph, id, path, order) == visited(larger, id, path, order),
    decreases off_path(larger.nodes@, path), 0nat,
{
    lemma_same_node(larger, idle, graph, id);
    if find(larger.nodes@, id) is Some && !order.contains(id) && !path.contains(id) {
        let at = find(larger.nodes@, id)->0;
        lemma_find_from(larger.nodes@, id, 0);
        lemma_off_path(larger.nodes@, path, id);
        assert(larger.nodes@[at].id == id);
        lemma_same_inputs(
            larger,
            idle,
            graph,
            id,
            followed_inputs(larger.nodes@[at]),
            path.insert(id),
            order,
        );
    }
}

proof fn lemma_same_inputs(
    larger: Graph,
    idle: Set<NodeId>,
    graph: Graph,
    id: NodeId,
    count: nat,
    path: Set<NodeId>,
    order: Seq<NodeId>,
)
    requires
        without_idle(larger, idle, graph),
    ensures
        inputs_visited(graph, id, count, path, order) == inputs_visited(
            larger,
            id,
            count,
            path,
            order,
        ),
    decreases off_path(larger.nodes@, path), count,
{
    if count > 0 {
        lemma_same_inputs(larger, idle, graph, id, (count - 1) as nat, path, order);
        if let Ok(before) = inputs_visited(larger, id, (count - 1) as nat, path, order) {
            let port = (count - 1) as u8;
            lemma_source_from(larger.links@, id, port, 0);
            if let Some((from, from_port)) = source(larger.links@, id, port) {
                let i = choose|i: int|
                    0 <= i < larger.links@.len() && #[trigger] larger.links@[i] == (Link {
                        from,
                        from_port,
                        to: id,
                        to_port: port,
                    });
                assert(!idle.contains(larger.links@[i].from));
                lemma_same_visit(larger, idle, graph, from, path, before);
            }
        }
    }
}

proof fn lemma_same_sinks(larger: Graph, idle: Set<NodeId>, graph: Graph, at: nat)
    requires
        without_idle(larger, idle, graph),
        at <= larger.nodes@.len(),
    ensures
        sinks_visited(larger, at) == sinks_visited(
            graph,
            larger.nodes@.take(at as int).filter(busy(idle)).len(),
        ),
    decreases at,
{
    reveal(Seq::filter);
    if at > 0 {
        lemma_same_sinks(larger, idle, graph, (at - 1) as nat);
        lemma_kept(larger.nodes@, busy(idle), at - 1);
        let node = larger.nodes@[at - 1];
        assert(busy(idle)(node) == !idle.contains(node.id));
        if let Ok(order) = sinks_visited(larger, (at - 1) as nat) {
            if !idle.contains(node.id) {
                lemma_same_visit(larger, idle, graph, node.id, Set::empty(), order);
            }
        }
    }
}

/// No node of the order is idle.
spec fn all_busy(order: Seq<NodeId>, idle: Set<NodeId>) -> bool {
    forall|k: int| 0 <= k < order.len() ==> !idle.contains(#[trigger] order[k])
}

proof fn lemma_same_outs(
    larger: Graph,
    idle: Set<NodeId>,
    graph: Graph,
    order: Seq<NodeId>,
    node: int,
    count: nat,
)
    requires
        without_idle(larger, idle, graph),
        count <= graph.links@.len(),
    ensures
        outs(graph, order, node, count) == outs(larger, order, node, count),
        ins(graph, order, node, count) == ins(larger, order, node, count),
    decreases count,
{
    if count > 0 {
        lemma_same_outs(larger, idle, graph, order, node, (count - 1) as nat);
        let link = larger.links@[count - 1];
        lemma_same_node(larger, idle, graph, link.from);
        lemma_same_node(larger, idle, graph, link.to);
        assert(crosses_rate(graph, link) == crosses_rate(larger, link));
    }
}

proof fn lemma_same_ends(
    larger: Graph,
    idle: Set<NodeId>,
    graph: Graph,
    order: Seq<NodeId>,
    lines: Seq<Line>,
)
    requires
        without_idle(larger, idle, graph),
        all_busy(order, idle),
    ensures
        loop_ends(graph, order, lines) == loop_ends(larger, order, lines),
{
    assert forall|line: Line, i: int| 0 <= i < order.len() implies #[trigger] reads_line(
        graph,
        order,
        line.id,
        i,
    ) == reads_line(larger, order, line.id, i) by {
        lemma_same_node(larger, idle, graph, order[i]);
    }
    assert forall|line: Line| #[trigger] is_closed(graph, order, line) == is_closed(
        larger,
        order,
        line,
    ) by {
        if is_closed(graph, order, line) {
            let i = choose|i: int|
                0 <= i < order.len() && #[trigger] reads_line(graph, order, line.id, i);
            assert(reads_line(larger, order, line.id, i));
        }
        if is_closed(larger, order, line) {
            let i = choose|i: int|
                0 <= i < order.len() && #[trigger] reads_line(larger, order, line.id, i);
            assert(reads_line(graph, order, line.id, i));
        }
    }
    assert forall|i: int| loop_ends(graph, order, lines).contains(i) == loop_ends(
        larger,
        order,
        lines,
    ).contains(i) by {
        assert forall|l: int| 0 <= l < lines.len() implies is_closed(
            graph,
            order,
            #[trigger] lines[l],
        ) == is_closed(larger, order, lines[l]) && is_end(graph, order, lines[l], i) == is_end(
            larger,
            order,
            lines[l],
            i,
        ) by {
            if 0 <= i < order.len() {
                assert(reads_line(graph, order, lines[l].id, i) == reads_line(
                    larger,
                    order,
                    lines[l].id,
                    i,
                ));
            }
        }
    }
    assert(loop_ends(graph, order, lines) =~= loop_ends(larger, order, lines));
}

proof fn lemma_same_plan(
    larger: Graph,
    idle: Set<NodeId>,
    graph: Graph,
    order: Seq<NodeId>,
    lines: Seq<Line>,
    plan: Plan,
)
    requires
        without_idle(larger, idle, graph),
        all_busy(order, idle),
        plan.cuts_up(larger, order, lines),
    ensures
        plan.cuts_up(graph, order, lines),
{
    assert forall|a: int| outs(graph, order, a, graph.links@.len()) == outs(
        larger,
        order,
        a,
        larger.links@.len(),
    ) && ins(graph, order, a, graph.links@.len()) == ins(
        larger,
        order,
        a,
        larger.links@.len(),
    ) by {
        lemma_same_outs(larger, idle, graph, order, a, graph.links@.len());
    }
    assert(forward_of(graph, order) =~= forward_of(larger, order));
    assert(cuts_of(graph, order) =~= cuts_of(larger, order));
    assert(backward_of(graph, order) =~= backward_of(larger, order));
    lemma_same_ends(larger, idle, graph, order, lines);
    assert(looped_of(graph, order, lines) =~= looped_of(larger, order, lines));
    assert forall|i: int| #[trigger] stage_key(graph, order, lines, i) == stage_key(
        larger,
        order,
        lines,
        i,
    ) by {}
    let keys = choose|keys: Seq<int>|
        is_plan(plan.stages@, plan.of@, keys, larger, order, lines);
    assert forall|s: int| 0 <= s < keys.len() implies is_key(
        graph,
        order,
        lines,
        #[trigger] keys[s],
    ) by {
        assert(is_key(larger, order, lines, keys[s]));
        let i = choose|i: int|
            0 <= i < order.len() && #[trigger] stage_key(larger, order, lines, i) == keys[s];
        assert(stage_key(graph, order, lines, i) == keys[s]);
    }
    assert(is_plan(plan.stages@, plan.of@, keys, graph, order, lines));
}

/// Every node of the order is one of the graph's.
spec fn all_found(graph: Graph, order: Seq<NodeId>) -> bool {
    forall|k: int| 0 <= k < order.len() ==> find(graph.nodes@, #[trigger] order[k]) is Some
}

proof fn lemma_same_notes(
    larger: Graph,
    idle: Set<NodeId>,
    graph: Graph,
    half: NoteHalf,
    order: Seq<NodeId>,
    of: Seq<usize>,
    stage: int,
    count: nat,
)
    requires
        without_idle(larger, idle, graph),
        all_busy(order, idle),
        all_found(graph, order),
        count <= order.len(),
    ensures
        notes_in_stage(half, graph, order, of, stage, count) == notes_in_stage(
            half,
            larger,
            order,
            of,
            stage,
            count,
        ),
    decreases count,
{
    if count > 0 {
        lemma_same_notes(larger, idle, graph, half, order, of, stage, (count - 1) as nat);
        assert(find(graph.nodes@, order[count - 1]) is Some);
        lemma_same_node(larger, idle, graph, order[count - 1]);
    }
}

proof fn lemma_same_note_half(
    larger: Graph,
    idle: Set<NodeId>,
    graph: Graph,
    order: Seq<NodeId>,
    of: Seq<usize>,
    stages: nat,
)
    requires
        without_idle(larger, idle, graph),
        all_busy(order, idle),
        all_found(graph, order),
    ensures
        notes_in_stages(graph, order, of, stages) == notes_in_stages(larger, order, of, stages),
    decreases stages,
{
    if stages > 0 {
        lemma_same_note_half(larger, idle, graph, order, of, (stages - 1) as nat);
        if let Ok(half) = notes_in_stages(larger, order, of, (stages - 1) as nat) {
            lemma_same_notes(larger, idle, graph, half, order, of, stages - 1, order.len());
        }
    }
}

proof fn lemma_same_params(
    larger: Graph,
    idle: Set<NodeId>,
    graph: Graph,
    model: ParamModel,
    env: ParamEnv,
    order: Seq<NodeId>,
    of: Seq<usize>,
    stage: int,
    count: nat,
)
    requires
        without_idle(larger, idle, graph),
        all_busy(order, idle),
        all_found(graph, order),
        count <= order.len(),
    ensures
        params_in_stage(model, env, graph, order, of, stage, count) == params_in_stage(
            model,
            env,
            larger,
            order,
            of,
            stage,
            count,
        ),
    decreases count,
{
    if count > 0 {
        lemma_same_params(larger, idle, graph, model, env, order, of, stage, (count - 1) as nat);
        assert(find(graph.nodes@, order[count - 1]) is Some);
        lemma_same_node(larger, idle, graph, order[count - 1]);
    }
}

proof fn lemma_same_param_half(
    larger: Graph,
    idle: Set<NodeId>,
    graph: Graph,
    env: ParamEnv,
    order: Seq<NodeId>,
    of: Seq<usize>,
    stages: nat,
)
    requires
        without_idle(larger, idle, graph),
        all_busy(order, idle),
        all_found(graph, order),
    ensures
        params_in_stages(env, graph, order, of, stages) == params_in_stages(
            env,
            larger,
            order,
            of,
            stages,
        ),
    decreases stages,
{
    if stages > 0 {
        lemma_same_param_half(larger, idle, graph, env, order, of, (stages - 1) as nat);
        if let Ok(model) = params_in_stages(env, larger, order, of, (stages - 1) as nat) {
            lemma_same_params(
                larger,
                idle,
                graph,
                model,
                env,
                order,
                of,
                stages - 1,
                order.len(),
            );
        }
    }
}

proof fn lemma_same_audio(
    larger: Graph,
    idle: Set<NodeId>,
    graph: Graph,
    model: AudioModel,
    env: AudioEnv,
    order: Seq<NodeId>,
    of: Seq<usize>,
    stage: int,
    count: nat,
)
    requires
        without_idle(larger, idle, graph),
        all_busy(order, idle),
        all_found(graph, order),
        count <= order.len(),
    ensures
        audio_in_stage(model, env, graph, order, of, stage, count) == audio_in_stage(
            model,
            env,
            larger,
            order,
            of,
            stage,
            count,
        ),
    decreases count,
{
    if count > 0 {
        lemma_same_audio(larger, idle, graph, model, env, order, of, stage, (count - 1) as nat);
        assert(find(graph.nodes@, order[count - 1]) is Some);
        lemma_same_node(larger, idle, graph, order[count - 1]);
    }
}

proof fn lemma_same_audio_half(
    larger: Graph,
    idle: Set<NodeId>,
    graph: Graph,
    env: AudioEnv,
    order: Seq<NodeId>,
    of: Seq<usize>,
    stages: nat,
)
    requires
        without_idle(larger, idle, graph),
        all_busy(order, idle),
        all_found(graph, order),
    ensures
        audio_in_stages(env, graph, order, of, stages) == audio_in_stages(
            env,
            larger,
            order,
            of,
            stages,
        ),
    decreases stages,
{
    if stages > 0 {
        lemma_same_audio_half(larger, idle, graph, env, order, of, (stages - 1) as nat);
        if let Ok(model) = audio_in_stages(env, larger, order, of, (stages - 1) as nat) {
            lemma_same_audio(
                larger,
                idle,
                graph,
                model,
                env,
                order,
                of,
                stages - 1,
                order.len(),
            );
        }
    }
}

proof fn lemma_same_program(
    larger: Graph,
    idle: Set<NodeId>,
    graph: Graph,
    slot_count: usize,
    lines: Seq<Line>,
    order: Seq<NodeId>,
    chunkings: Seq<Chunking>,
    of: Seq<usize>,
)
    requires
        without_idle(larger, idle, graph),
        all_busy(order, idle),
        all_found(graph, order),
    ensures
        compiled(graph, slot_count, lines, order, chunkings, of) == compiled(
            larger,
            slot_count,
            lines,
            order,
            chunkings,
            of,
        ),
{
    let stages = chunkings.len();
    lemma_same_note_half(larger, idle, graph, order, of, stages);
    if let Ok(notes) = notes_in_stages(larger, order, of, stages) {
        let env = param_env(larger, slot_count, lines, notes);
        lemma_same_param_half(larger, idle, graph, env, order, of, stages);
        if let Ok(param) = params_in_stages(env, larger, order, of, stages) {
            let sounds = audio_env(larger, lines, order, notes, param);
            lemma_same_audio_half(larger, idle, graph, sounds, order, of, stages);
        }
    }
}

/// What feeds no output is not compiled: a graph with idle nodes in it, wherever
/// they stand in its list, compiles to what it compiles to without them, or fails
/// as it fails without them. Without any idle node this says that a graph compiles
/// to one thing only.
pub proof fn law_idle_nodes_cost_nothing(
    larger: Graph,
    idle: Set<NodeId>,
    graph: Graph,
    slot_count: usize,
    with: Result<ProgramModel, CompileError>,
    without: Result<ProgramModel, CompileError>,
)
    requires
        without_idle(larger, idle, graph),
        compiles_to(larger, slot_count, with),
        compiles_to(graph, slot_count, without),
    ensures
        with == without,
{
    lemma_same_mismatch(larger, idle, graph, 0);
    lemma_same_lines(larger, idle, graph, larger.nodes@.len());
    lemma_same_sinks(larger, idle, graph, larger.nodes@.len());
    assert(larger.nodes@.take(larger.nodes@.len() as int) =~= larger.nodes@);
    assert(depth_first(larger) == depth_first(graph));
    if mismatch_from(graph, 0) is None && lines_of(graph.nodes@, graph.nodes@.len()) is Ok
        && depth_first(graph) is Ok {
        let lines = lines_of(graph.nodes@, graph.nodes@.len())->Ok_0;
        let order = depth_first(graph)->Ok_0;
        assert(is_run_order(graph, order));
        assert forall|k: int| 0 <= k < order.len() implies !idle.contains(#[trigger] order[k])
            && find(graph.nodes@, order[k]) is Some by {
            lemma_is_busy(larger, idle, graph, order[k]);
        }
        let a = choose|plan: Plan| #[trigger]
            outcome(larger, slot_count, lines, order, plan, with);
        let b = choose|plan: Plan| #[trigger]
            outcome(graph, slot_count, lines, order, plan, without);
        lemma_same_plan(larger, idle, graph, order, lines, a);
        law_there_is_one_plan(graph, order, lines, a, b);
        lemma_same_program(
            larger,
            idle,
            graph,
            slot_count,
            lines,
            order,
            a.stages@,
            a.of@,
        );
    }
}

} // verus!
