//! How late a program is: what the plugins on the way of a signal add up to.
use vstd::prelude::*;
use crate::arrivals::{
    counts_to, law_a_plugin_adds_its_latency, leaves, left_on, lemma_mix_leaves,
    lemma_plugin_leaves,
};
use crate::audio_cx::{audio_sources, fed_by, produced_from, AudioEnv, AudioModel, Produced};
use crate::compile::{
    assembled, audio_env, audio_in_stage, audio_in_stages, compiles_to, kind_of, lines_of,
    mismatch_from, outcome, param_env, params_in_stages,
};
use crate::declare::Line;
use crate::emit_audio::socket_count;
use crate::error::CompileError;
use crate::graph::{
    find, lemma_find_from, lemma_source_from, one_source_each, source, Graph, Link, Node,
};
use crate::ir::{Chunking, NodeId};
use crate::nodes::{NodeKind, Plugin};
use crate::note_half::{notes_in_stages, reader_count};
use crate::order::{
    depth_first, feeds, followed_inputs, is_run_order, law_links_lead_forwards, runs, serves,
    stands_before,
};
use crate::port::Socket;
use crate::program::ProgramModel;
use crate::stages::{
    ends_of, index_of, is_plan, is_topological, law_links_lead_to_later_stages, lemma_index_from,
    loop_ends, looped_of, no_cut_on_loops, reachable, reached, Plan,
};

verus! {

/// What a node itself makes a signal late by.
pub open spec fn own_latency(kind: NodeKind) -> int {
    match kind {
        NodeKind::Plugin(node) => node.ports.latency as int,
        _ => 0,
    }
}

/// Links that a signal follows from one node to the next, into an output of the program.
pub open spec fn leads_out(graph: Graph, path: Seq<Link>) -> bool {
    &&& path.len() > 0
    &&& forall|k: int| 0 <= k < path.len() ==> graph.links@.contains(#[trigger] path[k])
    &&& forall|k: int|
        0 <= k < path.len() ==> (graph.in_type(
            (#[trigger] path[k]).to,
            path[k].to_port,
        ) matches Some(ty) && ty is Audio)
    &&& forall|k: int| 0 < k < path.len() ==> (#[trigger] path[k]).from == path[k - 1].to
    &&& kind_of(graph, path.last().to) is AudioOut
}

/// What the nodes that the first `count` links leave from add up to.
pub open spec fn latency_along(graph: Graph, path: Seq<Link>, count: nat) -> int
    decreases count,
{
    if count == 0 {
        0
    } else {
        latency_along(graph, path, (count - 1) as nat) + own_latency(
            kind_of(graph, path[count - 1].from),
        )
    }
}

/// The audio sockets among the first `count`.
spec fn audio_before(inputs: Seq<Socket>, count: nat) -> nat
    decreases count,
{
    if count == 0 {
        0
    } else {
        audio_before(inputs, (count - 1) as nat) + if inputs[count - 1].ty is Audio {
            1nat
        } else {
            0
        }
    }
}

proof fn lemma_sources_len(
    links: Seq<Link>,
    produced: Seq<Produced>,
    id: NodeId,
    inputs: Seq<Socket>,
    count: nat,
)
    ensures
        audio_sources(links, produced, id, inputs, count).len() == audio_before(inputs, count),
    decreases count,
{
    if count > 0 {
        lemma_sources_len(links, produced, id, inputs, (count - 1) as nat);
    }
}

proof fn lemma_source_at(
    links: Seq<Link>,
    produced: Seq<Produced>,
    id: NodeId,
    inputs: Seq<Socket>,
    count: nat,
    p: int,
)
    requires
        0 <= p < count,
        p < 256,
        inputs[p].ty is Audio,
    ensures
        audio_before(inputs, p as nat) < audio_sources(links, produced, id, inputs, count).len(),
        audio_sources(links, produced, id, inputs, count)[audio_before(inputs, p as nat) as int]
            == fed_by(links, produced, id, p as u8),
    decreases count,
{
    lemma_sources_len(links, produced, id, inputs, count);
    lemma_sources_len(links, produced, id, inputs, (count - 1) as nat);
    if p < count - 1 {
        lemma_source_at(links, produced, id, inputs, (count - 1) as nat, p);
    }
}

/// What is wired to audio input number `j` came in by some audio socket.
proof fn lemma_source_from_socket(
    links: Seq<Link>,
    produced: Seq<Produced>,
    id: NodeId,
    inputs: Seq<Socket>,
    count: nat,
    j: int,
)
    requires
        0 <= j < audio_sources(links, produced, id, inputs, count).len(),
        audio_sources(links, produced, id, inputs, count)[j] is Some,
    ensures
        exists|p: int|
            0 <= p < count && p < 256 && (#[trigger] inputs[p]).ty is Audio && audio_sources(
                links,
                produced,
                id,
                inputs,
                count,
            )[j] == fed_by(links, produced, id, p as u8),
    decreases count,
{
    if count > 0 {
        let before = audio_sources(links, produced, id, inputs, (count - 1) as nat);
        if j < before.len() {
            lemma_source_from_socket(links, produced, id, inputs, (count - 1) as nat, j);
            let p = choose|p: int|
                0 <= p < count - 1 && p < 256 && (#[trigger] inputs[p]).ty is Audio && before[j]
                    == fed_by(links, produced, id, p as u8);
            assert(inputs[p].ty is Audio);
        } else {
            assert(inputs[count - 1].ty is Audio);
        }
    }
}

proof fn lemma_plugin_sockets(node: Plugin, count: nat)
    requires
        count <= NodeKind::Plugin(node).inputs().len(),
    ensures
        count <= node.ports.audio_in@.len() ==> audio_before(
            NodeKind::Plugin(node).inputs(),
            count,
        ) == count,
        count >= node.ports.audio_in@.len() ==> audio_before(
            NodeKind::Plugin(node).inputs(),
            count,
        ) == node.ports.audio_in@.len(),
        forall|p: int|
            0 <= p < NodeKind::Plugin(node).inputs().len() ==> ((
            #[trigger] NodeKind::Plugin(node).inputs()[p]).ty is Audio <==> p
                < node.ports.audio_in@.len()),
    decreases count,
{
    if count > 0 {
        lemma_plugin_sockets(node, (count - 1) as nat);
    }
}

proof fn lemma_mix_sockets(kind: NodeKind, count: nat)
    requires
        kind is Mix,
        count <= kind.inputs().len(),
    ensures
        audio_before(kind.inputs(), count) == (count + 1) / 2,
    decreases count,
{
    if count > 0 {
        lemma_mix_sockets(kind, (count - 1) as nat);
    }
}

/// From one model to a later one nodes have only added to what lies on the sockets, and the
/// program has got no earlier.
spec fn grows(model: AudioModel, next: AudioModel) -> bool {
    &&& model.produced.len() <= next.produced.len()
    &&& forall|i: int|
        0 <= i < model.produced.len() ==> #[trigger] next.produced[i] == model.produced[i]
    &&& model.latency <= next.latency
}

proof fn lemma_grows_on(a: AudioModel, b: AudioModel, c: AudioModel)
    requires
        grows(a, b),
        grows(b, c),
    ensures
        grows(a, c),
{
    assert forall|i: int| 0 <= i < a.produced.len() implies #[trigger] c.produced[i]
        == a.produced[i] by {
        assert(b.produced[i] == a.produced[i]);
    }
}

/// What was first left on a socket stays what is found there.
proof fn lemma_still_found(
    produced: Seq<Produced>,
    more: Seq<Produced>,
    node: NodeId,
    port: u8,
    at: int,
)
    requires
        0 <= at <= produced.len() <= more.len(),
        forall|i: int| 0 <= i < produced.len() ==> #[trigger] more[i] == produced[i],
    ensures
        produced_from(produced, node, port, at) matches Some(found) ==> produced_from(
            more,
            node,
            port,
            at,
        ) == Some(found),
    decreases produced.len() - at,
{
    if at < produced.len() {
        assert(more[at] == produced[at]);
        lemma_still_found(produced, more, node, port, at + 1);
    }
}

/// What is found on a socket is among what was left since there were `from` things, if
/// nothing before was of that node.
proof fn lemma_found_late(
    produced: Seq<Produced>,
    node: NodeId,
    port: u8,
    from: int,
    at: int,
    i: int,
)
    requires
        0 <= at,
        0 <= from <= i < produced.len(),
        at <= i,
        produced[i].node == node,
        produced[i].port == port,
        forall|j: int| 0 <= j < from ==> (#[trigger] produced[j]).node != node,
    ensures
        exists|j: int|
            from <= j < produced.len() && (#[trigger] produced[j]).node == node && produced[j].port
                == port && produced_from(produced, node, port, at) == Some(
                (produced[j].buf, produced[j].latency),
            ),
    decreases produced.len() - at,
{
    if produced[at].node == node && produced[at].port == port {
        assert(at >= from);
    } else {
        lemma_found_late(produced, node, port, from, at + 1, i);
        let j = choose|j: int|
            from <= j < produced.len() && (#[trigger] produced[j]).node == node && produced[j].port
                == port && produced_from(produced, node, port, at + 1) == Some(
                (produced[j].buf, produced[j].latency),
            );
        assert(produced[j].node == node);
    }
}

/// Compiling a node adds only its own to what lies on the sockets.
proof fn lemma_compiled_grows(model: AudioModel, env: AudioEnv, kind: NodeKind)
    ensures
        model.compiled(env, kind) matches Ok(next) ==> {
            &&& grows(model, next)
            &&& forall|i: int|
                model.produced.len() <= i < next.produced.len() ==> (
                #[trigger] next.produced[i]).node == model.id
            &&& !(kind is AudioOut) ==> next.latency == model.latency
        },
{
    if let Ok(next) = model.compiled(env, kind) {
        match kind {
            NodeKind::Mix(node) => {
                let until = lemma_mix_leaves(model, env, node, next);
            },
            NodeKind::Plugin(node) => {
                if node.ports.audio_out@.len() > 0 {
                    lemma_plugin_leaves(model, env, node);
                }
            },
            NodeKind::AudioOut(node) => {
                model.lemma_with_source_keeps(0);
            },
            NodeKind::Gate(node) => {
                model.lemma_with_source_keeps(0);
            },
            NodeKind::DelayWrite(node) => {
                model.lemma_with_source_keeps(0);
            },
            _ => {},
        }
    }
}

/// How late a signal is that comes to `sum` in all: as late as that, as far as a count
/// goes, or later.
pub open spec fn at_least(late: u32, sum: int) -> bool {
    late >= sum || late == u32::MAX
}

/// What a node leaves on a socket that something reads: it is as late as anything that is
/// wired to the node, and the node's own latency more, and no later than the latest of that.
proof fn lemma_out(model: AudioModel, env: AudioEnv, kind: NodeKind, next: AudioModel, port: u8)
    requires
        model.compiled(env, kind) == Ok::<AudioModel, CompileError>(next),
        port < kind.outputs().len(),
        kind.outputs()[port as int].ty is Audio,
        reader_count(env.links, env.order, model.id, port) > 0,
        kind matches NodeKind::Plugin(node) ==> model.sources.len() == node.ports.audio_in@.len(),
        kind matches NodeKind::Mix(node) ==> model.sources.len() == node.inputs,
        kind is Gate ==> model.sources.len() == 1,
    ensures
        left_on(next, model.produced.len() as int, port as int),
        forall|i: int|
            model.produced.len() <= i < next.produced.len() ==> at_least(
                (#[trigger] next.produced[i]).latency,
                own_latency(kind),
            ),
        forall|i: int, j: int|
            #![trigger next.produced[i], model.sources[j]]
            model.produced.len() <= i < next.produced.len() && 0 <= j < model.sources.len() && (
            kind is Plugin || kind is Mix && j < 128 || kind is Gate) && model.sources[j] is Some
                ==> at_least(
                next.produced[i].latency,
                (model.sources[j]->0).1 + own_latency(kind),
            ),
        kind is Plugin ==> forall|i: int|
            model.produced.len() <= i < next.produced.len() ==> counts_to(
                (#[trigger] next.produced[i]).latency,
                own_latency(kind),
            ) || exists|j: int|
                0 <= j < model.sources.len() && (#[trigger] model.sources[j] matches Some(
                    (buf, late),
                ) && counts_to(next.produced[i].latency, late + own_latency(kind))),
{
    match kind {
        NodeKind::Plugin(node) => {
            lemma_plugin_out(model, env, node, next, port);
        },
        NodeKind::Mix(node) => {
            let until = lemma_mix_leaves(model, env, node, next);
            assert(next.produced[next.produced.len() - 1].port == 0);
            assert forall|i: int, j: int|
                #![trigger next.produced[i], model.sources[j]]
                model.produced.len() <= i < next.produced.len() && 0 <= j < model.sources.len() && j
                    < 128 && model.sources[j] is Some implies at_least(
                next.produced[i].latency,
                (model.sources[j]->0).1 + own_latency(kind),
            ) by {
                assert(model.source(j) is Some);
            }
        },
        NodeKind::Gate(node) => {
            model.lemma_with_source_keeps(0);
            assert(next.produced[next.produced.len() - 1].port == 0);
            assert forall|i: int, j: int|
                #![trigger next.produced[i], model.sources[j]]
                model.produced.len() <= i < next.produced.len() && 0 <= j < model.sources.len()
                    && model.sources[j] is Some implies at_least(
                next.produced[i].latency,
                (model.sources[j]->0).1 + own_latency(kind),
            ) by {
                assert(model.source(0) == model.sources[0]);
            }
        },
        NodeKind::AudioIn(node) => {
            assert(next.produced[next.produced.len() - 1].port == 0);
        },
        NodeKind::DelayRead(node) => {
            assert(next.produced[next.produced.len() - 1].port == 0);
        },
        _ => {
            assert(false);
        },
    }
}

proof fn lemma_plugin_out(
    model: AudioModel,
    env: AudioEnv,
    node: Plugin,
    next: AudioModel,
    port: u8,
)
    requires
        model.compiled(env, NodeKind::Plugin(node)) == Ok::<AudioModel, CompileError>(next),
        port < node.ports.shown().len(),
        reader_count(env.links, env.order, model.id, port) > 0,
        model.sources.len() == node.ports.audio_in@.len(),
    ensures
        left_on(next, model.produced.len() as int, port as int),
        forall|i: int|
            model.produced.len() <= i < next.produced.len() ==> at_least(
                (#[trigger] next.produced[i]).latency,
                node.ports.latency as int,
            ),
        forall|i: int, j: int|
            #![trigger next.produced[i], model.sources[j]]
            model.produced.len() <= i < next.produced.len() && 0 <= j < model.sources.len()
                && model.sources[j] is Some ==> at_least(
                next.produced[i].latency,
                (model.sources[j]->0).1 + node.ports.latency,
            ),
        forall|i: int|
            model.produced.len() <= i < next.produced.len() ==> counts_to(
                (#[trigger] next.produced[i]).latency,
                node.ports.latency as int,
            ) || exists|j: int|
                0 <= j < model.sources.len() && (#[trigger] model.sources[j] matches Some(
                    (buf, late),
                ) && counts_to(next.produced[i].latency, late + node.ports.latency)),
{
    let ports = node.ports;
    if ports.audio_out@.len() == 0 {
        if ports.audio_out_shown@.len() > 0 {
            let has = |bus: u16| bus < ports.audio_out@.len();
            ports.audio_out_shown@.lemma_filter_pred(has, port as int);
        }
        assert(false);
    }
    lemma_plugin_leaves(model, env, node);
    assert(port as int as u8 == port);
    assert(port < socket_count(ports.shown()));
    assert(left_on(next, model.produced.len() as int, port as int));
    assert forall|i: int| model.produced.len() <= i < next.produced.len() implies at_least(
        (#[trigger] next.produced[i]).latency,
        node.ports.latency as int,
    ) && (counts_to(next.produced[i].latency, node.ports.latency as int) || exists|j: int|
        0 <= j < model.sources.len() && (#[trigger] model.sources[j] matches Some((buf, late))
            && counts_to(next.produced[i].latency, late + node.ports.latency))) by {
        law_a_plugin_adds_its_latency(model, env, node, next, i);
    }
    assert forall|i: int, j: int|
        #![trigger next.produced[i], model.sources[j]]
        model.produced.len() <= i < next.produced.len() && 0 <= j < model.sources.len()
            && model.sources[j] is Some implies at_least(
        next.produced[i].latency,
        (model.sources[j]->0).1 + node.ports.latency,
    ) by {
        law_a_plugin_adds_its_latency(model, env, node, next, i);
    }
}

/// A graph cut into stages, as it is compiled.
struct Cut {
    env: AudioEnv,
    graph: Graph,
    order: Seq<NodeId>,
    of: Seq<usize>,
    stages: nat,
}

impl Cut {
    /// The audio half before the node at `at` of a stage is compiled.
    spec fn before(self, stage: nat, at: nat) -> Result<AudioModel, CompileError> {
        match audio_in_stages(self.env, self.graph, self.order, self.of, stage) {
            Err(error) => Err(error),
            Ok(model) => audio_in_stage(
                model,
                self.env,
                self.graph,
                self.order,
                self.of,
                stage as int,
                at,
            ),
        }
    }

    spec fn whole(self) -> Result<AudioModel, CompileError> {
        audio_in_stages(self.env, self.graph, self.order, self.of, self.stages)
    }

    spec fn wf(self) -> bool {
        &&& self.of.len() == self.order.len()
        &&& self.order.no_duplicates()
        &&& forall|i: int| 0 <= i < self.of.len() ==> (#[trigger] self.of[i]) < self.stages
        &&& self.whole() is Ok
        &&& self.env.links == self.graph.links@
        &&& self.env.order == self.order
    }

    proof fn lemma_earlier_in_stage(self, stage: nat, at: nat, to: nat)
        requires
            at <= to,
            self.before(stage, to) is Ok,
        ensures
            self.before(stage, at) is Ok,
            grows(self.before(stage, at)->Ok_0, self.before(stage, to)->Ok_0),
        decreases to - at,
    {
        if at < to {
            let last = (to - 1) as nat;
            assert(self.before(stage, last) is Ok);
            self.lemma_earlier_in_stage(stage, at, last);
            let model = self.before(stage, last)->Ok_0;
            if self.of[last as int] == stage {
                let id = self.order[last as int];
                let kind = kind_of(self.graph, id);
                let begun = model.begun(self.env, id, kind);
                lemma_compiled_grows(begun, self.env, kind);
                assert(grows(model, begun));
                lemma_grows_on(model, begun, self.before(stage, to)->Ok_0);
            }
            lemma_grows_on(
                self.before(stage, at)->Ok_0,
                model,
                self.before(stage, to)->Ok_0,
            );
        }
    }

    proof fn lemma_earlier_stage(self, stage: nat, to: nat)
        requires
            stage <= to,
            audio_in_stages(self.env, self.graph, self.order, self.of, to) is Ok,
        ensures
            audio_in_stages(self.env, self.graph, self.order, self.of, stage) is Ok,
            grows(
                audio_in_stages(self.env, self.graph, self.order, self.of, stage)->Ok_0,
                audio_in_stages(self.env, self.graph, self.order, self.of, to)->Ok_0,
            ),
        decreases to - stage,
    {
        if stage < to {
            let last = (to - 1) as nat;
            self.lemma_earlier_stage(stage, last);
            let model = audio_in_stages(self.env, self.graph, self.order, self.of, last)->Ok_0;
            let open = self.before(last, self.order.len())->Ok_0;
            self.lemma_earlier_in_stage(last, 0, self.order.len());
            assert(self.before(last, 0)->Ok_0 == model);
            let next = audio_in_stages(self.env, self.graph, self.order, self.of, to)->Ok_0;
            assert(grows(open, next));
            lemma_grows_on(model, open, next);
            lemma_grows_on(
                audio_in_stages(self.env, self.graph, self.order, self.of, stage)->Ok_0,
                model,
                next,
            );
        }
    }

    /// What comes before a node is compiled grows into what comes before a later one.
    proof fn lemma_before(self, stage: nat, at: nat)
        requires
            self.wf(),
            stage < self.stages,
            at <= self.order.len(),
        ensures
            self.before(stage, at) is Ok,
            grows(self.before(stage, at)->Ok_0, self.whole()->Ok_0),
    {
        let next = stage + 1;
        self.lemma_earlier_stage(next, self.stages);
        let model = audio_in_stages(self.env, self.graph, self.order, self.of, next)->Ok_0;
        assert(self.before(stage, self.order.len()) is Ok);
        self.lemma_earlier_in_stage(stage, at, self.order.len());
        let open = self.before(stage, self.order.len())->Ok_0;
        assert(grows(open, model));
        lemma_grows_on(self.before(stage, at)->Ok_0, open, model);
        lemma_grows_on(self.before(stage, at)->Ok_0, model, self.whole()->Ok_0);
    }

    proof fn lemma_before_later(self, stage: nat, at: nat, later: nat, to: nat)
        requires
            self.wf(),
            stage <= later < self.stages,
            at <= self.order.len(),
            to <= self.order.len(),
            stage == later ==> at <= to,
        ensures
            self.before(stage, at) is Ok,
            self.before(later, to) is Ok,
            grows(self.before(stage, at)->Ok_0, self.before(later, to)->Ok_0),
    {
        self.lemma_before(stage, at);
        self.lemma_before(later, to);
        if stage == later {
            self.lemma_earlier_in_stage(stage, at, to);
        } else {
            self.lemma_earlier_in_stage(later, 0, to);
            let start = audio_in_stages(
                self.env,
                self.graph,
                self.order,
                self.of,
                later,
            )->Ok_0;
            assert(self.before(later, 0)->Ok_0 == start);
            self.lemma_earlier_stage(stage + 1, later);
            let model = audio_in_stages(
                self.env,
                self.graph,
                self.order,
                self.of,
                stage + 1,
            )->Ok_0;
            self.lemma_before(stage, self.order.len());
            self.lemma_earlier_in_stage(stage, at, self.order.len());
            let open = self.before(stage, self.order.len())->Ok_0;
            assert(grows(open, model));
            lemma_grows_on(self.before(stage, at)->Ok_0, open, model);
            lemma_grows_on(self.before(stage, at)->Ok_0, model, start);
            lemma_grows_on(self.before(stage, at)->Ok_0, start, self.before(later, to)->Ok_0);
        }
    }

    /// What lies on the sockets was left by nodes that have been compiled.
    spec fn left_earlier(self, made: Produced, stage: nat, at: nat) -> bool {
        exists|i: int|
            0 <= i < self.order.len() && #[trigger] self.order[i] == made.node && (self.of[i]
                < stage || self.of[i] == stage && i < at)
    }

    proof fn lemma_left_earlier_in_stage(self, stage: nat, at: nat)
        requires
            at <= self.order.len(),
            audio_in_stages(self.env, self.graph, self.order, self.of, stage) matches Ok(model)
                ==> forall|k: int|
                0 <= k < model.produced.len() ==> self.left_earlier(
                    #[trigger] model.produced[k],
                    stage,
                    0,
                ),
        ensures
            self.before(stage, at) matches Ok(model) ==> forall|k: int|
                0 <= k < model.produced.len() ==> self.left_earlier(
                    #[trigger] model.produced[k],
                    stage,
                    at,
                ),
        decreases at,
    {
        if at > 0 && self.before(stage, at) is Ok {
            let last = (at - 1) as nat;
            self.lemma_left_earlier_in_stage(stage, last);
            let model = self.before(stage, last)->Ok_0;
            let next = self.before(stage, at)->Ok_0;
            let id = self.order[last as int];
            let kind = kind_of(self.graph, id);
            let begun = model.begun(self.env, id, kind);
            lemma_compiled_grows(begun, self.env, kind);
            assert forall|k: int| 0 <= k < next.produced.len() implies self.left_earlier(
                #[trigger] next.produced[k],
                stage,
                at,
            ) by {
                if k < model.produced.len() {
                    assert(next.produced[k] == model.produced[k]);
                    let i = choose|i: int|
                        0 <= i < self.order.len() && #[trigger] self.order[i]
                            == model.produced[k].node && (self.of[i] < stage || self.of[i] == stage
                            && i < last);
                    assert(self.order[i] == next.produced[k].node);
                } else {
                    assert(self.order[last as int] == next.produced[k].node);
                }
            }
        }
    }

    proof fn lemma_left_earlier(self, stage: nat)
        ensures
            audio_in_stages(self.env, self.graph, self.order, self.of, stage) matches Ok(model)
                ==> forall|k: int|
                0 <= k < model.produced.len() ==> self.left_earlier(
                    #[trigger] model.produced[k],
                    stage,
                    0,
                ),
        decreases stage,
    {
        if stage > 0 {
            let last = (stage - 1) as nat;
            self.lemma_left_earlier(last);
            self.lemma_left_earlier_in_stage(last, self.order.len());
            if let Ok(model) = audio_in_stages(
                self.env,
                self.graph,
                self.order,
                self.of,
                stage,
            ) {
                let open = self.before(last, self.order.len())->Ok_0;
                assert forall|k: int| 0 <= k < model.produced.len() implies self.left_earlier(
                    #[trigger] model.produced[k],
                    stage,
                    0,
                ) by {
                    assert(model.produced[k] == open.produced[k]);
                    let i = choose|i: int|
                        0 <= i < self.order.len() && #[trigger] self.order[i]
                            == open.produced[k].node && (self.of[i] < last || self.of[i] == last
                            && i < self.order.len());
                    assert(self.order[i] == model.produced[k].node);
                }
            }
        }
    }

    /// The model a node is compiled against, and what it makes of it.
    spec fn begun(self, i: int) -> AudioModel {
        let id = self.order[i];
        self.before(self.of[i] as nat, i as nat)->Ok_0.begun(
            self.env,
            id,
            kind_of(self.graph, id),
        )
    }

    spec fn after(self, i: int) -> AudioModel {
        self.before(self.of[i] as nat, (i + 1) as nat)->Ok_0
    }

    proof fn lemma_node(self, i: int)
        requires
            self.wf(),
            0 <= i < self.order.len(),
        ensures
            self.begun(i).compiled(self.env, kind_of(self.graph, self.order[i])) == Ok::<
                AudioModel,
                CompileError,
            >(self.after(i)),
            grows(self.after(i), self.whole()->Ok_0),
            self.begun(i).id == self.order[i],
            forall|k: int|
                0 <= k < self.begun(i).produced.len() ==> (
                #[trigger] self.begun(i).produced[k]).node != self.order[i],
    {
        let stage = self.of[i] as nat;
        self.lemma_before(stage, i as nat);
        self.lemma_before(stage, (i + 1) as nat);
        self.lemma_left_earlier(stage);
        self.lemma_left_earlier_in_stage(stage, i as nat);
        let model = self.before(stage, i as nat)->Ok_0;
        assert forall|k: int| 0 <= k < model.produced.len() implies (
        #[trigger] model.produced[k]).node != self.order[i] by {
            assert(self.left_earlier(model.produced[k], stage, i as nat));
            let j = choose|j: int|
                0 <= j < self.order.len() && #[trigger] self.order[j] == model.produced[k].node && (
                self.of[j] < stage || self.of[j] == stage && j < i);
            assert(j != i);
        }
    }

    /// What is wired to an audio socket of a node is found among its sources.
    proof fn lemma_wired(self, i: int, port: u8)
        requires
            self.wf(),
            0 <= i < self.order.len(),
            port < kind_of(self.graph, self.order[i]).inputs().len(),
            kind_of(self.graph, self.order[i]).inputs()[port as int].ty is Audio,
        ensures
            ({
                let kind = kind_of(self.graph, self.order[i]);
                let j = audio_before(kind.inputs(), port as nat) as int;
                let model = self.begun(i);
                &&& 0 <= j < model.sources.len()
                &&& model.sources[j] == fed_by(
                    self.env.links,
                    model.produced,
                    self.order[i],
                    port,
                )
                &&& kind matches NodeKind::Plugin(node) ==> model.sources.len()
                    == node.ports.audio_in@.len()
                &&& kind matches NodeKind::Mix(node) ==> model.sources.len() == node.inputs && j
                    < 128
                &&& kind is Gate ==> model.sources.len() == 1
                &&& kind is AudioOut ==> j == 0
            }),
    {
        let id = self.order[i];
        let kind = kind_of(self.graph, id);
        let inputs = kind.inputs();
        let model = self.begun(i);
        self.lemma_sources(i);
        lemma_source_at(
            self.env.links,
            model.produced,
            id,
            inputs,
            inputs.len(),
            port as int,
        );
        match kind {
            NodeKind::Mix(node) => {
                lemma_mix_sockets(kind, port as nat);
            },
            NodeKind::AudioOut(_) => {
                assert(inputs.len() == 1);
            },
            _ => {},
        }
    }

    proof fn lemma_sources(self, i: int)
        requires
            self.wf(),
            0 <= i < self.order.len(),
        ensures
            ({
                let kind = kind_of(self.graph, self.order[i]);
                let model = self.begun(i);
                &&& model.sources == audio_sources(
                    self.env.links,
                    model.produced,
                    self.order[i],
                    kind.inputs(),
                    kind.inputs().len(),
                )
                &&& kind matches NodeKind::Plugin(node) ==> model.sources.len()
                    == node.ports.audio_in@.len()
                &&& kind matches NodeKind::Mix(node) ==> model.sources.len() == node.inputs
                &&& kind is Gate ==> model.sources.len() == 1
            }),
    {
        let id = self.order[i];
        let kind = kind_of(self.graph, id);
        let inputs = kind.inputs();
        let model = self.begun(i);
        lemma_sources_len(self.env.links, model.produced, id, inputs, inputs.len());
        match kind {
            NodeKind::Plugin(node) => {
                lemma_plugin_sockets(node, inputs.len());
            },
            NodeKind::Mix(node) => {
                lemma_mix_sockets(kind, inputs.len());
            },
            NodeKind::Gate(_) => {
                reveal_with_fuel(audio_before, 3);
                assert(inputs[0].ty is Audio);
                assert(!(inputs[1].ty is Audio));
            },
            _ => {},
        }
    }
}

/// A link leads to a node that runs, so it leaves from one that runs earlier, in the same
/// stage or an earlier one.
proof fn lemma_runs_before(
    cut: Cut,
    lines: Seq<Line>,
    chunkings: Seq<Chunking>,
    keys: Seq<int>,
    link: Link,
    b: int,
) -> (a: int)
    requires
        cut.wf(),
        cut.order.len() < usize::MAX,
        is_run_order(cut.graph, cut.order),
        is_topological(cut.graph, cut.order),
        no_cut_on_loops(cut.graph, cut.order, lines),
        is_plan(chunkings, cut.of, keys, cut.graph, cut.order, lines),
        cut.graph.links@.contains(link),
        source(cut.graph.links@, link.to, link.to_port) == Some((link.from, link.from_port)),
        cut.graph.in_type(link.to, link.to_port) is Some,
        find(cut.graph.nodes@, link.from) is Some,
        0 <= b < cut.order.len(),
        cut.order[b] == link.to,
    ensures
        0 <= a < b,
        cut.order[a] == link.from,
        cut.of[a] <= cut.of[b],
{
    let graph = cut.graph;
    let order = cut.order;
    let into = find(graph.nodes@, link.to)->0;
    let from = find(graph.nodes@, link.from)->0;
    lemma_find_from(graph.nodes@, link.to, 0);
    lemma_find_from(graph.nodes@, link.from, 0);
    assert(link.to_port < followed_inputs(graph.nodes@[into]));
    assert(source(graph.links@, graph.nodes@[into].id, link.to_port) is Some);
    assert(feeds(graph, from, find(graph.nodes@, order[b])->0));
    assert(stands_before(graph, order, from, b));
    let a = choose|a: int| 0 <= a < b && #[trigger] order[a] == graph.nodes@[from].id;
    lemma_index_from(order, link.from, 0);
    lemma_index_from(order, link.to, 0);
    assert(order[a] == link.from);
    assert(index_of(order, link.from) == Some(a)) by {
        let x = index_of(order, link.from)->0;
        assert(order[x] == order[a]);
    }
    assert(index_of(order, link.to) == Some(b)) by {
        let y = index_of(order, link.to)->0;
        assert(order[y] == order[b]);
    }
    assert(ends_of(order, link) == Some((a, b)));
    law_links_lead_to_later_stages(graph, order, lines, chunkings, cut.of, keys, link);
    a
}

/// What is found on the socket that a link leaves from, once its node has been compiled.
proof fn lemma_left_on_socket(cut: Cut, link: Link, a: int) -> (late: u32)
    requires
        cut.wf(),
        0 <= a < cut.order.len(),
        cut.order[a] == link.from,
        cut.graph.links@.contains(link),
        cut.order.contains(link.to),
        link.from_port < kind_of(cut.graph, link.from).outputs().len(),
        kind_of(cut.graph, link.from).outputs()[link.from_port as int].ty is Audio,
    ensures
        produced_from(cut.after(a).produced, link.from, link.from_port, 0) matches Some((buf, found))
            && found == late,
        exists|i: int|
            cut.begun(a).produced.len() <= i < cut.after(a).produced.len() && (
            #[trigger] cut.after(a).produced[i]).latency == late,
{
    let kind = kind_of(cut.graph, link.from);
    let model = cut.begun(a);
    let next = cut.after(a);
    cut.lemma_node(a);
    cut.lemma_sources(a);
    let read = |l: Link|
        l.from == link.from && l.from_port == link.from_port && cut.order.contains(l.to);
    let l = choose|l: int| 0 <= l < cut.graph.links@.len() && cut.graph.links@[l] == link;
    cut.graph.links@.lemma_filter_contains(read, l);
    assert(reader_count(cut.env.links, cut.env.order, link.from, link.from_port) > 0);
    lemma_out(model, cut.env, kind, next, link.from_port);
    lemma_compiled_grows(model, cut.env, kind);
    let from = model.produced.len() as int;
    let i = choose|i: int|
        from <= i < next.produced.len() && (#[trigger] next.produced[i]).port == link.from_port;
    assert(next.produced[i].node == link.from);
    assert forall|j: int| 0 <= j < from implies (#[trigger] next.produced[j]).node != link.from by {
        assert(next.produced[j] == model.produced[j]);
    }
    lemma_found_late(next.produced, link.from, link.from_port, from, 0, i);
    let j = choose|j: int|
        from <= j < next.produced.len() && (#[trigger] next.produced[j]).node == link.from
            && next.produced[j].port == link.from_port && produced_from(
            next.produced,
            link.from,
            link.from_port,
            0,
        ) == Some((next.produced[j].buf, next.produced[j].latency));
    next.produced[j].latency
}

proof fn lemma_joined(graph: Graph, at: int, l: int)
    requires
        0 <= at <= l < graph.links@.len(),
        mismatch_from(graph, at) is None,
    ensures
        graph.joins(
            graph.links@[l].from,
            graph.links@[l].from_port,
            graph.links@[l].to,
            graph.links@[l].to_port,
        ),
    decreases l - at,
{
    if at < l {
        lemma_joined(graph, at + 1, l);
    }
}

/// Where a graph compiles to a program, its links join sockets that go together, and an
/// input with one link is fed by that link.
proof fn lemma_link(graph: Graph, link: Link)
    requires
        mismatch_from(graph, 0) is None,
        one_source_each(graph.links@),
        graph.links@.contains(link),
    ensures
        graph.joins(link.from, link.from_port, link.to, link.to_port),
        source(graph.links@, link.to, link.to_port) == Some((link.from, link.from_port)),
{
    let l = choose|l: int| 0 <= l < graph.links@.len() && graph.links@[l] == link;
    lemma_joined(graph, 0, l);
    lemma_source_from(graph.links@, link.to, link.to_port, 0);
    assert(graph.links@[l].to == link.to);
    let (from, port) = source(graph.links@, link.to, link.to_port)->0;
    let m = choose|m: int|
        0 <= m < graph.links@.len() && #[trigger] graph.links@[m] == (Link {
            from,
            from_port: port,
            to: link.to,
            to_port: link.to_port,
        });
    if m < l {
        assert(graph.links@[m].to == graph.links@[l].to);
    }
    if l < m {
        assert(graph.links@[l].to == graph.links@[m].to);
    }
}

/// No link between two nodes of a feedback loop changes rate.
pub open spec fn loops_keep_their_rate(graph: Graph) -> bool {
    lines_of(graph.nodes@, graph.nodes@.len()) matches Ok(lines) ==> (depth_first(
        graph,
    ) matches Ok(order) ==> no_cut_on_loops(graph, order, lines))
}

/// A signal on a path: where the node that its link number `k` leaves from stands, and how
/// late the signal leaves it.
struct Step {
    at: int,
    late: u32,
}

/// A step of a path: the node stands in the order, and what is found on the socket is so
/// late.
spec fn is_step(cut: Cut, link: Link, step: Step) -> bool {
    &&& 0 <= step.at < cut.order.len()
    &&& cut.order[step.at] == link.from
    &&& produced_from(cut.after(step.at).produced, link.from, link.from_port, 0) matches Some(
        (buf, found),
    ) && found == step.late
    &&& exists|i: int|
        cut.begun(step.at).produced.len() <= i < cut.after(step.at).produced.len() && (
        #[trigger] cut.after(step.at).produced[i]).latency == step.late
}

/// What a link brings to the node it leads to.
proof fn lemma_brought(cut: Cut, link: Link, step: Step, b: int)
    requires
        cut.wf(),
        is_step(cut, link, step),
        source(cut.graph.links@, link.to, link.to_port) == Some((link.from, link.from_port)),
        step.at < b < cut.order.len(),
        cut.of[step.at] <= cut.of[b],
        cut.order[b] == link.to,
    ensures
        fed_by(
            cut.env.links,
            cut.begun(b).produced,
            link.to,
            link.to_port,
        ) matches Some((buf, late)) && late == step.late,
{
    let a = step.at;
    cut.lemma_before_later(
        cut.of[a] as nat,
        (a + 1) as nat,
        cut.of[b] as nat,
        b as nat,
    );
    lemma_still_found(
        cut.after(a).produced,
        cut.begun(b).produced,
        link.from,
        link.from_port,
        0,
    );
}

/// The nodes of a path that leads out all run, each before the one its link leads to.
proof fn lemma_path_runs(
    cut: Cut,
    lines: Seq<Line>,
    chunkings: Seq<Chunking>,
    keys: Seq<int>,
    path: Seq<Link>,
    k: int,
) -> (ends: (int, int))
    requires
        cut.wf(),
        cut.order.len() < usize::MAX,
        mismatch_from(cut.graph, 0) is None,
        one_source_each(cut.graph.links@),
        is_run_order(cut.graph, cut.order),
        is_topological(cut.graph, cut.order),
        no_cut_on_loops(cut.graph, cut.order, lines),
        is_plan(chunkings, cut.of, keys, cut.graph, cut.order, lines),
        leads_out(cut.graph, path),
        0 <= k < path.len(),
    ensures
        ({
            let (a, b) = ends;
            &&& 0 <= a < b < cut.order.len()
            &&& cut.order[a] == path[k].from
            &&& cut.order[b] == path[k].to
            &&& cut.of[a] <= cut.of[b]
        }),
    decreases path.len() - k,
{
    let graph = cut.graph;
    let link = path[k];
    lemma_link(graph, link);
    let b = if k + 1 < path.len() {
        let (a, b) = lemma_path_runs(cut, lines, chunkings, keys, path, k + 1);
        assert(path[k + 1].from == path[k].to);
        a
    } else {
        let t = find(graph.nodes@, link.to)->0;
        lemma_find_from(graph.nodes@, link.to, 0);
        assert(graph.nodes@[t].kind is AudioOut);
        assert(graph.nodes@[t].id == link.to);
        assert(crate::order::feeds_through(graph, t, t, 0));
        assert(crate::order::contributes(graph, t, t));
        assert(serves(graph, t, t));
        assert(runs(graph, t));
        assert(cut.order.contains(graph.nodes@[t].id));
        choose|b: int| 0 <= b < cut.order.len() && cut.order[b] == link.to
    };
    let a = lemma_runs_before(cut, lines, chunkings, keys, link, b);
    (a, b)
}

/// How late a signal is when it leaves the nodes of a path: by all that the nodes so far
/// add up to.
proof fn lemma_path_late(
    cut: Cut,
    lines: Seq<Line>,
    chunkings: Seq<Chunking>,
    keys: Seq<int>,
    path: Seq<Link>,
    k: int,
) -> (step: Step)
    requires
        cut.wf(),
        cut.order.len() < usize::MAX,
        mismatch_from(cut.graph, 0) is None,
        one_source_each(cut.graph.links@),
        is_run_order(cut.graph, cut.order),
        is_topological(cut.graph, cut.order),
        no_cut_on_loops(cut.graph, cut.order, lines),
        is_plan(chunkings, cut.of, keys, cut.graph, cut.order, lines),
        leads_out(cut.graph, path),
        0 <= k < path.len(),
    ensures
        is_step(cut, path[k], step),
        at_least(step.late, latency_along(cut.graph, path, (k + 1) as nat)),
        is_chain(cut.graph, path) ==> counts_to(
            step.late,
            latency_along(cut.graph, path, (k + 1) as nat),
        ),
    decreases k,
{
    let graph = cut.graph;
    let link = path[k];
    lemma_link(graph, link);
    let (a, b) = lemma_path_runs(cut, lines, chunkings, keys, path, k);
    assert(cut.order.contains(link.to)) by {
        assert(cut.order[b] == link.to);
    }
    let kind = kind_of(graph, link.from);
    let late = lemma_left_on_socket(cut, link, a);
    let step = Step { at: a, late };
    cut.lemma_node(a);
    cut.lemma_sources(a);
    let read = |l: Link|
        l.from == link.from && l.from_port == link.from_port && cut.order.contains(l.to);
    let l = choose|l: int| 0 <= l < graph.links@.len() && graph.links@[l] == link;
    graph.links@.lemma_filter_contains(read, l);
    lemma_out(cut.begun(a), cut.env, kind, cut.after(a), link.from_port);
    let i = choose|i: int|
        cut.begun(a).produced.len() <= i < cut.after(a).produced.len() && (
        #[trigger] cut.after(a).produced[i]).latency == late;
    if k > 0 {
        let before = lemma_path_late(cut, lines, chunkings, keys, path, k - 1);
        let up = path[k - 1];
        lemma_link(graph, up);
        let (x, y) = lemma_path_runs(cut, lines, chunkings, keys, path, k - 1);
        assert(path[k].from == path[k - 1].to);
        assert(y == a);
        assert(x == before.at);
        lemma_brought(cut, up, before, a);
        cut.lemma_wired(a, up.to_port);
        let j = audio_before(kind.inputs(), up.to_port as nat) as int;
        assert(cut.begun(a).sources[j] is Some);
        assert(at_least(
            cut.after(a).produced[i].latency,
            (cut.begun(a).sources[j]->0).1 + own_latency(kind),
        ));
        if is_chain(graph, path) {
            lemma_chain_step(cut, path, k, a, i, before);
        }
    } else {
        reveal_with_fuel(latency_along, 2);
    }
    step
}

/// A path along which nothing but plugins lies between an input and an output, and nothing
/// else is wired to the audio inputs on the way. It leads to the only output there is.
pub open spec fn is_chain(graph: Graph, path: Seq<Link>) -> bool {
    &&& leads_out(graph, path)
    &&& kind_of(graph, path[0].from) is AudioIn
    &&& forall|k: int|
        0 < k < path.len() ==> kind_of(graph, (#[trigger] path[k]).from) is Plugin
    &&& forall|k: int, l: int|
        0 <= k < path.len() && 0 <= l < graph.links@.len() && (
        #[trigger] graph.links@[l]).to == (#[trigger] path[k]).to && (graph.in_type(
            graph.links@[l].to,
            graph.links@[l].to_port,
        ) matches Some(ty) && ty is Audio) ==> graph.links@[l] == path[k]
    &&& forall|i: int|
        0 <= i < graph.nodes@.len() && (#[trigger] graph.nodes@[i]).kind is AudioOut
            ==> graph.nodes@[i].id == path.last().to
}

/// What leaves a plugin of a chain is exactly as late as what the chain brought to it, and
/// the plugin's latency more: nothing else is wired to it.
proof fn lemma_chain_step(cut: Cut, path: Seq<Link>, k: int, a: int, i: int, before: Step)
    requires
        cut.wf(),
        mismatch_from(cut.graph, 0) is None,
        one_source_each(cut.graph.links@),
        is_chain(cut.graph, path),
        0 < k < path.len(),
        0 <= a < cut.order.len(),
        cut.order[a] == path[k].from,
        cut.order.contains(path[k].to),
        find(cut.graph.nodes@, path[k].from) is Some,
        fed_by(
            cut.env.links,
            cut.begun(a).produced,
            path[k].from,
            path[k - 1].to_port,
        ) matches Some((buf, late)) && late == before.late,
        cut.begun(a).produced.len() <= i < cut.after(a).produced.len(),
        counts_to(before.late, latency_along(cut.graph, path, k as nat)),
        at_least(
            cut.after(a).produced[i].latency,
            before.late + own_latency(kind_of(cut.graph, path[k].from)),
        ),
        counts_to(
            cut.after(a).produced[i].latency,
            own_latency(kind_of(cut.graph, path[k].from)),
        ) || exists|j: int|
            0 <= j < cut.begun(a).sources.len() && (
            #[trigger] cut.begun(a).sources[j] matches Some((buf, late)) && counts_to(
                cut.after(a).produced[i].latency,
                late + own_latency(kind_of(cut.graph, path[k].from)),
            )),
    ensures
        counts_to(
            cut.after(a).produced[i].latency,
            latency_along(cut.graph, path, (k + 1) as nat),
        ),
{
    let graph = cut.graph;
    let kind = kind_of(graph, path[k].from);
    let own = own_latency(kind);
    let late = cut.after(a).produced[i].latency;
    let id = path[k].from;
    assert(path[k].from == path[k - 1].to);
    assert(kind is Plugin);
    assert(own >= 0);
    lemma_latency_along(graph, path, k as nat);
    if !counts_to(late, own) {
        cut.lemma_sources(a);
        let model = cut.begun(a);
        let j = choose|j: int|
            0 <= j < model.sources.len() && (#[trigger] model.sources[j] matches Some((buf, late))
                && counts_to(cut.after(a).produced[i].latency, late + own));
        let inputs = kind.inputs();
        lemma_source_from_socket(
            cut.env.links,
            model.produced,
            id,
            inputs,
            inputs.len(),
            j,
        );
        let p = choose|p: int|
            0 <= p < inputs.len() && p < 256 && (#[trigger] inputs[p]).ty is Audio
                && model.sources[j] == fed_by(cut.env.links, model.produced, id, p as u8);
        lemma_source_from(graph.links@, id, p as u8, 0);
        let (from, port) = source(graph.links@, id, p as u8)->0;
        let l = choose|l: int|
            0 <= l < graph.links@.len() && #[trigger] graph.links@[l] == (Link {
                from,
                from_port: port,
                to: id,
                to_port: p as u8,
            });
        assert(graph.in_type(id, p as u8) == Some(inputs[p].ty));
        assert(graph.links@[l].to == path[k - 1].to);
        assert(graph.links@[l] == path[k - 1]);
        assert(p as u8 == path[k - 1].to_port);
        assert((model.sources[j]->0).1 == before.late);
    }
}

proof fn lemma_latency_along(graph: Graph, path: Seq<Link>, count: nat)
    ensures
        latency_along(graph, path, count) >= 0,
    decreases count,
{
    if count > 0 {
        lemma_latency_along(graph, path, (count - 1) as nat);
    }
}

/// The halves of a compiled program and how it was cut.
proof fn lemma_cut(
    graph: Graph,
    slot_count: usize,
    program: ProgramModel,
) -> (found: (Cut, Seq<Line>, Seq<Chunking>, Seq<int>))
    requires
        compiles_to(graph, slot_count, Ok(program)),
        one_source_each(graph.links@),
        loops_keep_their_rate(graph),
        graph.nodes@.len() < usize::MAX,
    ensures
        ({
            let (cut, lines, chunkings, keys) = found;
            &&& cut.graph == graph
            &&& cut.wf()
            &&& cut.order.len() < usize::MAX
            &&& cut.whole()->Ok_0.latency == program.latency
            &&& is_run_order(graph, cut.order)
            &&& is_topological(graph, cut.order)
            &&& no_cut_on_loops(graph, cut.order, lines)
            &&& is_plan(chunkings, cut.of, keys, graph, cut.order, lines)
        }),
{
    let lines = lines_of(graph.nodes@, graph.nodes@.len())->Ok_0;
    let order = depth_first(graph)->Ok_0;
    let plan = choose|plan: Plan| #[trigger]
        outcome(graph, slot_count, lines, order, plan, Ok(program));
    let of = plan.of@;
    let stages = plan.stages@.len();
    let notes = notes_in_stages(graph, order, of, stages)->Ok_0;
    let param = params_in_stages(
        param_env(graph, slot_count, lines, notes),
        graph,
        order,
        of,
        stages,
    )->Ok_0;
    let env = audio_env(graph, lines, order, notes, param);
    let audio = audio_in_stages(env, graph, order, of, stages)->Ok_0;
    assert(program == assembled(notes, param, audio, slot_count, lines, plan.stages@));
    let keys = choose|keys: Seq<int>| is_plan(plan.stages@, of, keys, graph, order, lines);
    let cut = Cut { env, graph, order, of, stages };
    assert forall|l: int| 0 <= l < graph.links@.len() implies graph.joins(
        (#[trigger] graph.links@[l]).from,
        graph.links@[l].from_port,
        graph.links@[l].to,
        graph.links@[l].to_port,
    ) by {
        lemma_joined(graph, 0, l);
    }
    law_links_lead_forwards(graph, order);
    let ids = Seq::new(graph.nodes@.len(), |i: int| graph.nodes@[i].id);
    order.unique_seq_to_set();
    ids.lemma_cardinality_of_set();
    assert forall|id: NodeId| order.to_set().contains(id) implies ids.to_set().contains(id) by {
        let k = choose|k: int| 0 <= k < order.len() && order[k] == id;
        assert(find(graph.nodes@, order[k]) is Some);
        lemma_find_from(graph.nodes@, id, 0);
        assert(ids[find(graph.nodes@, id)->0] == id);
    }
    vstd::set_lib::lemma_len_subset(order.to_set(), ids.to_set());
    (cut, lines, plan.stages@, keys)
}

/// A program is at least as late as every path through it: along any links that a signal
/// follows to an output, the latencies of the plugins it goes through add up, and the
/// program reports no less, as far as a count goes.
pub proof fn law_a_program_is_as_late_as_every_path(
    graph: Graph,
    slot_count: usize,
    program: ProgramModel,
    path: Seq<Link>,
)
    requires
        compiles_to(graph, slot_count, Ok(program)),
        one_source_each(graph.links@),
        loops_keep_their_rate(graph),
        graph.nodes@.len() < usize::MAX,
        leads_out(graph, path),
    ensures
        program.latency >= latency_along(graph, path, path.len()) || program.latency == u32::MAX,
{
    let (cut, lines, chunkings, keys) = lemma_cut(graph, slot_count, program);
    let late = lemma_heard(cut, lines, chunkings, keys, path);
}

/// What goes out at the end of a path, and how late the program is for it.
proof fn lemma_heard(
    cut: Cut,
    lines: Seq<Line>,
    chunkings: Seq<Chunking>,
    keys: Seq<int>,
    path: Seq<Link>,
) -> (late: u32)
    requires
        cut.wf(),
        cut.order.len() < usize::MAX,
        mismatch_from(cut.graph, 0) is None,
        one_source_each(cut.graph.links@),
        is_run_order(cut.graph, cut.order),
        is_topological(cut.graph, cut.order),
        no_cut_on_loops(cut.graph, cut.order, lines),
        is_plan(chunkings, cut.of, keys, cut.graph, cut.order, lines),
        leads_out(cut.graph, path),
    ensures
        at_least(late, latency_along(cut.graph, path, path.len())),
        is_chain(cut.graph, path) ==> counts_to(
            late,
            latency_along(cut.graph, path, path.len()),
        ),
        late <= cut.whole()->Ok_0.latency,
        exists|b: int|
            0 <= b < cut.order.len() && #[trigger] cut.order[b] == path.last().to && (cut.begun(
                b,
            ).source(0) matches Some((buf, found)) && found == late),
{
    let k = path.len() - 1;
    let link = path[k];
    lemma_link(cut.graph, link);
    let step = lemma_path_late(cut, lines, chunkings, keys, path, k);
    let (a, b) = lemma_path_runs(cut, lines, chunkings, keys, path, k);
    assert(a == step.at);
    lemma_brought(cut, link, step, b);
    cut.lemma_wired(b, link.to_port);
    cut.lemma_node(b);
    let model = cut.begun(b);
    assert(model.source(0) == model.sources[0]);
    model.lemma_with_source_keeps(0);
    assert(cut.after(b).latency >= step.late);
    assert(cut.order[b] == path.last().to);
    step.late
}

proof fn lemma_no_later_in_stage(cut: Cut, stage: nat, at: nat, b: int, late: u32)
    requires
        cut.wf(),
        stage < cut.stages,
        at <= cut.order.len(),
        0 <= b < cut.order.len(),
        cut.begun(b).source(0) matches Some((buf, found)) && found == late,
        forall|i: int|
            0 <= i < cut.order.len() && kind_of(
                cut.graph,
                #[trigger] cut.order[i],
            ) is AudioOut ==> i == b,
        audio_in_stages(cut.env, cut.graph, cut.order, cut.of, stage)->Ok_0.latency <= late,
    ensures
        cut.before(stage, at)->Ok_0.latency <= late,
    decreases at,
{
    cut.lemma_before(stage, at);
    if at > 0 {
        let last = (at - 1) as nat;
        lemma_no_later_in_stage(cut, stage, last, b, late);
        cut.lemma_before(stage, last);
        if cut.of[last as int] == stage {
            let kind = kind_of(cut.graph, cut.order[last as int]);
            let model = cut.begun(last as int);
            cut.lemma_node(last as int);
            lemma_compiled_grows(model, cut.env, kind);
            if kind is AudioOut {
                assert(last == b);
                model.lemma_with_source_keeps(0);
            }
        }
    }
}

proof fn lemma_no_later(cut: Cut, stage: nat, b: int, late: u32)
    requires
        cut.wf(),
        stage <= cut.stages,
        0 <= b < cut.order.len(),
        cut.begun(b).source(0) matches Some((buf, found)) && found == late,
        forall|i: int|
            0 <= i < cut.order.len() && kind_of(
                cut.graph,
                #[trigger] cut.order[i],
            ) is AudioOut ==> i == b,
    ensures
        audio_in_stages(cut.env, cut.graph, cut.order, cut.of, stage)->Ok_0.latency <= late,
    decreases stage,
{
    cut.lemma_earlier_stage(stage, cut.stages);
    if stage > 0 {
        let last = (stage - 1) as nat;
        lemma_no_later(cut, last, b, late);
        lemma_no_later_in_stage(cut, last, cut.order.len(), b, late);
        cut.lemma_before(last, cut.order.len());
    }
}

proof fn lemma_never_reached(edges: Seq<Seq<usize>>, node: int, steps: nat)
    ensures
        !reached(Set::empty(), edges, node, steps),
    decreases steps,
{
    if steps > 0 {
        lemma_never_reached(edges, node, (steps - 1) as nat);
        if reached(Set::empty(), edges, node, steps) {
            let a = choose|a: int|
                0 <= a < edges.len() && #[trigger] crate::stages::leads(edges, a, node) && reached(
                    Set::empty(),
                    edges,
                    a,
                    (steps - 1) as nat,
                );
            lemma_never_reached(edges, a, (steps - 1) as nat);
        }
    }
}

proof fn lemma_no_lines(nodes: Seq<Node>, count: nat)
    requires
        count <= nodes.len(),
        forall|i: int|
            0 <= i < nodes.len() ==> !((#[trigger] nodes[i]).kind is DelayRead)
                && !(nodes[i].kind is DelayWrite),
    ensures
        lines_of(nodes, count) == Ok::<Seq<Line>, CompileError>(Seq::empty()),
    decreases count,
{
    if count > 0 {
        lemma_no_lines(nodes, (count - 1) as nat);
        assert(!(nodes[count - 1].kind is DelayRead));
    }
}

/// Without delay lines there are no loops, and so none that changes rate.
proof fn lemma_no_loops(graph: Graph)
    requires
        forall|i: int|
            0 <= i < graph.nodes@.len() ==> !((#[trigger] graph.nodes@[i]).kind is DelayRead)
                && !(graph.nodes@[i].kind is DelayWrite),
    ensures
        loops_keep_their_rate(graph),
{
    lemma_no_lines(graph.nodes@, graph.nodes@.len());
    let lines = Seq::<Line>::empty();
    if let Ok(order) = depth_first(graph) {
        assert(loop_ends(graph, order, lines) =~= Set::empty());
        assert forall|i: int| 0 <= i < order.len() implies !(#[trigger] looped_of(
            graph,
            order,
            lines,
        )[i]) by {
            let edges = crate::stages::forward_of(graph, order);
            assert forall|steps: nat| !(#[trigger] reached(Set::empty(), edges, i, steps)) by {
                lemma_never_reached(edges, i, steps);
            }
            assert(!reachable(loop_ends(graph, order, lines), edges, i));
        }
        assert forall|l: int| 0 <= l < graph.links@.len() implies (ends_of(
            order,
            #[trigger] graph.links@[l],
        ) matches Some((a, b)) ==> !looped_of(graph, order, lines)[a]) by {
            lemma_index_from(order, graph.links@[l].from, 0);
        }
    }
}

/// Along a chain of plugins the latencies add up: where nothing but plugins lies between
/// the input and the output, the program is late by the sum of their latencies, as far as a
/// count goes.
pub proof fn law_the_latencies_of_a_chain_add_up(
    graph: Graph,
    slot_count: usize,
    program: ProgramModel,
    path: Seq<Link>,
)
    requires
        compiles_to(graph, slot_count, Ok(program)),
        one_source_each(graph.links@),
        graph.nodes@.len() < usize::MAX,
        forall|i: int|
            0 <= i < graph.nodes@.len() ==> !((#[trigger] graph.nodes@[i]).kind is DelayRead)
                && !(graph.nodes@[i].kind is DelayWrite),
        is_chain(graph, path),
    ensures
        latency_along(graph, path, path.len()) <= u32::MAX ==> program.latency == latency_along(
            graph,
            path,
            path.len(),
        ),
        latency_along(graph, path, path.len()) > u32::MAX ==> program.latency == u32::MAX,
{
    lemma_no_loops(graph);
    let (cut, lines, chunkings, keys) = lemma_cut(graph, slot_count, program);
    let late = lemma_heard(cut, lines, chunkings, keys, path);
    let b = choose|b: int|
        0 <= b < cut.order.len() && #[trigger] cut.order[b] == path.last().to && (cut.begun(
            b,
        ).source(0) matches Some((buf, found)) && found == late);
    assert forall|i: int|
        0 <= i < cut.order.len() && kind_of(
            graph,
            #[trigger] cut.order[i],
        ) is AudioOut implies i == b by {
        assert(find(graph.nodes@, cut.order[i]) is Some);
        lemma_find_from(graph.nodes@, cut.order[i], 0);
        let n = find(graph.nodes@, cut.order[i])->0;
        assert(graph.nodes@[n].kind is AudioOut);
        assert(cut.order[i] == cut.order[b]);
    }
    lemma_no_later(cut, cut.stages, b, late);
}

} // verus!
