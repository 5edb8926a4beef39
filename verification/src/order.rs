//! The order nodes run in: every node after the ones it reads, and only what
//! feeds an output.
use vstd::prelude::*;
use crate::error::CompileError;
use crate::graph::{
    find, find_from, lemma_find_from, lemma_source_from, one_source_each, source, Graph, Link, Node,
};
use crate::ir::NodeId;
use crate::port::{numbered, numbered_sockets, sockets, Port};
use crate::stages::{ends_of, is_topological, lemma_index_from};

verus! {

#[derive(Debug, Clone, Copy, PartialEq, Eq, Structural)]
pub enum Mark {
    New,
    /// On the path being searched.
    Open,
    Done,
}

/// How many of a node's inputs are followed: all that a link can lead into.
pub open spec fn followed_inputs(node: Node) -> nat {
    numbered(node.kind.inputs().len())
}

/// Whether the node at `a` feeds the node at `b`.
pub open spec fn feeds(graph: Graph, a: int, b: int) -> bool {
    exists|port: u8|
        port < followed_inputs(graph.nodes@[b]) && #[trigger] source(
            graph.links@,
            graph.nodes@[b].id,
            port,
        ) is Some && find(
            graph.nodes@,
            (source(graph.links@, graph.nodes@[b].id, port)->0).0,
        ) == Some(a)
}

/// Whether the node at `a` feeds the node at `b` through `steps` wires.
pub open spec fn feeds_through(graph: Graph, a: int, b: int, steps: nat) -> bool
    decreases steps,
{
    if steps == 0 {
        a == b
    } else {
        exists|c: int|
            0 <= c < graph.nodes@.len() && #[trigger] feeds(graph, c, b) && feeds_through(
                graph,
                a,
                c,
                (steps - 1) as nat,
            )
    }
}

/// Whether the node at `a` feeds the node at `b` at all, or is it.
pub open spec fn contributes(graph: Graph, a: int, b: int) -> bool {
    exists|steps: nat| feeds_through(graph, a, b, steps)
}

/// Whether the node at `a` feeds itself.
pub open spec fn on_cycle(graph: Graph, a: int) -> bool {
    exists|steps: nat| steps > 0 && feeds_through(graph, a, a, steps)
}

proof fn lemma_feeds_one_more(graph: Graph, a: int, b: int, c: int, steps: nat)
    requires
        0 <= b < graph.nodes@.len(),
        feeds(graph, a, b),
        feeds_through(graph, b, c, steps),
    ensures
        feeds_through(graph, a, c, steps + 1),
    decreases steps,
{
    if steps == 0 {
        lemma_feeds_within(graph, a, b);
        assert(feeds_through(graph, a, a, 0));
        assert(feeds(graph, a, c));
    } else {
        let d = choose|d: int|
            0 <= d < graph.nodes@.len() && #[trigger] feeds(graph, d, c) && feeds_through(
                graph,
                b,
                d,
                (steps - 1) as nat,
            );
        lemma_feeds_one_more(graph, a, b, d, (steps - 1) as nat);
    }
}

proof fn lemma_feeds_within(graph: Graph, a: int, b: int)
    requires
        feeds(graph, a, b),
    ensures
        0 <= a < graph.nodes@.len(),
        find(graph.nodes@, graph.nodes@[a].id) == Some(a),
{
    let port = choose|port: u8|
        port < followed_inputs(graph.nodes@[b]) && #[trigger] source(
            graph.links@,
            graph.nodes@[b].id,
            port,
        ) is Some && find(
            graph.nodes@,
            (source(graph.links@, graph.nodes@[b].id, port)->0).0,
        ) == Some(a);
    lemma_find_from(graph.nodes@, (source(graph.links@, graph.nodes@[b].id, port)->0).0, 0);
}

/// The node at an index is the one its id names.
pub open spec fn is_first(graph: Graph, i: int) -> bool {
    0 <= i < graph.nodes@.len() && find(graph.nodes@, graph.nodes@[i].id) == Some(i)
}

/// Whether the node at `a` stands in the order before `at`.
pub open spec fn stands_before(graph: Graph, order: Seq<NodeId>, a: int, at: int) -> bool {
    exists|j: int| 0 <= j < at && #[trigger] order[j] == graph.nodes@[a].id
}

/// Every node of the order exists, stands there once, and comes after everything
/// that feeds it.
pub open spec fn is_sorted(graph: Graph, order: Seq<NodeId>) -> bool {
    &&& order.no_duplicates()
    &&& forall|k: int|
        0 <= k < order.len() ==> find(graph.nodes@, #[trigger] order[k]) is Some && forall|a: int|
            #[trigger] feeds(graph, a, find(graph.nodes@, order[k])->0) ==> stands_before(
                graph,
                order,
                a,
                k,
            )
}

/// Done nodes are those in the order.
pub open spec fn marks_agree(graph: Graph, marks: Seq<Mark>, order: Seq<NodeId>) -> bool {
    &&& marks.len() == graph.nodes@.len()
    &&& forall|i: int|
        0 <= i < marks.len() ==> (#[trigger] marks[i] == Mark::Done <==> is_first(graph, i)
            && order.contains(graph.nodes@[i].id))
    &&& forall|i: int| 0 <= i < marks.len() && #[trigger] marks[i] != Mark::New ==> is_first(graph, i)
}

pub open spec fn new_marks(marks: Seq<Mark>) -> nat
    decreases marks.len(),
{
    if marks.len() == 0 {
        0
    } else {
        new_marks(marks.drop_last()) + if marks.last() == Mark::New {
            1nat
        } else {
            0nat
        }
    }
}

proof fn lemma_new_marks(marks: Seq<Mark>, i: int, mark: Mark)
    requires
        0 <= i < marks.len(),
        mark != Mark::New,
    ensures
        marks[i] == Mark::New ==> new_marks(marks.update(i, mark)) + 1 == new_marks(marks),
        marks[i] != Mark::New ==> new_marks(marks.update(i, mark)) == new_marks(marks),
    decreases marks.len(),
{
    if i == marks.len() - 1 {
        assert(marks.update(i, mark).drop_last() =~= marks.drop_last());
    } else {
        lemma_new_marks(marks.drop_last(), i, mark);
        assert(marks.update(i, mark).drop_last() =~= marks.drop_last().update(i, mark));
    }
}

/// Everything in the order beyond what was there feeds `into`.
pub open spec fn added_feed(graph: Graph, before: Seq<NodeId>, after: Seq<NodeId>, into: int) -> bool {
    &&& before.len() <= after.len()
    &&& after.take(before.len() as int) == before
    &&& forall|k: int|
        before.len() <= k < after.len() ==> contributes(
            graph,
            find(graph.nodes@, #[trigger] after[k])->0,
            into,
        )
}

proof fn lemma_take_contains(before: Seq<NodeId>, after: Seq<NodeId>, id: NodeId)
    requires
        before.len() <= after.len(),
        after.take(before.len() as int) == before,
        before.contains(id),
    ensures
        after.contains(id),
{
    let i = choose|i: int| 0 <= i < before.len() && before[i] == id;
    assert(after.take(before.len() as int)[i] == after[i]);
}

/// How many nodes are not on the path.
pub open spec fn off_path(nodes: Seq<Node>, path: Set<NodeId>) -> nat
    decreases nodes.len(),
{
    if nodes.len() == 0 {
        0
    } else {
        off_path(nodes.drop_last(), path) + if path.contains(nodes.last().id) {
            0nat
        } else {
            1nat
        }
    }
}

pub proof fn lemma_off_path(nodes: Seq<Node>, path: Set<NodeId>, id: NodeId)
    ensures
        off_path(nodes, path.insert(id)) <= off_path(nodes, path),
        !path.contains(id) && (exists|i: int| 0 <= i < nodes.len() && (#[trigger] nodes[i]).id == id)
            ==> off_path(nodes, path.insert(id)) < off_path(nodes, path),
    decreases nodes.len(),
{
    if nodes.len() > 0 {
        let front = nodes.drop_last();
        lemma_off_path(front, path, id);
        if !path.contains(id) && nodes.last().id != id && (exists|i: int|
            0 <= i < nodes.len() && (#[trigger] nodes[i]).id == id) {
            let i = choose|i: int| 0 <= i < nodes.len() && (#[trigger] nodes[i]).id == id;
            assert(front[i].id == id);
        }
    }
}

/// The order once a node has been visited: everything it reads is appended first,
/// then the node. One that is in already stays where it is, and one that is met
/// again on the path to itself is on a cycle.
pub open spec fn visited(
    graph: Graph,
    id: NodeId,
    path: Set<NodeId>,
    order: Seq<NodeId>,
) -> Result<Seq<NodeId>, CompileError>
    decreases off_path(graph.nodes@, path), 0nat,
{
    match find(graph.nodes@, id) {
        None => Ok(order),
        Some(at) => if order.contains(id) {
            Ok(order)
        } else if path.contains(id) {
            Err(CompileError::Cycle { node: id })
        } else {
            proof {
                lemma_find_from(graph.nodes@, id, 0);
                lemma_off_path(graph.nodes@, path, id);
                assert(graph.nodes@[at].id == id);
            }
            match inputs_visited(
                graph,
                id,
                followed_inputs(graph.nodes@[at]),
                path.insert(id),
                order,
            ) {
                Err(error) => Err(error),
                Ok(before) => Ok(before.push(id)),
            }
        },
    }
}

/// The order once what the first `count` inputs of a node read has been visited,
/// input by input.
pub open spec fn inputs_visited(
    graph: Graph,
    id: NodeId,
    count: nat,
    path: Set<NodeId>,
    order: Seq<NodeId>,
) -> Result<Seq<NodeId>, CompileError>
    decreases off_path(graph.nodes@, path), count,
{
    if count == 0 {
        Ok(order)
    } else {
        match inputs_visited(graph, id, (count - 1) as nat, path, order) {
            Err(error) => Err(error),
            Ok(before) => match source(graph.links@, id, (count - 1) as u8) {
                Some((from, from_port)) => visited(graph, from, path, before),
                None => Ok(before),
            },
        }
    }
}

proof fn lemma_inputs_fail(
    graph: Graph,
    id: NodeId,
    at: nat,
    count: nat,
    path: Set<NodeId>,
    order: Seq<NodeId>,
)
    requires
        at <= count,
        inputs_visited(graph, id, at, path, order) is Err,
    ensures
        inputs_visited(graph, id, count, path, order) == inputs_visited(graph, id, at, path, order),
    decreases count,
{
    if at < count {
        lemma_inputs_fail(graph, id, at, (count - 1) as nat, path, order);
    }
}

/// The nodes on the path being searched.
pub open spec fn opened(graph: Graph, marks: Seq<Mark>) -> Set<NodeId> {
    Set::new(
        |id: NodeId| find(graph.nodes@, id) matches Some(at) && marks[at] == Mark::Open,
    )
}

/// Depth-first post-order: a node is appended once everything it reads is in.
pub fn visit(graph: &Graph, id: NodeId, marks: &mut Vec<Mark>, order: &mut Vec<NodeId>) -> (r: Result<
    (),
    CompileError,
>)
    requires
        marks_agree(*graph, old(marks)@, old(order)@),
        is_sorted(*graph, old(order)@),
        forall|x: int|
            0 <= x < old(marks)@.len() && #[trigger] old(marks)@[x] == Mark::Open && find(
                graph.nodes@,
                id,
            ) is Some ==> exists|steps: nat|
                steps > 0 && feeds_through(*graph, find(graph.nodes@, id)->0, x, steps),
    ensures
        match visited(*graph, id, opened(*graph, old(marks)@), old(order)@) {
            Ok(list) => r is Ok && final(order)@ == list,
            Err(error) => r == Err::<(), CompileError>(error),
        },
        match r {
            Ok(()) => {
                &&& marks_agree(*graph, final(marks)@, final(order)@)
                &&& is_sorted(*graph, final(order)@)
                &&& new_marks(final(marks)@) <= new_marks(old(marks)@)
                &&& forall|x: int|
                    0 <= x < old(marks)@.len() ==> (#[trigger] final(marks)@[x] == Mark::Open <==> old(
                        marks,
                    )@[x] == Mark::Open)
                &&& match find(graph.nodes@, id) {
                    Some(at) => final(order)@.contains(id) && added_feed(
                        *graph,
                        old(order)@,
                        final(order)@,
                        at,
                    ),
                    None => final(order)@ == old(order)@,
                }
            },
            Err(error) => find(graph.nodes@, id) is Some && exists|x: int|
                #[trigger] is_first(*graph, x) && error == (CompileError::Cycle {
                    node: graph.nodes@[x].id,
                }) && on_cycle(*graph, x) && contributes(*graph, x, find(graph.nodes@, id)->0),
        },
    decreases new_marks(old(marks)@),
{
    proof {
        lemma_find_from(graph.nodes@, id, 0);
    }
    let at: usize = match find_index(graph, id) {
        Some(at) => at,
        None => {
            return Ok(());
        },
    };
    assert(graph.nodes@[at as int].id == id);
    assert(is_first(*graph, at as int));
    match marks[at] {
        Mark::Done => {
            assert(order@.take(order@.len() as int) =~= order@);
            return Ok(());
        },
        Mark::Open => {
            proof {
                assert(marks@[at as int] == Mark::Open);
                let steps = choose|steps: nat|
                    steps > 0 && feeds_through(*graph, at as int, at as int, steps);
                assert(on_cycle(*graph, at as int));
                assert(feeds_through(*graph, at as int, at as int, 0));
                assert(opened(*graph, marks@).contains(id));
            }
            return Err(CompileError::Cycle { node: id });
        },
        Mark::New => {},
    }
    let ghost marks_before = marks@;
    let ghost order_before = order@;
    proof {
        lemma_new_marks(marks@, at as int, Mark::Open);
        assert(!order@.contains(id));
    }
    marks.set(at, Mark::Open);
    assert(marks_agree(*graph, marks@, order@));
    let ghost path = opened(*graph, marks_before).insert(id);
    proof {
        lemma_opened(*graph, marks_before, marks@, id);
        assert(visited(*graph, id, opened(*graph, marks_before), order_before) == match inputs_visited(
            *graph,
            id,
            followed_inputs(graph.nodes@[at as int]),
            path,
            order_before,
        ) {
            Err(error) => Err(error),
            Ok(before) => Ok(before.push(id)),
        });
    }

    let ports: Vec<Port> = graph.nodes[at].kind.input_ports();
    assert(sockets(ports@).len() == ports@.len());
    let count: usize = numbered_sockets(ports.len());
    let mut port: usize = 0;
    proof {
        assert(order@.take(order@.len() as int) =~= order@);
    }
    while port < count
        invariant
            port <= count <= 256,
            count == followed_inputs(graph.nodes@[at as int]),
            at < graph.nodes@.len(),
            graph.nodes@[at as int].id == id,
            is_first(*graph, at as int),
            marks_before == old(marks)@,
            marks_before.len() == graph.nodes@.len(),
            marks_before[at as int] == Mark::New,
            marks_agree(*graph, marks@, order@),
            is_sorted(*graph, order@),
            !order@.contains(id),
            new_marks(marks@) < new_marks(marks_before),
            added_feed(*graph, order_before, order@, at as int),
            path == opened(*graph, marks_before).insert(id),
            inputs_visited(*graph, id, port as nat, path, order_before) == Ok::<
                Seq<NodeId>,
                CompileError,
            >(order@),
            order_before == old(order)@,
            visited(*graph, id, opened(*graph, marks_before), order_before)
                == match inputs_visited(*graph, id, count as nat, path, order_before) {
                Err(error) => Err(error),
                Ok(before) => Ok(before.push(id)),
            },
            forall|x: int|
                0 <= x < marks_before.len() ==> (#[trigger] marks@[x] == Mark::Open <==> x == at
                    || marks_before[x] == Mark::Open),
            forall|x: int|
                0 <= x < marks_before.len() && #[trigger] marks_before[x] == Mark::Open
                    ==> exists|steps: nat|
                    steps > 0 && feeds_through(*graph, at as int, x, steps),
            forall|p: u8|
                p < port && (#[trigger] source(graph.links@, id, p)) is Some && find(
                    graph.nodes@,
                    (source(graph.links@, id, p)->0).0,
                ) is Some ==> order@.contains((source(graph.links@, id, p)->0).0),
        decreases count - port,
    {
        let socket: u8 = port as u8;
        if let Some((from, _from_port)) = graph.source_of(id, socket) {
            let ghost order_here = order@;
            proof {
                lemma_find_from(graph.nodes@, from, 0);
                if find(graph.nodes@, from) is Some {
                    let a = find(graph.nodes@, from)->0;
                    assert(source(graph.links@, graph.nodes@[at as int].id, socket) is Some);
                    assert(feeds(*graph, a, at as int));
                    assert forall|x: int|
                        0 <= x < marks@.len() && #[trigger] marks@[x]
                            == Mark::Open implies exists|steps: nat|
                        steps > 0 && feeds_through(*graph, a, x, steps) by {
                        if x == at {
                            assert(feeds_through(*graph, at as int, at as int, 0));
                            lemma_feeds_one_more(*graph, a, at as int, x, 0);
                            assert(feeds_through(*graph, a, x, 1));
                        } else {
                            assert(marks_before[x] == Mark::Open);
                            let steps = choose|steps: nat|
                                steps > 0 && feeds_through(*graph, at as int, x, steps);
                            lemma_feeds_one_more(*graph, a, at as int, x, steps);
                        }
                    }
                }
            }
            proof {
                lemma_opened(*graph, marks_before, marks@, id);
            }
            let outcome: Result<(), CompileError> = visit(graph, from, marks, order);
            match outcome {
                Ok(()) => {
                    proof {
                        lemma_after_source(
                            *graph,
                            order_before,
                            order_here,
                            order@,
                            marks@,
                            at as int,
                            from,
                        );
                        assert forall|p: u8|
                            p <= port && (#[trigger] source(graph.links@, id, p)) is Some && find(
                                graph.nodes@,
                                (source(graph.links@, id, p)->0).0,
                            ) is Some implies order@.contains(
                            (source(graph.links@, id, p)->0).0,
                        ) by {
                            if p < port {
                                lemma_take_contains(
                                    order_here,
                                    order@,
                                    (source(graph.links@, id, p)->0).0,
                                );
                            }
                        }
                    }
                },
                Err(error) => {
                    proof {
                        let a = find(graph.nodes@, from)->0;
                        let x = choose|x: int|
                            #[trigger] is_first(*graph, x) && error == (CompileError::Cycle {
                                node: graph.nodes@[x].id,
                            }) && on_cycle(*graph, x) && contributes(*graph, x, a);
                        lemma_contributes_on(*graph, x, a, at as int);
                        lemma_inputs_fail(
                            *graph,
                            id,
                            (port + 1) as nat,
                            count as nat,
                            path,
                            order_before,
                        );
                    }
                    return Err(error);
                },
            }
        }
        port += 1;
    }

    let ghost order_fed = order@;
    let ghost marks_fed = marks@;
    proof {
        lemma_new_marks(marks@, at as int, Mark::Done);
        assert(marks@[at as int] == Mark::Open);
    }
    marks.set(at, Mark::Done);
    order.push(id);
    proof {
        lemma_appended(*graph, order_before, order_fed, order@, marks_fed, marks@, at as int);
    }
    Ok(())
}

/// Marking a node opens it and no other.
proof fn lemma_opened(graph: Graph, before: Seq<Mark>, marks: Seq<Mark>, id: NodeId)
    requires
        before.len() == marks.len() == graph.nodes@.len(),
        find(graph.nodes@, id) matches Some(at) && forall|x: int|
            0 <= x < marks.len() ==> (#[trigger] marks[x] == Mark::Open <==> x == at || before[x]
                == Mark::Open),
    ensures
        opened(graph, marks) == opened(graph, before).insert(id),
{
    assert forall|other: NodeId| opened(graph, marks).contains(other) == opened(
        graph,
        before,
    ).insert(id).contains(other) by {
        lemma_find_from(graph.nodes@, other, 0);
        lemma_find_from(graph.nodes@, id, 0);
        if let Some(x) = find(graph.nodes@, other) {
            assert(marks[x] == Mark::Open <==> x == find(graph.nodes@, id)->0 || before[x]
                == Mark::Open);
        }
    }
    assert(opened(graph, marks) =~= opened(graph, before).insert(id));
}

/// What a further wire is fed by is fed by all that came before.
proof fn lemma_contributes_on(graph: Graph, x: int, a: int, b: int)
    requires
        contributes(graph, x, a),
        feeds(graph, a, b),
    ensures
        contributes(graph, x, b),
{
    lemma_feeds_within(graph, a, b);
    let steps = choose|steps: nat| feeds_through(graph, x, a, steps);
    assert(feeds_through(graph, x, b, steps + 1));
}

proof fn lemma_after_source(
    graph: Graph,
    order_before: Seq<NodeId>,
    order_here: Seq<NodeId>,
    order: Seq<NodeId>,
    marks: Seq<Mark>,
    at: int,
    from: NodeId,
)
    requires
        is_first(graph, at),
        added_feed(graph, order_before, order_here, at),
        marks_agree(graph, marks, order),
        marks[at] == Mark::Open,
        match find(graph.nodes@, from) {
            Some(a) => feeds(graph, a, at) && added_feed(graph, order_here, order, a),
            None => order == order_here,
        },
    ensures
        added_feed(graph, order_before, order, at),
        !order.contains(graph.nodes@[at].id),
        order_here.len() <= order.len(),
        order.take(order_here.len() as int) == order_here,
{
    assert(order_here.take(order_here.len() as int) =~= order_here);
    if let Some(a) = find(graph.nodes@, from) {
        assert(order.take(order_before.len() as int) =~= order_here.take(
            order_before.len() as int,
        )) by {
            assert forall|i: int| 0 <= i < order_before.len() implies order[i]
                == order_here[i] by {
                assert(order.take(order_here.len() as int)[i] == order[i]);
            }
        }
        assert forall|k: int| order_before.len() <= k < order.len() implies contributes(
            graph,
            find(graph.nodes@, #[trigger] order[k])->0,
            at,
        ) by {
            if k < order_here.len() {
                assert(order.take(order_here.len() as int)[k] == order[k]);
                assert(order_here[k] == order[k]);
            } else {
                lemma_contributes_on(graph, find(graph.nodes@, order[k])->0, a, at);
            }
        }
    }
}

proof fn lemma_appended(
    graph: Graph,
    order_before: Seq<NodeId>,
    order_fed: Seq<NodeId>,
    order: Seq<NodeId>,
    marks_fed: Seq<Mark>,
    marks: Seq<Mark>,
    at: int,
)
    requires
        is_first(graph, at),
        order == order_fed.push(graph.nodes@[at].id),
        !order_fed.contains(graph.nodes@[at].id),
        marks_agree(graph, marks_fed, order_fed),
        marks == marks_fed.update(at, Mark::Done),
        is_sorted(graph, order_fed),
        added_feed(graph, order_before, order_fed, at),
        forall|p: u8|
            p < followed_inputs(graph.nodes@[at]) && (#[trigger] source(
                graph.links@,
                graph.nodes@[at].id,
                p,
            )) is Some && find(
                graph.nodes@,
                (source(graph.links@, graph.nodes@[at].id, p)->0).0,
            ) is Some ==> order_fed.contains(
                (source(graph.links@, graph.nodes@[at].id, p)->0).0,
            ),
    ensures
        marks_agree(graph, marks, order),
        is_sorted(graph, order),
        added_feed(graph, order_before, order, at),
        order.contains(graph.nodes@[at].id),
{
    let id = graph.nodes@[at].id;
    assert(order[order_fed.len() as int] == id);
    assert forall|i: int| 0 <= i < marks.len() implies (#[trigger] marks[i] == Mark::Done <==> is_first(
        graph,
        i,
    ) && order.contains(graph.nodes@[i].id)) by {
        if i != at {
            assert(marks[i] == marks_fed[i]);
            if is_first(graph, i) && order.contains(graph.nodes@[i].id) {
                let k = choose|k: int| 0 <= k < order.len() && order[k] == graph.nodes@[i].id;
                if k < order_fed.len() {
                    assert(order_fed[k] == graph.nodes@[i].id);
                }
            }
            if order_fed.contains(graph.nodes@[i].id) {
                let k = choose|k: int|
                    0 <= k < order_fed.len() && order_fed[k] == graph.nodes@[i].id;
                assert(order[k] == graph.nodes@[i].id);
            }
        }
    }
    assert forall|i: int| 0 <= i < marks.len() && #[trigger] marks[i] != Mark::New implies is_first(
        graph,
        i,
    ) by {
        if i != at {
            assert(marks[i] == marks_fed[i]);
        }
    }
    assert forall|k: int| 0 <= k < order.len() implies find(
        graph.nodes@,
        #[trigger] order[k],
    ) is Some && forall|a: int|
        #[trigger] feeds(graph, a, find(graph.nodes@, order[k])->0) ==> stands_before(
            graph,
            order,
            a,
            k,
        ) by {
        if k < order_fed.len() {
            assert(order[k] == order_fed[k]);
            assert forall|a: int| #[trigger] feeds(
                graph,
                a,
                find(graph.nodes@, order[k])->0,
            ) implies stands_before(graph, order, a, k) by {
                assert(stands_before(graph, order_fed, a, k));
                let j = choose|j: int| 0 <= j < k && #[trigger] order_fed[j] == graph.nodes@[a].id;
                assert(order[j] == graph.nodes@[a].id);
            }
        } else {
            assert forall|a: int| #[trigger] feeds(graph, a, at) implies stands_before(
                graph,
                order,
                a,
                k,
            ) by {
                lemma_feeds_within(graph, a, at);
                let p = choose|p: u8|
                    p < followed_inputs(graph.nodes@[at]) && #[trigger] source(
                        graph.links@,
                        id,
                        p,
                    ) is Some && find(graph.nodes@, (source(graph.links@, id, p)->0).0)
                        == Some(a);
                lemma_find_from(graph.nodes@, (source(graph.links@, id, p)->0).0, 0);
                assert(order_fed.contains(graph.nodes@[a].id));
                let j = choose|j: int|
                    0 <= j < order_fed.len() && order_fed[j] == graph.nodes@[a].id;
                assert(order[j] == graph.nodes@[a].id);
            }
        }
    }
    assert(order.take(order_before.len() as int) =~= order_fed.take(order_before.len() as int));
    assert forall|k: int| order_before.len() <= k < order.len() implies contributes(
        graph,
        find(graph.nodes@, #[trigger] order[k])->0,
        at,
    ) by {
        if k < order_fed.len() {
            assert(order[k] == order_fed[k]);
        } else {
            assert(feeds_through(graph, at, at, 0));
        }
    }
}

/// Where the node with an id stands.
fn find_index(graph: &Graph, id: NodeId) -> (r: Option<usize>)
    ensures
        match r {
            Some(i) => find(graph.nodes@, id) == Some(i as int) && i < graph.nodes@.len(),
            None => find(graph.nodes@, id) is None,
        },
{
    let mut at: usize = 0;
    while at < graph.nodes.len()
        invariant
            at <= graph.nodes@.len(),
            find(graph.nodes@, id) == find_from(graph.nodes@, id, at as int),
        decreases graph.nodes@.len() - at,
    {
        if graph.nodes[at].id == id {
            return Some(at);
        }
        at += 1;
    }
    None
}

/// A node whose purpose is not what it hands on: it hands on nothing, or the
/// user has marked it.
pub open spec fn is_sink(node: Node) -> bool {
    node.kind.outputs().len() == 0 || node.always_on
}

/// Whether the node at `i` feeds the sink at `s`.
pub open spec fn serves(graph: Graph, i: int, s: int) -> bool {
    &&& 0 <= s < graph.nodes@.len()
    &&& is_sink(graph.nodes@[s])
    &&& find(graph.nodes@, graph.nodes@[s].id) matches Some(t) && contributes(graph, i, t)
}

/// Whether the node at `i` is part of the program: only what feeds a sink is.
pub open spec fn runs(graph: Graph, i: int) -> bool {
    is_first(graph, i) && exists|s: int| #[trigger] serves(graph, i, s)
}

/// The nodes that run, each after what feeds it.
pub open spec fn is_run_order(graph: Graph, order: Seq<NodeId>) -> bool {
    &&& is_sorted(graph, order)
    &&& forall|i: int|
        0 <= i < graph.nodes@.len() ==> (#[trigger] runs(graph, i) <==> is_first(graph, i)
            && order.contains(graph.nodes@[i].id))
}

proof fn lemma_feeders_stand(graph: Graph, order: Seq<NodeId>, a: int, b: int, k: int, steps: nat)
    requires
        is_sorted(graph, order),
        0 <= k < order.len(),
        find(graph.nodes@, order[k]) == Some(b),
        feeds_through(graph, a, b, steps),
    ensures
        is_first(graph, a),
        exists|j: int| 0 <= j <= k - steps && #[trigger] order[j] == graph.nodes@[a].id,
    decreases steps,
{
    lemma_find_from(graph.nodes@, order[k], 0);
    if steps == 0 {
        assert(order[k] == graph.nodes@[a].id);
    } else {
        let c = choose|c: int|
            0 <= c < graph.nodes@.len() && #[trigger] feeds(graph, c, b) && feeds_through(
                graph,
                a,
                c,
                (steps - 1) as nat,
            );
        assert(feeds(graph, c, find(graph.nodes@, order[k])->0));
        assert(stands_before(graph, order, c, k));
        lemma_feeds_within(graph, c, b);
        let j = choose|j: int| 0 <= j < k && #[trigger] order[j] == graph.nodes@[c].id;
        lemma_feeders_stand(graph, order, a, c, j, (steps - 1) as nat);
        let i = choose|i: int|
            0 <= i <= j - (steps - 1) && #[trigger] order[i] == graph.nodes@[a].id;
        assert(order[i] == graph.nodes@[a].id);
    }
}

/// Nothing that runs feeds itself: an order exists only where there is no cycle.
pub proof fn law_order_has_no_cycle(graph: Graph, order: Seq<NodeId>, i: int)
    requires
        is_run_order(graph, order),
        runs(graph, i),
    ensures
        !on_cycle(graph, i),
{
    if on_cycle(graph, i) {
        let steps = choose|steps: nat| steps > 0 && feeds_through(graph, i, i, steps);
        let k = choose|k: int| 0 <= k < order.len() && order[k] == graph.nodes@[i].id;
        lemma_feeders_stand(graph, order, i, i, k, steps);
        let j = choose|j: int| 0 <= j <= k - steps && #[trigger] order[j] == graph.nodes@[i].id;
        assert(order[j] == order[k]);
    }
}

/// Whether everything in the order serves one of the first `count` sinks.
spec fn all_serve(graph: Graph, order: Seq<NodeId>, count: int) -> bool {
    forall|k: int|
        0 <= k < order.len() ==> exists|s: int|
            s < count && #[trigger] serves(graph, find(graph.nodes@, #[trigger] order[k])->0, s)
}

proof fn lemma_still_served(graph: Graph, order: Seq<NodeId>, count: int)
    requires
        all_serve(graph, order, count),
    ensures
        all_serve(graph, order, count + 1),
{
    assert forall|k: int| 0 <= k < order.len() implies exists|s: int|
        s < count + 1 && #[trigger] serves(graph, find(graph.nodes@, #[trigger] order[k])->0, s) by {
        let s = choose|s: int|
            s < count && #[trigger] serves(graph, find(graph.nodes@, order[k])->0, s);
        assert(serves(graph, find(graph.nodes@, order[k])->0, s));
    }
}

/// What a visit to a sink appends serves that sink.
proof fn lemma_served(graph: Graph, before: Seq<NodeId>, order: Seq<NodeId>, at: int)
    requires
        all_serve(graph, before, at),
        0 <= at < graph.nodes@.len(),
        is_sink(graph.nodes@[at]),
        find(graph.nodes@, graph.nodes@[at].id) matches Some(t) && added_feed(
            graph,
            before,
            order,
            t,
        ),
    ensures
        all_serve(graph, order, at + 1),
{
    assert forall|k: int| 0 <= k < order.len() implies exists|s: int|
        s < at + 1 && #[trigger] serves(graph, find(graph.nodes@, #[trigger] order[k])->0, s) by {
        if k < before.len() {
            assert(order.take(before.len() as int)[k] == order[k]);
            let s = choose|s: int|
                s < at && #[trigger] serves(graph, find(graph.nodes@, before[k])->0, s);
            assert(serves(graph, find(graph.nodes@, order[k])->0, s));
        } else {
            assert(serves(graph, find(graph.nodes@, order[k])->0, at));
        }
    }
}

/// The order once the sinks among the first `count` nodes have been visited.
pub open spec fn sinks_visited(graph: Graph, count: nat) -> Result<Seq<NodeId>, CompileError>
    decreases count,
{
    if count == 0 {
        Ok(Seq::empty())
    } else {
        match sinks_visited(graph, (count - 1) as nat) {
            Err(error) => Err(error),
            Ok(order) => if is_sink(graph.nodes@[count - 1]) {
                visited(graph, graph.nodes@[count - 1].id, Set::empty(), order)
            } else {
                Ok(order)
            },
        }
    }
}

/// The order nodes run in: depth first from each sink in turn, by input number.
pub open spec fn depth_first(graph: Graph) -> Result<Seq<NodeId>, CompileError> {
    sinks_visited(graph, graph.nodes@.len())
}

proof fn lemma_sinks_fail(graph: Graph, at: nat, count: nat)
    requires
        at <= count,
        sinks_visited(graph, at) is Err,
    ensures
        sinks_visited(graph, count) == sinks_visited(graph, at),
    decreases count,
{
    if at < count {
        lemma_sinks_fail(graph, at, (count - 1) as nat);
    }
}

/// Puts the nodes that run in an order they can run in.
pub fn run_order(graph: &Graph) -> (r: Result<Vec<NodeId>, CompileError>)
    ensures
        match depth_first(*graph) {
            Ok(order) => r is Ok && r->Ok_0@ == order,
            Err(error) => r == Err::<Vec<NodeId>, CompileError>(error),
        },
        match r {
            Ok(order) => is_run_order(*graph, order@),
            Err(error) => exists|x: int|
                #[trigger] runs(*graph, x) && on_cycle(*graph, x) && error
                    == (CompileError::Cycle { node: graph.nodes@[x].id }),
        },
{
    let mut order: Vec<NodeId> = Vec::new();
    let mut marks: Vec<Mark> = vec![Mark::New; graph.nodes.len()];
    let mut at: usize = 0;
    while at < graph.nodes.len()
        invariant
            at <= graph.nodes@.len(),
            marks_agree(*graph, marks@, order@),
            is_sorted(*graph, order@),
            forall|x: int| 0 <= x < marks@.len() ==> #[trigger] marks@[x] != Mark::Open,
            sinks_visited(*graph, at as nat) == Ok::<Seq<NodeId>, CompileError>(order@),
            all_serve(*graph, order@, at as int),
            forall|s: int|
                0 <= s < at && is_sink(#[trigger] graph.nodes@[s]) ==> order@.contains(
                    graph.nodes@[s].id,
                ),
        decreases graph.nodes@.len() - at,
    {
        let ports: Vec<Port> = graph.nodes[at].kind.output_ports();
        assert(sockets(ports@).len() == ports@.len());
        if ports.is_empty() || graph.nodes[at].always_on {
            let id: NodeId = graph.nodes[at].id;
            let ghost before = order@;
            proof {
                lemma_find_from(graph.nodes@, id, 0);
                assert(is_sink(graph.nodes@[at as int]));
                assert forall|other: NodeId| !opened(*graph, marks@).contains(other) by {
                    lemma_find_from(graph.nodes@, other, 0);
                }
                assert(opened(*graph, marks@) =~= Set::empty());
            }
            let outcome: Result<(), CompileError> = visit(graph, id, &mut marks, &mut order);
            match outcome {
                Ok(()) => {
                    proof {
                        lemma_served(*graph, before, order@, at as int);
                        assert forall|s: int|
                            0 <= s < at + 1 && is_sink(#[trigger] graph.nodes@[s]) implies order@.contains(
                            graph.nodes@[s].id,
                        ) by {
                            if s < at {
                                lemma_take_contains(before, order@, graph.nodes@[s].id);
                            }
                        }
                    }
                },
                Err(error) => {
                    proof {
                        let t = find(graph.nodes@, id)->0;
                        let x = choose|x: int|
                            #[trigger] is_first(*graph, x) && error == (CompileError::Cycle {
                                node: graph.nodes@[x].id,
                            }) && on_cycle(*graph, x) && contributes(*graph, x, t);
                        assert(serves(*graph, x, at as int));
                        assert(runs(*graph, x));
                        lemma_sinks_fail(*graph, (at + 1) as nat, graph.nodes@.len());
                    }
                    return Err(error);
                },
            }
        } else {
            proof {
                lemma_still_served(*graph, order@, at as int);
            }
        }
        at += 1;
    }
    proof {
        assert forall|i: int| 0 <= i < graph.nodes@.len() implies (#[trigger] runs(*graph, i)
            <==> is_first(*graph, i) && order@.contains(graph.nodes@[i].id)) by {
            if runs(*graph, i) {
                let s = choose|s: int| #[trigger] serves(*graph, i, s);
                let t = find(graph.nodes@, graph.nodes@[s].id)->0;
                let steps = choose|steps: nat| feeds_through(*graph, i, t, steps);
                assert(order@.contains(graph.nodes@[s].id));
                let k = choose|k: int|
                    0 <= k < order@.len() && order@[k] == graph.nodes@[s].id;
                lemma_feeders_stand(*graph, order@, i, t, k, steps);
                let j = choose|j: int|
                    0 <= j <= k - steps && #[trigger] order@[j] == graph.nodes@[i].id;
                assert(order@[j] == graph.nodes@[i].id);
            }
            if is_first(*graph, i) && order@.contains(graph.nodes@[i].id) {
                let k = choose|k: int|
                    0 <= k < order@.len() && order@[k] == graph.nodes@[i].id;
                let s = choose|s: int|
                    s < graph.nodes@.len() && #[trigger] serves(
                        *graph,
                        find(graph.nodes@, order@[k])->0,
                        s,
                    );
                assert(serves(*graph, i, s));
            }
        }
    }
    Ok(order)
}

/// A link between two nodes that run leads forwards in the order, as long as no
/// input has two sources.
pub proof fn law_links_lead_forwards(graph: Graph, order: Seq<NodeId>)
    requires
        is_run_order(graph, order),
        one_source_each(graph.links@),
        forall|l: int|
            0 <= l < graph.links@.len() ==> graph.joins(
                (#[trigger] graph.links@[l]).from,
                graph.links@[l].from_port,
                graph.links@[l].to,
                graph.links@[l].to_port,
            ),
    ensures
        is_topological(graph, order),
{
    assert forall|l: int| 0 <= l < graph.links@.len() implies (ends_of(
        order,
        #[trigger] graph.links@[l],
    ) matches Some((a, b)) ==> a < b) by {
        let link = graph.links@[l];
        if let Some((a, b)) = ends_of(order, link) {
            lemma_index_from(order, link.from, 0);
            lemma_index_from(order, link.to, 0);
            lemma_find_from(graph.nodes@, link.to, 0);
            lemma_find_from(graph.nodes@, link.from, 0);
            let into = find(graph.nodes@, link.to)->0;
            let from = find(graph.nodes@, link.from)->0;
            lemma_source_from(graph.links@, link.to, link.to_port, 0);
            assert(graph.links@[l].to == link.to);
            let (fed, fed_port) = source(graph.links@, link.to, link.to_port)->0;
            let m = choose|m: int|
                0 <= m < graph.links@.len() && #[trigger] graph.links@[m] == (Link {
                    from: fed,
                    from_port: fed_port,
                    to: link.to,
                    to_port: link.to_port,
                });
            if m < l {
                assert(graph.links@[m].to == graph.links@[l].to);
            }
            if l < m {
                assert(graph.links@[l].to == graph.links@[m].to);
            }
            assert(fed == link.from);
            assert(graph.in_type(link.to, link.to_port) is Some);
            assert(link.to_port < followed_inputs(graph.nodes@[into]));
            assert(source(graph.links@, graph.nodes@[into].id, link.to_port) is Some);
            assert(feeds(graph, from, into));
            assert(order[b] == link.to);
            assert(feeds(graph, from, find(graph.nodes@, order[b])->0));
            assert(stands_before(graph, order, from, b));
            let j = choose|j: int| 0 <= j < b && #[trigger] order[j] == graph.nodes@[from].id;
            assert(order[a] == link.from);
            assert(order[j] == order[a]);
        }
    }
}

} // verus!
